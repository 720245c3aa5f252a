use multicore_alloc::channel::{MessageChannel, CHANNEL_CAPACITY};
use multicore_alloc::message::Message;

#[test]
fn receive_on_empty_channel_gives_nothing() {
    let mut c = MessageChannel::new();
    assert_eq!(c.try_receive(), None);
}

#[test]
fn received_message_is_the_one_sent() {
    let mut c = MessageChannel::new();
    assert_eq!(c.try_send(Message::SinkOff), Ok(()));
    assert_eq!(c.try_receive(), Some(Message::SinkOff));
    assert_eq!(c.try_receive(), None);
}

#[test]
fn second_send_before_receive_is_refused() {
    assert_eq!(CHANNEL_CAPACITY, 1);
    let mut c = MessageChannel::new();
    assert_eq!(c.try_send(Message::SinkOn), Ok(()));
    assert_eq!(c.try_send(Message::SinkOff), Err(Message::SinkOff));
    assert_eq!(c.try_receive(), Some(Message::SinkOn));
    assert_eq!(c.try_send(Message::SinkOff), Ok(()));
    assert_eq!(c.try_receive(), Some(Message::SinkOff));
}

#[test]
fn sends_then_receives_keep_order() {
    let mut c = MessageChannel::new();
    let msgs = vec![Message::SinkOn];
    assert_eq!(c.send_all(&msgs), 1);
    assert_eq!(c.receive_all(), msgs);
    assert_eq!(c.receive_all(), Vec::<Message>::new());
}

#[test]
fn send_all_stops_at_capacity() {
    let mut c = MessageChannel::new();
    let msgs = vec![Message::SinkOff, Message::SinkOn, Message::SinkOff];
    assert_eq!(c.send_all(&msgs), CHANNEL_CAPACITY);
    assert_eq!(c.receive_all(), vec![Message::SinkOff]);
}

#[test]
fn handoff_alternates_in_order() {
    let mut c = MessageChannel::new();
    let sent = vec![Message::SinkOn, Message::SinkOff, Message::SinkOff, Message::SinkOn];
    let mut got = Vec::new();
    for m in &sent {
        assert_eq!(c.try_send(*m), Ok(()));
        got.push(c.try_receive().unwrap());
    }
    assert_eq!(got, sent);
}
