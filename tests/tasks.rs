use multicore_alloc::arena::Arena;
use multicore_alloc::channel::MessageChannel;
use multicore_alloc::message::Message;
use multicore_alloc::tasks::{
    counting_values, odd_values, sink_level_for, ProducerAction, ProducerEvent, ProducerPhase,
    SinkLevel, PRODUCER_PAUSE_MS,
};

#[test]
fn producer_cycles_on_off_pause() {
    let mut p = ProducerPhase::start();
    assert_eq!(p.action(), ProducerAction::Send(Message::SinkOn));
    p = p.step(ProducerEvent::Done);
    assert_eq!(p.action(), ProducerAction::Send(Message::SinkOff));
    p = p.step(ProducerEvent::Done);
    assert_eq!(p.action(), ProducerAction::Sleep(100));
    assert_eq!(PRODUCER_PAUSE_MS, 100);
    p = p.step(ProducerEvent::Done);
    assert_eq!(p, ProducerPhase::SendOn);
}

#[test]
fn refused_send_is_retried() {
    let p = ProducerPhase::SendOff;
    assert_eq!(p.step(ProducerEvent::Refused), ProducerPhase::SendOff);
}

#[test]
fn consumer_maps_messages_to_levels() {
    assert_eq!(sink_level_for(Message::SinkOn), SinkLevel::High);
    assert_eq!(sink_level_for(Message::SinkOff), SinkLevel::Low);
}

#[test]
fn counting_values_from_one_hundred() {
    let v = counting_values(100, 10);
    assert_eq!(v, vec![100, 101, 102, 103, 104, 105, 106, 107, 108, 109]);
    assert_eq!(counting_values(7, 0), Vec::<u64>::new());
}

#[test]
fn odd_values_keep_order() {
    let y = counting_values(1, 9);
    assert_eq!(y.len(), 9);
    assert_eq!(odd_values(&y), vec![1, 3, 5, 7, 9]);
    assert_eq!(odd_values(&vec![4, 2, 8]), Vec::<u64>::new());
    assert_eq!(odd_values(&vec![u64::MAX, 6, 11]), vec![u64::MAX, 11]);
}

#[test]
fn three_on_off_rounds_drive_the_sink_without_leaking() {
    let mut arena = Arena::new();
    assert_eq!(arena.init(0x2000_0000, 1280), Ok(()));
    let mut channel = MessageChannel::new();
    let mut phase = ProducerPhase::start();
    let mut levels = Vec::new();
    let mut pauses = Vec::new();
    let mut rounds = 0;
    while rounds < 3 {
        match phase.action() {
            ProducerAction::Send(m) => {
                let event = match channel.try_send(m) {
                    Ok(()) => ProducerEvent::Done,
                    Err(_) => ProducerEvent::Refused,
                };
                phase = phase.step(event);
                if let Some(got) = channel.try_receive() {
                    levels.push(sink_level_for(got));
                    if got == Message::SinkOn {
                        let before = arena.free();
                        let copy = odd_values(&counting_values(1, 9));
                        let bytes = copy.len() * 8;
                        let p = arena.allocate(bytes, 8).unwrap();
                        assert_eq!(arena.free(), before - 40);
                        arena.deallocate(p, bytes);
                        assert_eq!(arena.free(), before);
                    }
                }
            }
            ProducerAction::Sleep(ms) => {
                pauses.push(ms);
                phase = phase.step(ProducerEvent::Done);
                rounds += 1;
            }
        }
    }
    let (high, low) = (SinkLevel::High, SinkLevel::Low);
    assert_eq!(levels, vec![high, low, high, low, high, low]);
    assert_eq!(pauses, vec![100, 100, 100]);
    assert_eq!(arena.free(), 1280);
}
