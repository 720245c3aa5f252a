use vstd::prelude::*;
use embassy_sync::blocking_mutex::raw::NoopRawMutex;
use embassy_sync::channel::{Channel, TryReceiveError, TrySendError};
use crate::message::Message;

verus! {

/// How many messages the channel holds before a send is refused.
pub const CHANNEL_CAPACITY: usize = 1;

/// An embassy channel of messages. Verus cannot read the channel type, whose
/// lock parameter is bound by a trait of embassy_sync, so it stays hidden here.
#[verifier::external_body]
pub struct MessageQueue {
    inner: Channel<NoopRawMutex, Message, CHANNEL_CAPACITY>,
}

/// The messages that the queue holds, oldest first.
pub uninterp spec fn queued(c: MessageQueue) -> Seq<Message>;

/// Relies on embassy_sync's `Channel::new`: a new channel holds no message.
#[verifier::external_body]
fn channel_new() -> (r: MessageQueue)
    ensures
        queued(r) == Seq::<Message>::empty(),
{
    MessageQueue { inner: Channel::new() }
}

/// Relies on embassy_sync's `Channel::try_send`: the message goes to the back
/// of the queue unless the queue holds `CHANNEL_CAPACITY` messages, in which
/// case it comes back in `TrySendError::Full` and the queue is unchanged.
#[verifier::external_body]
fn channel_try_send(
    c: &mut MessageQueue,
    m: Message,
) -> (r: Result<(), Message>)
    ensures
        queued(*old(c)).len() < CHANNEL_CAPACITY ==> r is Ok && queued(*final(c)) == queued(*old(c)).push(m),
        queued(*old(c)).len() >= CHANNEL_CAPACITY ==> (r is Err && r->Err_0 == m) && queued(*final(c)) == queued(*old(c)),
{
    match c.inner.try_send(m) {
        Ok(()) => Ok(()),
        Err(TrySendError::Full(m)) => Err(m),
    }
}

/// Relies on embassy_sync's `Channel::try_receive`: the oldest message leaves
/// the queue, or `TryReceiveError::Empty` comes back from an empty queue.
#[verifier::external_body]
fn channel_try_receive(c: &mut MessageQueue) -> (r: Option<Message>)
    ensures
        queued(*old(c)).len() > 0 ==> r == Some(queued(*old(c))[0]) && queued(*final(c)) == queued(*old(c)).drop_first(),
        queued(*old(c)).len() == 0 ==> r is None && queued(*final(c)) == queued(*old(c)),
{
    match c.inner.try_receive() {
        Ok(m) => Some(m),
        Err(TryReceiveError::Empty) => None,
    }
}

/// The queue after `m` was offered to it.
pub open spec fn after_send(q: Seq<Message>, m: Message) -> Seq<Message> {
    if q.len() < CHANNEL_CAPACITY {
        q.push(m)
    } else {
        q
    }
}

/// The queue after a receive.
pub open spec fn after_receive(q: Seq<Message>) -> Seq<Message> {
    if q.len() > 0 {
        q.drop_first()
    } else {
        q
    }
}

/// The queue after each of `ms` was offered to it in turn.
pub open spec fn after_sends(q: Seq<Message>, ms: Seq<Message>) -> Seq<Message>
    decreases ms.len(),
{
    if ms.len() == 0 {
        q
    } else {
        after_sends(after_send(q, ms[0]), ms.drop_first())
    }
}

/// The messages that `n` receives in a row take from the queue.
pub open spec fn taken(q: Seq<Message>, n: nat) -> Seq<Message>
    decreases n,
{
    if n == 0 || q.len() == 0 {
        Seq::empty()
    } else {
        seq![q[0]] + taken(after_receive(q), (n - 1) as nat)
    }
}

proof fn lemma_sends_append(q: Seq<Message>, ms: Seq<Message>)
    requires
        q.len() + ms.len() <= CHANNEL_CAPACITY,
    ensures
        after_sends(q, ms) == q + ms,
    decreases ms.len(),
{
    if ms.len() > 0 {
        lemma_sends_append(q.push(ms[0]), ms.drop_first());
        assert(q.push(ms[0]) + ms.drop_first() =~= q + ms);
    }
}

proof fn lemma_taken_all(q: Seq<Message>)
    ensures
        taken(q, q.len()) == q,
    decreases q.len(),
{
    if q.len() > 0 {
        lemma_taken_all(q.drop_first());
        assert(seq![q[0]] + q.drop_first() =~= q);
    }
}

/// First in, first out: on an empty channel, as many receives as there were
/// accepted sends give back the messages in the order they were sent.
pub proof fn lemma_fifo_order(ms: Seq<Message>)
    requires
        ms.len() <= CHANNEL_CAPACITY,
    ensures
        after_sends(Seq::empty(), ms) == ms,
        taken(after_sends(Seq::empty(), ms), ms.len()) == ms,
{
    lemma_sends_append(Seq::empty(), ms);
    assert(Seq::<Message>::empty() + ms =~= ms);
    lemma_taken_all(ms);
}

/// Backpressure: a full channel refuses a send and keeps its messages; once a
/// receive has taken the oldest one, the same send is accepted.
pub proof fn lemma_full_channel_refuses(q: Seq<Message>, m: Message)
    requires
        q.len() == CHANNEL_CAPACITY,
    ensures
        after_send(q, m) == q,
        after_send(after_receive(q), m) == q.drop_first().push(m),
{
}

/// A bounded FIFO of messages between the two cores. Sharing it between
/// cores is left to a lock around it; each call here runs with the channel
/// held exclusively.
pub struct MessageChannel {
    inner: MessageQueue,
}

impl View for MessageChannel {
    type V = Seq<Message>;

    closed spec fn view(&self) -> Seq<Message> {
        queued(self.inner)
    }
}

impl MessageChannel {
    /// The queue never holds more than the capacity.
    pub open spec fn wf(&self) -> bool {
        self@.len() <= CHANNEL_CAPACITY
    }

    pub fn new() -> (r: MessageChannel)
        ensures
            r.wf(),
            r@ == Seq::<Message>::empty(),
    {
        MessageChannel { inner: channel_new() }
    }

    /// Queues `m` at the back when there is room; gives it back otherwise,
    /// which is where a sender has to wait.
    pub fn try_send(&mut self, m: Message) -> (r: Result<(), Message>)
        requires
            old(self).wf(),
        ensures
            final(self).wf(),
            final(self)@ == after_send(old(self)@, m),
            r is Ok <==> old(self)@.len() < CHANNEL_CAPACITY,
            r is Err ==> r->Err_0 == m,
    {
        channel_try_send(&mut self.inner, m)
    }

    /// Takes the oldest message, or `None` when none is queued, which is
    /// where a receiver has to wait.
    pub fn try_receive(&mut self) -> (r: Option<Message>)
        requires
            old(self).wf(),
        ensures
            final(self).wf(),
            final(self)@ == after_receive(old(self)@),
            old(self)@.len() > 0 ==> r == Some(old(self)@[0]),
            old(self)@.len() == 0 ==> r is None,
    {
        channel_try_receive(&mut self.inner)
    }

    /// Sends the messages in order until one is refused; returns how many
    /// were queued.
    pub fn send_all(&mut self, msgs: &Vec<Message>) -> (k: usize)
        requires
            old(self).wf(),
        ensures
            final(self).wf(),
            k as int == vstd::math::min(msgs@.len() as int, CHANNEL_CAPACITY - old(self)@.len()),
            final(self)@ == old(self)@ + msgs@.subrange(0, k as int),
    {
        let mut k: usize = 0;
        while k < msgs.len()
            invariant
                self.wf(),
                k <= msgs@.len(),
                k <= CHANNEL_CAPACITY - old(self)@.len(),
                self@ == old(self)@ + msgs@.subrange(0, k as int),
            ensures
                self.wf(),
                k as int == vstd::math::min(msgs@.len() as int, CHANNEL_CAPACITY - old(self)@.len()),
                self@ == old(self)@ + msgs@.subrange(0, k as int),
            decreases msgs@.len() - k,
        {
            let r = self.try_send(msgs[k]);
            if r.is_err() {
                break;
            }
            assert(msgs@.subrange(0, k + 1) =~= msgs@.subrange(0, k as int).push(msgs@[k as int]));
            k += 1;
        }
        k
    }

    /// Receives until the channel is empty; returns the messages in the order
    /// they were sent.
    pub fn receive_all(&mut self) -> (r: Vec<Message>)
        requires
            old(self).wf(),
        ensures
            final(self).wf(),
            r@ == old(self)@,
            final(self)@ == Seq::<Message>::empty(),
    {
        let mut out: Vec<Message> = Vec::new();
        loop
            invariant
                self.wf(),
                out@ + self@ == old(self)@,
            ensures
                self.wf(),
                out@ == old(self)@,
                self@ == Seq::<Message>::empty(),
            decreases self@.len(),
        {
            let ghost before = self@;
            match self.try_receive() {
                Some(m) => {
                    out.push(m);
                    assert(out@ + self@ =~= old(self)@) by {
                        assert(before =~= seq![m] + before.drop_first());
                    }
                },
                None => {
                    assert(out@ =~= old(self)@);
                    break;
                },
            }
        }
        out
    }
}

} // verus!
