use vstd::prelude::*;
use crate::message::Message;

verus! {

/// How long the producer pauses after each on/off pair, in milliseconds.
pub const PRODUCER_PAUSE_MS: u64 = 100;

/// Where the producer stands in its endless on, off, pause cycle.
#[derive(Clone, Copy, Debug, PartialEq, Eq, Structural)]
pub enum ProducerPhase {
    SendOn,
    SendOff,
    Pause,
}

/// What the producer asks its runner to do next.
#[derive(Clone, Copy, Debug, PartialEq, Eq, Structural)]
pub enum ProducerAction {
    /// Send this message; the runner waits while the channel is full.
    Send(Message),
    /// Sleep this many milliseconds.
    Sleep(u64),
}

/// What came of the last action.
#[derive(Clone, Copy, Debug, PartialEq, Eq, Structural)]
pub enum ProducerEvent {
    /// The message was queued, or the sleep ended.
    Done,
    /// The channel was full; the message was not queued.
    Refused,
}

/// The level of the consumer's digital output.
#[derive(Clone, Copy, Debug, PartialEq, Eq, Structural)]
pub enum SinkLevel {
    High,
    Low,
}

pub open spec fn phase_action(p: ProducerPhase) -> ProducerAction {
    match p {
        ProducerPhase::SendOn => ProducerAction::Send(Message::SinkOn),
        ProducerPhase::SendOff => ProducerAction::Send(Message::SinkOff),
        ProducerPhase::Pause => ProducerAction::Sleep(PRODUCER_PAUSE_MS),
    }
}

pub open spec fn phase_after(p: ProducerPhase, e: ProducerEvent) -> ProducerPhase {
    match e {
        ProducerEvent::Refused => p,
        ProducerEvent::Done => match p {
            ProducerPhase::SendOn => ProducerPhase::SendOff,
            ProducerPhase::SendOff => ProducerPhase::Pause,
            ProducerPhase::Pause => ProducerPhase::SendOn,
        },
    }
}

pub open spec fn level_for(m: Message) -> SinkLevel {
    match m {
        Message::SinkOn => SinkLevel::High,
        Message::SinkOff => SinkLevel::Low,
    }
}

pub open spec fn is_odd(x: u64) -> bool {
    x % 2 == 1
}

impl ProducerPhase {
    /// The producer starts by switching the sink on.
    pub fn start() -> (r: ProducerPhase)
        ensures
            r == ProducerPhase::SendOn,
    {
        ProducerPhase::SendOn
    }

    /// The action that this phase asks for.
    pub fn action(self) -> (r: ProducerAction)
        ensures
            r == phase_action(self),
    {
        match self {
            ProducerPhase::SendOn => ProducerAction::Send(Message::SinkOn),
            ProducerPhase::SendOff => ProducerAction::Send(Message::SinkOff),
            ProducerPhase::Pause => ProducerAction::Sleep(PRODUCER_PAUSE_MS),
        }
    }

    /// The phase after the runner reports on this phase's action: a refused
    /// send is tried again, anything done moves the cycle on.
    pub fn step(self, e: ProducerEvent) -> (r: ProducerPhase)
        ensures
            r == phase_after(self, e),
    {
        match e {
            ProducerEvent::Refused => self,
            ProducerEvent::Done => match self {
                ProducerPhase::SendOn => ProducerPhase::SendOff,
                ProducerPhase::SendOff => ProducerPhase::Pause,
                ProducerPhase::Pause => ProducerPhase::SendOn,
            },
        }
    }
}

/// The consumer drives its sink high on `SinkOn` and low on `SinkOff`.
pub fn sink_level_for(m: Message) -> (r: SinkLevel)
    ensures
        r == level_for(m),
{
    match m {
        Message::SinkOn => SinkLevel::High,
        Message::SinkOff => SinkLevel::Low,
    }
}

/// `count` consecutive integers from `start`.
pub fn counting_values(start: u64, count: u64) -> (r: Vec<u64>)
    requires
        start + count <= u64::MAX,
    ensures
        r@.len() == count,
        forall|i: int| 0 <= i < count ==> #[trigger] r@[i] == start + i,
{
    let mut r: Vec<u64> = Vec::new();
    let mut i: u64 = 0;
    while i < count
        invariant
            i <= count,
            start + count <= u64::MAX,
            r@.len() == i,
            forall|j: int| 0 <= j < i ==> #[trigger] r@[j] == start + j,
        decreases count - i,
    {
        r.push(start + i);
        i += 1;
    }
    r
}

/// The odd values of `v`, in their order: the consumer's transient copy.
pub fn odd_values(v: &Vec<u64>) -> (r: Vec<u64>)
    ensures
        r@ == v@.filter(|x: u64| is_odd(x)),
{
    let mut r: Vec<u64> = Vec::new();
    let mut i: usize = 0;
    while i < v.len()
        invariant
            i <= v@.len(),
            r@ == v@.subrange(0, i as int).filter(|x: u64| is_odd(x)),
        decreases v@.len() - i,
    {
        proof {
            assert(v@.subrange(0, i + 1).drop_last() =~= v@.subrange(0, i as int));
            reveal(Seq::filter);
        }
        if v[i] % 2 == 1 {
            r.push(v[i]);
        }
        i += 1;
    }
    assert(v@.subrange(0, v@.len() as int) =~= v@);
    r
}

} // verus!
