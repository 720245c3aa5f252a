use vstd::prelude::*;

verus! {

/// What the producer core tells the consumer core to do with its output sink.
#[derive(Clone, Copy, Debug, PartialEq, Eq, Structural)]
pub enum Message {
    SinkOn,
    SinkOff,
}

} // verus!
