//! A split of a Pulsar source: one sub-topic and the offsets it is read between.
use vstd::prelude::*;

verus! {

/// A position in a Pulsar topic; `Absent` when none is given.
#[derive(Debug, Copy, Clone, PartialEq, Eq, Structural)]
pub enum PulsarOffset {
    MessageID(u64),
    Timestamp(u64),
    Absent,
}

#[derive(Debug, Clone)]
pub struct PulsarSplit {
    pub sub_topic: String,
    pub start_offset: PulsarOffset,
    pub stop_offset: PulsarOffset,
}

impl PulsarSplit {
    pub fn new(sub_topic: String, start_offset: PulsarOffset, stop_offset: PulsarOffset) -> (r: Self)
        ensures
            r.sub_topic@ == sub_topic@,
            r.start_offset == start_offset,
            r.stop_offset == stop_offset,
    {
        Self { sub_topic, start_offset, stop_offset }
    }

    /// The split is identified by its sub-topic.
    pub fn id(&self) -> (r: String)
        ensures
            r@ == self.sub_topic@,
    {
        self.sub_topic.clone()
    }
}

} // verus!
