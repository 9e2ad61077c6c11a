//! Settings of the change-event subscription that drives invalidation.
use vstd::prelude::*;

verus! {

broadcast use vstd::string::group_string_axioms;

/// The broker addresses and the topic that change events are read from.
pub struct CausalConsumer {
    pub brokers: String,
    pub topic: String,
}

impl CausalConsumer {
    pub fn new(brokers: &str, topic: &str) -> (r: Self)
        ensures
            r.brokers@ == brokers@,
            r.topic@ == topic@,
    {
        Self { brokers: brokers.to_string(), topic: topic.to_string() }
    }
}

} // verus!
