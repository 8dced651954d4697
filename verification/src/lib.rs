//! Per-process runtime of a distributed dataflow engine: channel allocation,
//! worker scheduling, and the rescaling protocol that admits new workers into
//! a running cluster.

use vstd::prelude::*;

pub mod activations;
pub mod allocator;
pub mod bytes_exchange;
pub mod channel;
pub mod config;
pub mod frame;
pub mod logging;
pub mod progress;
pub mod worker;

verus! {

/// A communication channel event.
#[derive(Clone, Copy, PartialEq, Eq, Structural, Debug)]
pub enum Event {
    /// A number of messages pushed into the channel.
    Pushed(usize),
    /// A number of messages pulled from the channel.
    Pulled(usize),
}

impl Event {
    /// The number of messages this event reports.
    pub fn count(&self) -> (n: usize)
        ensures
            n == self.spec_count(),
    {
        match self {
            Event::Pushed(n) => *n,
            Event::Pulled(n) => *n,
        }
    }

    /// The number of messages this event reports.
    pub open spec fn spec_count(&self) -> usize {
        match self {
            Event::Pushed(n) => *n,
            Event::Pulled(n) => *n,
        }
    }
}

} // verus!
