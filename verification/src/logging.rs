//! Structured logging: the core emits events to a named registry; a name
//! without a registered sink discards its events.

use vstd::prelude::*;

verus! {

/// A structured event emitted by the worker.
pub enum LogEvent {
    /// The worker is about to park, for at most the given milliseconds
    /// (`None`: indefinitely).
    Park(Option<u64>),
    /// The worker returned from parking.
    Unpark,
    /// An operator's `schedule` call is starting, by dataflow identifier.
    ScheduleStart(usize),
    /// An operator's `schedule` call has returned, by dataflow identifier.
    ScheduleStop(usize),
    /// A dataflow was constructed: its identifier and address path.
    Operates(usize, Vec<usize>),
    /// A dataflow was torn down, by identifier.
    Shutdown(usize),
}

/// A registry of named logging sinks. Events logged under a registered name
/// are kept, in order; events under any other name are discarded.
pub struct Registry {
    /// The names that have a sink.
    pub sinks: Vec<String>,
    /// Every event kept, oldest first.
    pub events: Vec<LogEvent>,
}

impl Registry {
    /// Whether a sink is registered under `name`.
    pub open spec fn spec_has_sink(&self, name: Seq<char>) -> bool {
        exists|i: int| 0 <= i < self.sinks@.len() && (#[trigger] self.sinks@[i])@ == name
    }

    /// A registry with no sinks and no events.
    pub fn new() -> (r: Registry)
        ensures
            r.sinks@.len() == 0,
            r.events@.len() == 0,
    {
        Registry { sinks: Vec::new(), events: Vec::new() }
    }

    /// Register a sink under `name`.
    pub fn insert(&mut self, name: String)
        ensures
            final(self).sinks@ =~= old(self).sinks@.push(name),
            final(self).events@ == old(self).events@,
            final(self).spec_has_sink(name@),
    {
        self.sinks.push(name);
        proof {
            assert(self.sinks@[self.sinks@.len() - 1]@ == name@);
        }
    }

    /// Whether a sink is registered under `name`.
    pub fn get(&self, name: &String) -> (r: bool)
        ensures
            r == self.spec_has_sink(name@),
    {
        let mut i: usize = 0;
        while i < self.sinks.len()
            invariant
                i <= self.sinks@.len(),
                forall|j: int| 0 <= j < i ==> (#[trigger] self.sinks@[j])@ != name@,
            decreases self.sinks@.len() - i,
        {
            if self.sinks[i].eq(name) {
                proof {
                    assert(self.sinks@[i as int]@ == name@);
                }
                return true;
            }
            i = i + 1;
        }
        false
    }

    /// Log one event under `name`: kept exactly when a sink is registered.
    pub fn log(&mut self, name: &String, event: LogEvent)
        ensures
            final(self).sinks@ == old(self).sinks@,
            old(self).spec_has_sink(name@) ==> final(self).events@ == old(self).events@.push(
                event,
            ),
            !old(self).spec_has_sink(name@) ==> final(self).events@ == old(self).events@,
    {
        if self.get(name) {
            self.events.push(event);
        }
    }

    /// Number of events kept.
    pub fn len(&self) -> (n: usize)
        ensures
            n == self.events@.len(),
    {
        self.events.len()
    }

    /// Flush buffered events to their sinks. The model keeps events in
    /// memory, so there is nothing to move; the call marks batch boundaries.
    pub fn flush(&mut self)
        ensures
            *final(self) == *old(self),
    {
    }
}

} // verus!
