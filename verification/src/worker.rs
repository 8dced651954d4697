//! The root of each single-threaded worker: it owns the channel allocator,
//! the `channel_id → address path` map, the activation tracker, the dataflow
//! registry and the progress broadcaster handles, and drives operator
//! activation from channel events.

use vstd::prelude::*;
use std::collections::HashMap;
use crate::Event;
use crate::activations::Activations;
use crate::activations::{dv, non_extensions};
use crate::allocator::{Allocate, OnNewPushFn, Pusher, Puller, pushed_events};
use crate::bytes_exchange::routed;
use crate::frame::FrameView;
use crate::logging::{LogEvent, Registry};
use crate::progress::{ProgcasterClient, ProgcasterServer, ProgcasterState, stash_apply,
    stash_views};

verus! {

broadcast use vstd::std_specs::hash::group_hash_axioms;

/// A schedulable operator: one `schedule` call runs it to completion of a
/// step and reports whether it remains incomplete. Implemented by operator
/// code outside the core; nothing is assumed of it.
pub trait Schedule {
    /// Run the operator once; `true` means it has more work to do.
    fn schedule(&mut self) -> bool;

    /// The address path of the operator in the nested scope tree.
    fn path(&self) -> Vec<usize>;

    /// A descriptive name, cosmetic only.
    fn name(&self) -> String;

    /// Summarize internal structure; called once after construction.
    fn get_internal_summary(&mut self);

    /// Accept the external summary; called once after `get_internal_summary`.
    fn set_external_summary(&mut self);

    /// The progress broadcaster handles of every nested scope this operator
    /// carries: the joiner-side handles, then the donor-side handles.
    fn get_progcasters_handles(&mut self) -> (Vec<ProgcasterClient>, Vec<ProgcasterServer>);
}

/// One dataflow under management: its operator, its opaque user resources,
/// and the channels it owns.
pub struct Wrapper<O> {
    /// Worker-unique identifier, used in log events.
    pub identifier: usize,
    /// The operator tree, dropped first on teardown.
    pub operate: Option<O>,
    /// Opaque user resources, dropped after the operator.
    pub resources: Option<Vec<u8>>,
    /// The channels this dataflow allocated.
    pub channel_ids: Vec<usize>,
}

impl<O: Schedule> Wrapper<O> {
    /// Step the dataflow; report whether it remains incomplete. A completed
    /// dataflow drops its operator first and its resources second, so that
    /// resources may outlive the operator.
    pub fn step(&mut self) -> (incomplete: bool)
        ensures
            final(self).identifier == old(self).identifier,
            final(self).channel_ids@ == old(self).channel_ids@,
            !incomplete ==> final(self).operate is None && final(self).resources is None,
            incomplete ==> final(self).operate is Some && final(self).resources == old(self).resources,
            old(self).operate is None ==> !incomplete,
    {
        let incomplete = match &mut self.operate {
            Some(op) => op.schedule(),
            None => false,
        };
        if !incomplete {
            self.operate = None;
            self.resources = None;
        }
        incomplete
    }
}

/// Milliseconds read from the system clock.
///
/// Relies on std::time::SystemTime::now and duration_since: the value depends
/// on the clock, so nothing is promised of it.
#[verifier::external_body]
fn now_millis() -> u64 {
    match std::time::SystemTime::now().duration_since(std::time::UNIX_EPOCH) {
        Ok(d) => d.as_millis() as u64,
        Err(_) => 0,
    }
}

/// Copy one address path.
fn copy_usizes(p: &Vec<usize>) -> (r: Vec<usize>)
    ensures
        r@ =~= p@,
{
    let mut r: Vec<usize> = Vec::new();
    let mut i: usize = 0;
    while i < p.len()
        invariant
            i <= p@.len(),
            r@ =~= p@.subrange(0, i as int),
        decreases p@.len() - i,
    {
        r.push(p[i]);
        i = i + 1;
        proof {
            assert(p@.subrange(0, i as int) =~= p@.subrange(0, i as int - 1).push(
                p@[i as int - 1],
            ));
        }
    }
    proof {
        assert(p@.subrange(0, p@.len() as int) =~= p@);
    }
    r
}

/// Methods provided by the root worker, often proxied by child scopes.
pub trait AsWorker: Sized {
    /// The implementor's internal invariant.
    spec fn aw_wf(&self) -> bool;

    /// Index of the worker among its peers.
    fn index(&self) -> usize
        requires
            self.aw_wf(),
    ;

    /// Number of peer workers.
    fn peers(&self) -> (r: usize)
        requires
            self.aw_wf(),
        ensures
            r >= 1,
    ;

    /// Allocate a new channel from a supplied identifier and the address
    /// path of the operator to schedule when records arrive on it.
    fn allocate<F: OnNewPushFn>(
        &mut self,
        identifier: usize,
        address: &Vec<usize>,
        on_new: &mut F,
    ) -> (r: Puller)
        requires
            old(self).aw_wf(),
            address@.len() > 0,
        ensures
            final(self).aw_wf(),
            final(on_new).accepted().len() >= old(on_new).accepted().len(),
            r.channel == identifier,
    ;

    /// Construct a pipeline channel from the worker to itself.
    fn pipeline(&mut self, identifier: usize, address: &Vec<usize>) -> (r: (Pusher, Puller))
        requires
            old(self).aw_wf(),
            address@.len() > 0,
        ensures
            final(self).aw_wf(),
            r.1.channel == identifier,
    ;

    /// Allocate a new worker-unique identifier.
    fn new_identifier(&mut self) -> (r: usize)
        requires
            old(self).aw_wf(),
        ensures
            final(self).aw_wf(),
    ;
}

/// One sequence range of progress updates a joiner is missing: the donor is
/// asked for sender `sender`'s updates in `[lo, hi)` for scope `scope_id`.
#[derive(Clone, Copy, PartialEq, Eq, Structural, Debug)]
pub struct UpdatesRange {
    /// The scope whose broadcaster the range belongs to.
    pub scope_id: usize,
    /// The sender whose updates are missing.
    pub sender: usize,
    /// First missing sequence number.
    pub lo: usize,
    /// First sequence number already observed live.
    pub hi: usize,
}

/// Why a joiner's bootstrap failed.
#[derive(Clone, Copy, PartialEq, Eq, Structural, Debug)]
pub enum BootstrapError {
    /// A sender stayed quiescent past the deadline, so the lower bound of its
    /// replay range could not be learned.
    SenderUncovered,
    /// The donor's reply did not match the protocol.
    ProtocolMismatch,
}

/// The joiner's view of the bootstrap socket: state snapshots come in, range
/// requests go out, range responses come back. Implemented outside the core
/// (in tests by an in-memory donor, in a deployment by the socket client);
/// nothing is assumed of it.
pub trait BootstrapEndpoint {
    /// Receive the initial `scope_id → state` snapshots.
    fn recv_progcaster_states(&mut self) -> Vec<(usize, ProgcasterState)>;

    /// Send one missing-range request to the donor.
    fn send_range_request(&mut self, req: &UpdatesRange);

    /// Receive the raw update buffers answering the last request.
    fn recv_range_response(&mut self) -> Vec<Vec<u8>>;
}

/// The address paths activated by a run of drained channel events, in
/// order: one per event whose channel has a path-map entry; events for
/// unmapped channels are discarded.
pub open spec fn activated_paths(evs: Seq<(usize, Event)>, paths: Map<usize, Vec<usize>>) -> Seq<
    Seq<usize>,
>
    decreases evs.len(),
{
    if evs.len() == 0 {
        Seq::<Seq<usize>>::empty()
    } else {
        let rest = activated_paths(evs.skip(1), paths);
        if paths.contains_key(evs[0].0) {
            seq![paths[evs[0].0]@] + rest
        } else {
            rest
        }
    }
}

/// No message in this stash names `s` as sender, so the lower bound of
/// `s`'s replay range cannot be learned from it.
pub open spec fn sender_uncovered(stash: Seq<crate::progress::StashedMsg>, s: int) -> bool {
    forall|k: int| 0 <= k < stash.len() ==> (#[trigger] stash[k])@.sender != s
}

/// A `Worker` is the entry point to a dataflow computation: it wraps an
/// `Allocate` and manages a list of dataflows.
pub struct Worker<A: Allocate, O: Schedule> {
    /// Milliseconds on the system clock when the worker was created.
    pub timer_ms: u64,
    /// The address path registered for each allocated channel.
    pub paths: HashMap<usize, Vec<usize>>,
    /// The channel allocator.
    pub allocator: A,
    /// Worker-unique identifier counter.
    pub identifiers: usize,
    /// The dataflows under management, by dataflow index.
    pub dataflows: HashMap<usize, Wrapper<O>>,
    /// Dataflow index counter.
    pub dataflow_counter: usize,
    /// Named logging sinks and the events they kept.
    pub logging: Registry,
    /// Runnable operators by address path.
    pub activations: Activations,
    /// Donor-side progress broadcaster handles, one per scope.
    pub progcaster_server_handles: Vec<ProgcasterServer>,
    /// Joiner-side progress broadcaster handles, one per scope.
    pub progcaster_client_handles: Vec<ProgcasterClient>,
    /// Channels allocated since the last dataflow was completed, to be owned
    /// by the next dataflow.
    pub temp_channel_ids: Vec<usize>,
    /// The peer growth observed by the last `step_or_park`, for the caller
    /// that must spawn a bootstrap server on the elected donor.
    pub last_rescale: Option<(usize, usize)>,
    /// Ghost record of the last bootstrap: per broadcaster handle, the
    /// observable state after the snapshot was installed and the missing
    /// ranges replayed, just before the stashed messages were applied — so
    /// the final state is exactly the stash filtered onto it, last.
    pub bootstrap_mids: Ghost<Seq<Seq<Seq<Seq<u8>>>>>,
    /// Ghost log of every operator scheduling: the dataflow index and
    /// whether its `schedule` reported it still incomplete, in order. A
    /// `false` entry is a completion, and completions are exactly the
    /// dataflow removals.
    pub step_log: Ghost<Seq<(usize, bool)>>,
}

impl<A: Allocate, O: Schedule> Worker<A, O> {
    /// The worker's invariant: a well-formed allocator, and every dataflow
    /// index below the counter.
    pub open spec fn wf(&self) -> bool {
        &&& self.allocator.wf()
        &&& forall|d: usize| #[trigger] self.dataflows@.contains_key(d) ==> d < self.dataflow_counter
    }

    /// A new worker bound to a channel allocator.
    pub fn new(c: A) -> (w: Worker<A, O>)
        requires
            c.wf(),
        ensures
            w.wf(),
            w.allocator == c,
            w.paths@ =~= Map::<usize, Vec<usize>>::empty(),
            w.dataflows@ =~= Map::<usize, Wrapper<O>>::empty(),
            w.identifiers == 0,
            w.dataflow_counter == 0,
            w.temp_channel_ids@.len() == 0,
            w.progcaster_server_handles@.len() == 0,
            w.progcaster_client_handles@.len() == 0,
            w.last_rescale is None,
            w.step_log@.len() == 0,
    {
        Worker {
            timer_ms: now_millis(),
            paths: HashMap::new(),
            allocator: c,
            identifiers: 0,
            dataflows: HashMap::new(),
            dataflow_counter: 0,
            logging: Registry::new(),
            activations: Activations::new(),
            progcaster_server_handles: Vec::new(),
            progcaster_client_handles: Vec::new(),
            temp_channel_ids: Vec::new(),
            last_rescale: None,
            bootstrap_mids: Ghost(Seq::empty()),
            step_log: Ghost(Seq::empty()),
        }
    }

    /// The index of the worker out of its peers.
    pub fn index(&self) -> (r: usize)
        requires
            self.wf(),
        ensures
            r == self.allocator.spec_index(),
    {
        self.allocator.index()
    }

    /// The total number of peer workers.
    pub fn peers(&self) -> (r: usize)
        requires
            self.wf(),
        ensures
            r == self.allocator.spec_peers(),
            r >= 1,
    {
        self.allocator.peers()
    }

    /// Milliseconds on the system clock when the computation was initiated.
    pub fn timer(&self) -> (r: u64)
        ensures
            r == self.timer_ms,
    {
        self.timer_ms
    }

    /// Allocate a new worker-unique identifier. The counter saturates at the
    /// machine limit rather than wrap.
    pub fn new_identifier(&mut self) -> (r: usize)
        ensures
            r == old(self).identifiers,
            final(self).identifiers == if old(self).identifiers < usize::MAX {
                old(self).identifiers + 1
            } else {
                old(self).identifiers as int
            },
            *final(self) == (Worker { identifiers: final(self).identifiers, ..*old(self) }),
    {
        let r = self.identifiers;
        if self.identifiers < usize::MAX {
            self.identifiers = self.identifiers + 1;
        }
        r
    }

    /// Read access to the named logging sinks.
    pub fn log_register(&self) -> (r: &Registry)
        ensures
            r == &self.logging,
    {
        &self.logging
    }

    /// Register a logging sink under a name; later events logged under that
    /// name are kept.
    pub fn register_logger(&mut self, name: String)
        ensures
            final(self).logging.sinks@ =~= old(self).logging.sinks@.push(name),
            final(self).logging.events@ == old(self).logging.events@,
            *final(self) == (Worker { logging: final(self).logging, ..*old(self) }),
    {
        self.logging.insert(name);
    }

    /// Allocate a new channel under `identifier`, registering `address` as
    /// the operator path activated when records arrive on it.
    pub fn allocate<F: OnNewPushFn>(
        &mut self,
        identifier: usize,
        address: &Vec<usize>,
        on_new: &mut F,
    ) -> (r: Puller)
        requires
            old(self).wf(),
            address@.len() > 0,
        ensures
            final(self).wf(),
            final(self).paths@.contains_key(identifier),
            final(self).paths@[identifier]@ == address@,
            forall|k: usize|
                k != identifier ==> #[trigger] final(self).paths@.contains_key(k) == old(self).paths@.contains_key(k),
            forall|k: usize|
                k != identifier && old(self).paths@.contains_key(k) ==> final(self).paths@[k]
                    == old(self).paths@[k],
            final(self).temp_channel_ids@ =~= old(self).temp_channel_ids@.push(identifier),
            final(self).allocator.spec_has_channel(identifier),
            final(self).allocator.spec_index() == old(self).allocator.spec_index(),
            final(self).allocator.spec_peers() == old(self).allocator.spec_peers(),
            forall|s: int|
                0 <= s < old(self).allocator.spec_peers() ==> (#[trigger] final(self).allocator.spec_sent(identifier, s)) == Seq::<Seq<u8>>::empty() && final(self).allocator.spec_received(identifier, s) == Seq::<Seq<u8>>::empty(),
            forall|id: usize, s: int|
                id != identifier && old(self).allocator.spec_has_channel(id) && 0 <= s < old(self).allocator.spec_peers() ==> #[trigger] final(self).allocator.spec_sent(id, s)
                    == old(self).allocator.spec_sent(id, s),
            forall|id: usize, s: int|
                id != identifier && old(self).allocator.spec_has_channel(id) && 0 <= s < old(self).allocator.spec_peers() ==> #[trigger] final(self).allocator.spec_received(id, s)
                    == old(self).allocator.spec_received(id, s),
            final(self).allocator.spec_staged() == old(self).allocator.spec_staged(),
            final(self).dataflows == old(self).dataflows,
            final(self).dataflow_counter == old(self).dataflow_counter,
            final(on_new).accepted() =~= old(on_new).accepted() + Seq::new(
                old(self).allocator.spec_peers() as nat,
                |t: int| Pusher { channel: identifier, target: t as usize },
            ),
            r.channel == identifier,
    {
        let path = copy_usizes(address);
        proof {
            assert(path@ == address@);
        }
        self.paths.insert(identifier, path);
        self.temp_channel_ids.push(identifier);
        let r = self.allocator.allocate(identifier, on_new);
        r
    }

    /// Construct a pipeline channel from the worker to itself, registered
    /// under `address` like any other channel.
    pub fn pipeline(&mut self, identifier: usize, address: &Vec<usize>) -> (r: (Pusher, Puller))
        requires
            old(self).wf(),
            address@.len() > 0,
        ensures
            final(self).wf(),
            final(self).paths@.contains_key(identifier),
            final(self).paths@[identifier]@ == address@,
            forall|k: usize|
                k != identifier ==> #[trigger] final(self).paths@.contains_key(k) == old(self).paths@.contains_key(k),
            forall|k: usize|
                k != identifier && old(self).paths@.contains_key(k) ==> final(self).paths@[k]
                    == old(self).paths@[k],
            final(self).temp_channel_ids@ =~= old(self).temp_channel_ids@.push(identifier),
            final(self).allocator.spec_has_channel(identifier),
            forall|s: int|
                0 <= s < old(self).allocator.spec_peers() ==> (#[trigger] final(self).allocator.spec_sent(identifier, s)) == Seq::<Seq<u8>>::empty() && final(self).allocator.spec_received(identifier, s) == Seq::<Seq<u8>>::empty(),
            final(self).allocator.spec_staged() == old(self).allocator.spec_staged(),
            final(self).dataflows == old(self).dataflows,
            final(self).dataflow_counter == old(self).dataflow_counter,
            r.0.channel == identifier,
            r.0.target == old(self).allocator.spec_index(),
            r.1.channel == identifier,
    {
        let path = copy_usizes(address);
        proof {
            assert(path@ == address@);
        }
        self.paths.insert(identifier, path);
        self.temp_channel_ids.push(identifier);
        let r = self.allocator.pipeline(identifier);
        r
    }

    /// Acquire a new distinct dataflow index. Saturates at the machine limit.
    pub fn allocate_dataflow_index(&mut self) -> (r: usize)
        ensures
            r == old(self).dataflow_counter,
            final(self).dataflow_counter == if old(self).dataflow_counter < usize::MAX {
                old(self).dataflow_counter + 1
            } else {
                old(self).dataflow_counter as int
            },
            *final(self) == (Worker {
                dataflow_counter: final(self).dataflow_counter,
                ..*old(self)
            }),
    {
        let r = self.dataflow_counter;
        if self.dataflow_counter < usize::MAX {
            self.dataflow_counter = self.dataflow_counter + 1;
        }
        r
    }

    /// Construct a new dataflow from an operator, with default resources.
    pub fn dataflow(&mut self, operator: O) -> (index: usize)
        requires
            old(self).wf(),
            old(self).dataflow_counter < usize::MAX,
        ensures
            final(self).wf(),
            index == old(self).dataflow_counter,
            final(self).dataflow_counter == old(self).dataflow_counter + 1,
            final(self).dataflows@.contains_key(index),
            forall|d: usize|
                d != index ==> #[trigger] final(self).dataflows@.contains_key(d) == old(self).dataflows@.contains_key(d),
            final(self).dataflows@[index].channel_ids@ == old(self).temp_channel_ids@,
            final(self).temp_channel_ids@.len() == 0,
            final(self).paths == old(self).paths,
            final(self).allocator == old(self).allocator,
    {
        self.dataflow_core(operator, Vec::new())
    }

    /// Construct a new dataflow from an operator and additional resources,
    /// kept alive for as long as the dataflow is alive. The channels
    /// allocated since the last construction become the dataflow's; its
    /// progress broadcaster handles are retained for rescaling.
    #[verifier::loop_isolation(false)]
    pub fn dataflow_core(&mut self, operator: O, resources: Vec<u8>) -> (index: usize)
        requires
            old(self).wf(),
            old(self).dataflow_counter < usize::MAX,
        ensures
            final(self).wf(),
            index == old(self).dataflow_counter,
            final(self).dataflow_counter == old(self).dataflow_counter + 1,
            final(self).dataflows@.contains_key(index),
            forall|d: usize|
                d != index ==> #[trigger] final(self).dataflows@.contains_key(d) == old(self).dataflows@.contains_key(d),
            final(self).dataflows@[index].channel_ids@ == old(self).temp_channel_ids@,
            final(self).temp_channel_ids@.len() == 0,
            final(self).paths == old(self).paths,
            final(self).allocator == old(self).allocator,
            old(self).progcaster_client_handles@.is_prefix_of(
                final(self).progcaster_client_handles@,
            ),
            old(self).progcaster_server_handles@.is_prefix_of(
                final(self).progcaster_server_handles@,
            ),
    {
        let index = self.allocate_dataflow_index();
        let identifier = self.new_identifier();
        let mut operator = operator;
        let (mut clients, mut servers) = operator.get_progcasters_handles();
        loop
            invariant
                self.wf(),
                self.dataflow_counter == old(self).dataflow_counter + 1,
                old(self).progcaster_client_handles@.is_prefix_of(
                    self.progcaster_client_handles@,
                ),
                *self == (Worker {
                    identifiers: self.identifiers,
                    dataflow_counter: self.dataflow_counter,
                    progcaster_client_handles: self.progcaster_client_handles,
                    ..*old(self)
                }),
            decreases clients@.len(),
        {
            if clients.len() == 0 {
                break ;
            }
            let c = clients.remove(0);
            self.progcaster_client_handles.push(c);
        }
        loop
            invariant
                self.wf(),
                self.dataflow_counter == old(self).dataflow_counter + 1,
                old(self).progcaster_client_handles@.is_prefix_of(
                    self.progcaster_client_handles@,
                ),
                old(self).progcaster_server_handles@.is_prefix_of(
                    self.progcaster_server_handles@,
                ),
                *self == (Worker {
                    identifiers: self.identifiers,
                    dataflow_counter: self.dataflow_counter,
                    progcaster_client_handles: self.progcaster_client_handles,
                    progcaster_server_handles: self.progcaster_server_handles,
                    ..*old(self)
                }),
            decreases servers@.len(),
        {
            if servers.len() == 0 {
                break ;
            }
            let srv = servers.remove(0);
            self.progcaster_server_handles.push(srv);
        }
        let addr = operator.path();
        self.logging.log(&("runtime".to_owned()), LogEvent::Operates(identifier, addr));
        // The registration handshake: the operator summarizes itself, then
        // accepts the summary of its surroundings.
        operator.get_internal_summary();
        operator.set_external_summary();
        let mut channel_ids: Vec<usize> = Vec::new();
        std::mem::swap(&mut channel_ids, &mut self.temp_channel_ids);
        let wrapper = Wrapper {
            identifier,
            operate: Some(operator),
            resources: Some(resources),
            channel_ids,
        };
        self.dataflows.insert(index, wrapper);
        proof {
            assert(self.dataflows@ =~= old(self).dataflows@.insert(
                index,
                self.dataflows@[index],
            ));
            assert forall|d: usize| #[trigger] self.dataflows@.contains_key(d) implies d
                < self.dataflow_counter by {
                if d != index {
                    assert(old(self).dataflows@.contains_key(d));
                }
            }
        }
        index
    }

    /// Performs one step of the computation: each runnable dataflow operator
    /// gets a chance to run. Equivalent to `step_or_park` with a zero
    /// timeout: the thread is never parked.
    pub fn step(&mut self) -> (r: bool)
        requires
            old(self).wf(),
        ensures
            final(self).wf(),
            final(self).allocator.spec_index() == old(self).allocator.spec_index(),
            final(self).allocator.spec_peers() >= old(self).allocator.spec_peers(),
            final(self).allocator.spec_events() =~= Seq::<(usize, Event)>::empty(),
            forall|d: usize|
                #[trigger] final(self).dataflows@.contains_key(d) ==> old(self).dataflows@.contains_key(d),
            forall|k: usize|
                #[trigger] final(self).paths@.contains_key(k) ==> old(self).paths@.contains_key(k),
            forall|d: usize, j: int|
                old(self).dataflows@.contains_key(d) && !final(self).dataflows@.contains_key(d)
                    && 0 <= j < old(self).dataflows@[d].channel_ids@.len() ==> !final(self).paths@.contains_key(#[trigger] old(self).dataflows@[d].channel_ids@[j]),
            r == (final(self).dataflows@.len() > 0),
            forall|id: usize|
                #[trigger] final(self).allocator.spec_has_channel(id) == old(self).allocator.spec_has_channel(id),
            forall|id: usize, c: int|
                old(self).allocator.spec_has_channel(id) && 0 <= c < old(self).allocator.spec_peers() ==> #[trigger] final(self).allocator.spec_received(id, c)
                    == old(self).allocator.spec_received(id, c),
            forall|id: usize, c: int|
                old(self).allocator.spec_has_channel(id) && 0 <= c < old(self).allocator.spec_peers() ==> old(self).allocator.spec_sent(id, c).is_prefix_of(
                    #[trigger] final(self).allocator.spec_sent(id, c),
                ),
            final(self).allocator.spec_staged() =~= Seq::<FrameView>::empty(),
            forall|id: usize, c: int|
                old(self).allocator.spec_has_channel(id) && 0 <= c < old(self).allocator.spec_peers() ==> #[trigger] final(self).allocator.spec_sent(id, c)
                    =~= old(self).allocator.spec_sent(id, c) + routed(
                    old(self).allocator.spec_staged(),
                    id as u64,
                    c as u64,
                ),
            forall|id: usize, c: int|
                old(self).allocator.spec_has_channel(id) && old(self).allocator.spec_peers() <= c
                    < final(self).allocator.spec_peers() ==> #[trigger] final(self).allocator.spec_received(id, c) == Seq::<Seq<u8>>::empty(),
            old(self).step_log@.is_prefix_of(final(self).step_log@),
            forall|k: int|
                old(self).step_log@.len() <= k < final(self).step_log@.len() ==> old(self).dataflows@.contains_key((#[trigger] final(self).step_log@[k]).0) && (!final(self).step_log@[k].1 ==> !final(self).dataflows@.contains_key(
                    final(self).step_log@[k].0,
                )),
            forall|d: usize|
                old(self).dataflows@.contains_key(d) && !final(self).dataflows@.contains_key(d)
                    ==> exists|k: int|
                    old(self).step_log@.len() <= k < final(self).step_log@.len() && (
                    #[trigger] final(self).step_log@[k]) == (d, false),
            ({
                let drained = old(self).allocator.spec_events() + pushed_events(
                    old(self).allocator.spec_staged(),
                    Set::new(|id: usize| old(self).allocator.spec_has_channel(id)),
                    final(self).allocator.spec_peers(),
                );
                let all_acts = dv(old(self).activations.current@) + dv(
                    old(self).activations.pending@,
                ) + activated_paths(drained, old(self).paths@);
                dv(final(self).activations.current@) =~= non_extensions(
                    all_acts,
                    Seq::<usize>::empty(),
                )
            }),
            match final(self).last_rescale {
                Some((o, n)) => o == old(self).allocator.spec_peers() && n == final(self).allocator.spec_peers() && o < n,
                None => final(self).allocator.spec_peers() == old(self).allocator.spec_peers(),
            },
    {
        self.step_or_park(Some(0))
    }

    /// Performs one step of the computation, parking the thread for at most
    /// `duration_ms` milliseconds (`None`: indefinitely) when no activation
    /// is pending. Per step: admit pending peers and back-fill channels,
    /// surface received messages, drain channel events into activations,
    /// then either park or schedule the active dataflows — a completed
    /// dataflow is dropped and its channels leave the path map. Returns
    /// whether any dataflow remains.
    #[verifier::loop_isolation(false)]
    pub fn step_or_park(&mut self, duration_ms: Option<u64>) -> (r: bool)
        requires
            old(self).wf(),
        ensures
            final(self).wf(),
            final(self).allocator.spec_index() == old(self).allocator.spec_index(),
            final(self).allocator.spec_peers() >= old(self).allocator.spec_peers(),
            final(self).allocator.spec_events() =~= Seq::<(usize, Event)>::empty(),
            forall|d: usize|
                #[trigger] final(self).dataflows@.contains_key(d) ==> old(self).dataflows@.contains_key(d),
            forall|k: usize|
                #[trigger] final(self).paths@.contains_key(k) ==> old(self).paths@.contains_key(k),
            forall|d: usize, j: int|
                old(self).dataflows@.contains_key(d) && !final(self).dataflows@.contains_key(d)
                    && 0 <= j < old(self).dataflows@[d].channel_ids@.len() ==> !final(self).paths@.contains_key(#[trigger] old(self).dataflows@[d].channel_ids@[j]),
            forall|d: usize|
                final(self).dataflows@.contains_key(d) ==> (
                #[trigger] final(self).dataflows@[d]).channel_ids@ == old(self).dataflows@[d].channel_ids@ && final(self).dataflows@[d].identifier == old(self).dataflows@[d].identifier,
            final(self).activations.pending@.len() == 0,
            ({
                let drained = old(self).allocator.spec_events() + pushed_events(
                    old(self).allocator.spec_staged(),
                    Set::new(|id: usize| old(self).allocator.spec_has_channel(id)),
                    final(self).allocator.spec_peers(),
                );
                let all_acts = dv(old(self).activations.current@) + dv(
                    old(self).activations.pending@,
                ) + activated_paths(drained, old(self).paths@);
                &&& (all_acts.len() == 0 && old(self).dataflows@.len() > 0 && duration_ms != Some(
                    0u64,
                ) ==> dv(final(self).activations.current@) =~= Seq::<Seq<usize>>::empty() && final(self).dataflows == old(self).dataflows && final(self).paths == old(self).paths)
                &&& (!(all_acts.len() == 0 && old(self).dataflows@.len() > 0 && duration_ms
                    != Some(0u64)) ==> dv(final(self).activations.current@) =~= non_extensions(
                    all_acts,
                    Seq::<usize>::empty(),
                ))
            }),
            old(self).step_log@.is_prefix_of(final(self).step_log@),
            forall|k: int|
                old(self).step_log@.len() <= k < final(self).step_log@.len() ==> old(self).dataflows@.contains_key((#[trigger] final(self).step_log@[k]).0) && (!final(self).step_log@[k].1 ==> !final(self).dataflows@.contains_key(
                    final(self).step_log@[k].0,
                )),
            forall|d: usize|
                old(self).dataflows@.contains_key(d) && !final(self).dataflows@.contains_key(d)
                    ==> exists|k: int|
                    old(self).step_log@.len() <= k < final(self).step_log@.len() && (
                    #[trigger] final(self).step_log@[k]) == (d, false),
            r == (final(self).dataflows@.len() > 0),
            match final(self).last_rescale {
                Some((o, n)) => o == old(self).allocator.spec_peers() && n == final(self).allocator.spec_peers() && o < n,
                None => final(self).allocator.spec_peers() == old(self).allocator.spec_peers(),
            },
            forall|id: usize|
                #[trigger] final(self).allocator.spec_has_channel(id) == old(self).allocator.spec_has_channel(id),
            forall|id: usize, c: int|
                old(self).allocator.spec_has_channel(id) && 0 <= c < old(self).allocator.spec_peers() ==> #[trigger] final(self).allocator.spec_received(id, c)
                    == old(self).allocator.spec_received(id, c),
            forall|id: usize, c: int|
                old(self).allocator.spec_has_channel(id) && 0 <= c < old(self).allocator.spec_peers() ==> old(self).allocator.spec_sent(id, c).is_prefix_of(
                    #[trigger] final(self).allocator.spec_sent(id, c),
                ),
            final(self).allocator.spec_staged() =~= Seq::<FrameView>::empty(),
            forall|id: usize, c: int|
                old(self).allocator.spec_has_channel(id) && 0 <= c < old(self).allocator.spec_peers() ==> #[trigger] final(self).allocator.spec_sent(id, c)
                    =~= old(self).allocator.spec_sent(id, c) + routed(
                    old(self).allocator.spec_staged(),
                    id as u64,
                    c as u64,
                ),
            forall|id: usize, c: int|
                old(self).allocator.spec_has_channel(id) && old(self).allocator.spec_peers() <= c
                    < final(self).allocator.spec_peers() ==> #[trigger] final(self).allocator.spec_sent(id, c) =~= routed(
                    old(self).allocator.spec_staged(),
                    id as u64,
                    c as u64,
                ),
            forall|id: usize, c: int|
                old(self).allocator.spec_has_channel(id) && old(self).allocator.spec_peers() <= c
                    < final(self).allocator.spec_peers() ==> #[trigger] final(self).allocator.spec_received(id, c) == Seq::<Seq<u8>>::empty(),
    {
        let runtime = "runtime".to_owned();
        // Admit any newly connected peers and back-fill existing channels;
        // the caller spawns the bootstrap server when this reports growth.
        let rescaled = self.allocator.rescale();
        self.last_rescale = rescaled;
        let ghost a1 = self.allocator;
        // Surface received messages in each channel.
        self.allocator.receive();
        let ghost a2 = self.allocator;
        // Drain channel events; activate the operator registered at each
        // channel's address path.
        let evs = self.allocator.events();
        let ghost amid = self.allocator;
        proof {
            // What was drained is exactly the events pending at entry plus
            // one notification per staged frame the receive routed.
            let st = Set::new(|id: usize| old(self).allocator.spec_has_channel(id));
            let st1 = Set::new(|id: usize| a1.spec_has_channel(id));
            assert(st =~= st1);
            assert(pushed_events(a1.spec_staged(), st1, a1.spec_peers()) == pushed_events(
                old(self).allocator.spec_staged(),
                st,
                amid.spec_peers(),
            ));
            assert(evs@ =~= old(self).allocator.spec_events() + pushed_events(
                old(self).allocator.spec_staged(),
                st,
                amid.spec_peers(),
            ));
        }
        let ghost drained = evs@;
        proof {
            assert(drained.skip(0) =~= drained);
        }
        let mut e: usize = 0;
        while e < evs.len()
            invariant
                self.wf(),
                self.allocator == amid,
                self.last_rescale == rescaled,
                self.step_log == old(self).step_log,
                self.allocator.spec_index() == old(self).allocator.spec_index(),
                self.allocator.spec_peers() >= old(self).allocator.spec_peers(),
                self.allocator.spec_events() =~= Seq::<(usize, Event)>::empty(),
                self.paths == old(self).paths,
                self.dataflows == old(self).dataflows,
                self.dataflow_counter == old(self).dataflow_counter,
                self.activations.current@ == old(self).activations.current@,
                e <= evs@.len(),
                dv(self.activations.pending@) + activated_paths(
                    drained.skip(e as int),
                    old(self).paths@,
                ) =~= dv(old(self).activations.pending@) + activated_paths(
                    drained,
                    old(self).paths@,
                ),
            decreases evs@.len() - e,
        {
            let ghost pend0 = dv(self.activations.pending@);
            let channel = evs[e].0;
            let copied = match self.paths.get(&channel) {
                Some(p) => Some(copy_usizes(p)),
                None => None,
            };
            proof {
                assert(drained.skip(e as int)[0] == drained[e as int]);
                assert(drained.skip(e as int).skip(1) =~= drained.skip(e as int + 1));
            }
            match copied {
                Some(path) => {
                    let ghost pview = path@;
                    self.activations.activate(path);
                    proof {
                        assert(old(self).paths@.contains_key(channel));
                        assert(pview == old(self).paths@[channel]@);
                        assert(activated_paths(drained.skip(e as int), old(self).paths@) == seq![
                            pview,
                        ] + activated_paths(drained.skip(e as int + 1), old(self).paths@));
                        assert(pend0.push(pview) + activated_paths(
                            drained.skip(e as int + 1),
                            old(self).paths@,
                        ) =~= pend0 + (seq![pview] + activated_paths(
                            drained.skip(e as int + 1),
                            old(self).paths@,
                        )));
                    }
                },
                None => {
                    proof {
                        assert(!old(self).paths@.contains_key(channel));
                        assert(activated_paths(drained.skip(e as int), old(self).paths@)
                            == activated_paths(drained.skip(e as int + 1), old(self).paths@));
                    }
                },
            }
            e = e + 1;
        }
        let ghost all_acts = dv(old(self).activations.current@) + dv(
            old(self).activations.pending@,
        ) + activated_paths(drained, old(self).paths@);
        proof {
            assert(drained.skip(drained.len() as int).len() == 0);
            assert(activated_paths(drained.skip(drained.len() as int), old(self).paths@)
                == Seq::<Seq<usize>>::empty());
            assert(dv(self.activations.pending@) + Seq::<Seq<usize>>::empty() =~= dv(
                self.activations.pending@,
            ));
            assert(dv(self.activations.pending@) =~= dv(old(self).activations.pending@)
                + activated_paths(drained, old(self).paths@));
        }
        let ghost pend_full = dv(self.activations.pending@);
        let ghost cur_before = dv(self.activations.current@);
        // Rotate delayed activations into the current epoch.
        self.activations.advance();
        proof {
            assert(dv(self.activations.current@) =~= cur_before + pend_full);
            assert(cur_before == dv(old(self).activations.current@));
            assert(dv(old(self).activations.current@) + (dv(old(self).activations.pending@)
                + activated_paths(drained, old(self).paths@)) =~= all_acts);
            assert(dv(self.activations.current@) =~= all_acts);
        }
        let no_activations = self.activations.is_empty();
        proof {
            assert(dv(self.activations.current@).len() == self.activations.current@.len());
            assert(no_activations == (all_acts.len() == 0));
        }
        let have_dataflows = self.dataflows.len() > 0;
        let zero_timeout = match duration_ms {
            Some(d) => d == 0,
            None => false,
        };
        let ghost parked = no_activations && have_dataflows && !zero_timeout;
        if no_activations && have_dataflows && !zero_timeout {
            // Nothing runnable: park until events arrive or the timeout ends.
            self.logging.log(&runtime, LogEvent::Park(duration_ms));
            self.allocator.await_events(duration_ms);
            self.logging.log(&runtime, LogEvent::Unpark);
        } else {
            // Schedule the dataflows activated at the top level.
            let empty_prefix: Vec<usize> = Vec::new();
            let active = self.activations.for_extensions(&empty_prefix);
            proof {
                assert(empty_prefix@ =~= Seq::<usize>::empty());
                assert(dv(self.activations.current@) =~= non_extensions(
                    all_acts,
                    Seq::<usize>::empty(),
                ));
            }
            let ghost acts1 = self.activations;
            let mut i: usize = 0;
            while i < active.len()
                invariant
                    self.wf(),
                    self.allocator == amid,
                    self.last_rescale == rescaled,
                    self.allocator.spec_index() == old(self).allocator.spec_index(),
                    self.allocator.spec_peers() >= old(self).allocator.spec_peers(),
                    self.allocator.spec_events() =~= Seq::<(usize, Event)>::empty(),
                    self.dataflow_counter == old(self).dataflow_counter,
                    forall|d: usize|
                        #[trigger] self.dataflows@.contains_key(d) ==> old(self).dataflows@.contains_key(d),
                    forall|d: usize|
                        self.dataflows@.contains_key(d) ==> (
                        #[trigger] self.dataflows@[d]).channel_ids@ == old(self).dataflows@[d].channel_ids@ && self.dataflows@[d].identifier == old(self).dataflows@[d].identifier,
                    self.activations == acts1,
                    self.activations.pending@.len() == 0,
                    old(self).step_log@.is_prefix_of(self.step_log@),
                    forall|k: int|
                        old(self).step_log@.len() <= k < self.step_log@.len() ==> old(self).dataflows@.contains_key((#[trigger] self.step_log@[k]).0) && (!self.step_log@[k].1 ==> !self.dataflows@.contains_key(self.step_log@[k].0)),
                    forall|d: usize|
                        old(self).dataflows@.contains_key(d) && !self.dataflows@.contains_key(d)
                            ==> exists|k: int|
                            old(self).step_log@.len() <= k < self.step_log@.len() && (
                            #[trigger] self.step_log@[k]) == (d, false),
                    forall|k: usize|
                        #[trigger] self.paths@.contains_key(k) ==> old(self).paths@.contains_key(
                            k,
                        ),
                    forall|d: usize, j: int|
                        old(self).dataflows@.contains_key(d) && !self.dataflows@.contains_key(d)
                            && 0 <= j < old(self).dataflows@[d].channel_ids@.len() ==> !self.paths@.contains_key(
                            #[trigger] old(self).dataflows@[d].channel_ids@[j],
                        ),
                decreases active@.len() - i,
            {
                let d = active[i];
                if self.dataflows.contains_key(&d) {
                    let ghost prev = *self;
                    let mut w = self.dataflows.remove(&d).unwrap();
                    self.logging.log(&runtime, LogEvent::ScheduleStart(w.identifier));
                    let incomplete = w.step();
                    proof {
                        self.step_log = Ghost(self.step_log@.push((d, incomplete)));
                        assert(prev.step_log@.is_prefix_of(self.step_log@));
                    }
                    self.logging.log(&runtime, LogEvent::ScheduleStop(w.identifier));
                    if incomplete {
                        let ghost wv = w;
                        self.dataflows.insert(d, w);
                        proof {
                            assert(self.dataflows@ =~= prev.dataflows@.insert(d, wv));
                            assert forall|x: usize|
                                #[trigger] self.dataflows@.contains_key(x)
                                    == prev.dataflows@.contains_key(x) by {}
                            assert forall|x: usize|
                                self.dataflows@.contains_key(x) implies (
                            #[trigger] self.dataflows@[x]).channel_ids@ == old(self).dataflows@[x].channel_ids@ by {
                                if x != d {
                                    assert(self.dataflows@[x] == prev.dataflows@[x]);
                                }
                            }
                            assert forall|k: int|
                                old(self).step_log@.len() <= k < self.step_log@.len() implies old(self).dataflows@.contains_key((#[trigger] self.step_log@[k]).0) && (!self.step_log@[k].1 ==> !self.dataflows@.contains_key(self.step_log@[k].0)) by {
                                if k < self.step_log@.len() - 1 {
                                    assert(self.step_log@[k] == prev.step_log@[k]);
                                    if !self.step_log@[k].1 {
                                        assert(!prev.dataflows@.contains_key(
                                            prev.step_log@[k].0,
                                        ));
                                        assert(prev.step_log@[k].0 != d);
                                    }
                                } else {
                                    assert(self.step_log@[k] == (d, incomplete));
                                }
                            }
                        }
                    } else {
                        // Tear the dataflow down: unregister its channels so
                        // the identifiers can be allocated again.
                        self.logging.log(&runtime, LogEvent::Shutdown(w.identifier));
                        let n = w.channel_ids.len();
                        let mut j: usize = 0;
                        while j < n
                            invariant
                                j <= n,
                                n == w.channel_ids@.len(),
                                w.channel_ids@ == prev.dataflows@[d].channel_ids@,
                                *self == (Worker {
                                    paths: self.paths,
                                    logging: self.logging,
                                    dataflows: self.dataflows,
                                    step_log: self.step_log,
                                    ..prev
                                }),
                                self.step_log@ == prev.step_log@.push((d, false)),
                                self.dataflows@ == prev.dataflows@.remove(d),
                                forall|k: usize|
                                    #[trigger] self.paths@.contains_key(k)
                                        ==> prev.paths@.contains_key(k),
                                forall|l: int|
                                    0 <= l < j ==> !self.paths@.contains_key(
                                        #[trigger] w.channel_ids@[l],
                                    ),
                            decreases n - j,
                        {
                            let id = w.channel_ids[j];
                            self.paths.remove(&id);
                            j = j + 1;
                            proof {
                                assert forall|l: int|
                                    0 <= l < j implies !self.paths@.contains_key(
                                    #[trigger] w.channel_ids@[l],
                                ) by {}
                            }
                        }
                        proof {
                            assert forall|x: usize, l: int|
                                old(self).dataflows@.contains_key(x)
                                    && !self.dataflows@.contains_key(x) && 0 <= l < old(self).dataflows@[x].channel_ids@.len() implies !self.paths@.contains_key(
                                #[trigger] old(self).dataflows@[x].channel_ids@[l],
                            ) by {
                                if x == d {
                                    assert(prev.dataflows@[d].channel_ids@ == old(self).dataflows@[d].channel_ids@);
                                    assert(!self.paths@.contains_key(w.channel_ids@[l]));
                                } else {
                                    assert(prev.dataflows@.contains_key(x)
                                        == self.dataflows@.contains_key(x));
                                }
                            }
                            assert forall|k: int|
                                old(self).step_log@.len() <= k < self.step_log@.len() implies old(self).dataflows@.contains_key((#[trigger] self.step_log@[k]).0) && (!self.step_log@[k].1 ==> !self.dataflows@.contains_key(self.step_log@[k].0)) by {
                                if k < self.step_log@.len() - 1 {
                                    assert(self.step_log@[k] == prev.step_log@[k]);
                                    if !self.step_log@[k].1 {
                                        assert(!prev.dataflows@.contains_key(
                                            prev.step_log@[k].0,
                                        ));
                                    }
                                } else {
                                    assert(self.step_log@[k] == (d, false));
                                    assert(!self.dataflows@.contains_key(d));
                                }
                            }
                            assert forall|x: usize|
                                old(self).dataflows@.contains_key(x)
                                    && !self.dataflows@.contains_key(x) implies exists|k: int|
                                old(self).step_log@.len() <= k < self.step_log@.len() && (
                                #[trigger] self.step_log@[k]) == (x, false) by {
                                if x == d {
                                    assert(self.step_log@[self.step_log@.len() - 1] == (
                                    d,
                                    false,
                                ));
                                } else {
                                    assert(!prev.dataflows@.contains_key(x));
                                    let k0 = choose|k0: int|
                                        old(self).step_log@.len() <= k0 < prev.step_log@.len()
                                            && (#[trigger] prev.step_log@[k0]) == (x, false);
                                    assert(self.step_log@[k0] == (x, false));
                                }
                            }
                        }
                    }
                }
                i = i + 1;
            }
        }
        // End of batch: let the fabric reclaim scarce resources.
        self.logging.flush();
        self.allocator.release();
        proof {
            assert(self.allocator == amid);
            let st = Set::new(|id: usize| old(self).allocator.spec_has_channel(id));
            let drained_spec = old(self).allocator.spec_events() + pushed_events(
                old(self).allocator.spec_staged(),
                st,
                self.allocator.spec_peers(),
            );
            assert(drained =~= drained_spec);
            let all_spec = dv(old(self).activations.current@) + dv(
                old(self).activations.pending@,
            ) + activated_paths(drained_spec, old(self).paths@);
            assert(all_acts =~= all_spec);
            if parked {
                assert(all_acts.len() == 0);
                assert(dv(self.activations.current@) =~= Seq::<Seq<usize>>::empty());
            } else {
                assert(dv(self.activations.current@) =~= non_extensions(
                    all_spec,
                    Seq::<usize>::empty(),
                ));
            }
            assert forall|id: usize, c: int|
                old(self).allocator.spec_has_channel(id) && 0 <= c < old(self).allocator.spec_peers() implies old(self).allocator.spec_sent(id, c).is_prefix_of(
                #[trigger] self.allocator.spec_sent(id, c),
            ) by {
                assert(a1.spec_sent(id, c) == old(self).allocator.spec_sent(id, c));
                assert(a1.spec_has_channel(id));
                assert(a1.spec_sent(id, c).is_prefix_of(a2.spec_sent(id, c)));
                assert(amid.spec_sent(id, c) == a2.spec_sent(id, c));
            }
            assert forall|id: usize, c: int|
                old(self).allocator.spec_has_channel(id) && 0 <= c < old(self).allocator.spec_peers() implies #[trigger] self.allocator.spec_received(id, c)
                == old(self).allocator.spec_received(id, c) by {
                assert(a1.spec_received(id, c) == old(self).allocator.spec_received(id, c));
                assert(a1.spec_has_channel(id));
                assert(a2.spec_received(id, c) == a1.spec_received(id, c));
                assert(amid.spec_received(id, c) == a2.spec_received(id, c));
            }
            assert(a1.spec_staged() == old(self).allocator.spec_staged());
            assert(a2.spec_staged() =~= Seq::<FrameView>::empty());
            assert(self.allocator.spec_staged() =~= Seq::<FrameView>::empty());
            assert forall|id: usize, c: int|
                old(self).allocator.spec_has_channel(id) && 0 <= c < old(self).allocator.spec_peers() implies #[trigger] self.allocator.spec_sent(id, c)
                =~= old(self).allocator.spec_sent(id, c) + routed(
                old(self).allocator.spec_staged(),
                id as u64,
                c as u64,
            ) by {
                assert(a1.spec_sent(id, c) == old(self).allocator.spec_sent(id, c));
                assert(a1.spec_has_channel(id));
                assert(a2.spec_sent(id, c) =~= a1.spec_sent(id, c) + routed(
                    a1.spec_staged(),
                    id as u64,
                    c as u64,
                ));
                assert(amid.spec_sent(id, c) == a2.spec_sent(id, c));
            }
            assert forall|id: usize, c: int|
                old(self).allocator.spec_has_channel(id) && old(self).allocator.spec_peers() <= c
                    < self.allocator.spec_peers() implies #[trigger] self.allocator.spec_sent(
                id,
                c,
            ) =~= routed(old(self).allocator.spec_staged(), id as u64, c as u64) by {
                assert(a1.spec_has_channel(id));
                assert(c < a1.spec_peers());
                assert(a1.spec_sent(id, c) == Seq::<Seq<u8>>::empty());
                assert(a2.spec_sent(id, c) =~= a1.spec_sent(id, c) + routed(
                    a1.spec_staged(),
                    id as u64,
                    c as u64,
                ));
                assert(Seq::<Seq<u8>>::empty() + routed(a1.spec_staged(), id as u64, c as u64)
                    =~= routed(a1.spec_staged(), id as u64, c as u64));
                assert(amid.spec_sent(id, c) == a2.spec_sent(id, c));
            }
            assert forall|id: usize, c: int|
                old(self).allocator.spec_has_channel(id) && old(self).allocator.spec_peers() <= c
                    < self.allocator.spec_peers() implies #[trigger] self.allocator.spec_received(
                id,
                c,
            ) == Seq::<Seq<u8>>::empty() by {
                assert(a1.spec_has_channel(id));
                assert(c < a1.spec_peers());
                assert(a1.spec_received(id, c) == Seq::<Seq<u8>>::empty());
                assert(a2.spec_received(id, c) == a1.spec_received(id, c));
                assert(amid.spec_received(id, c) == a2.spec_received(id, c));
            }
        }
        self.dataflows.len() > 0
    }

    /// Calls `step` as long as `pred` evaluates to true, up to `max_steps`
    /// steps: the call returns `true` exactly when `pred` became false within
    /// the bound, so it terminates exactly when `pred` goes false in finitely
    /// many (at most `max_steps`) steps.
    pub fn step_while<F: Fn() -> bool>(&mut self, pred: F, max_steps: usize) -> (stopped: bool)
        requires
            old(self).wf(),
            call_requires(pred, ()),
        ensures
            final(self).wf(),
            stopped ==> call_ensures(pred, (), false),
            !stopped ==> call_ensures(pred, (), true),
    {
        let mut steps: usize = 0;
        loop
            invariant
                self.wf(),
                steps <= max_steps,
                call_requires(pred, ()),
            decreases max_steps - steps,
        {
            let go = pred();
            if !go {
                return true;
            }
            self.step();
            if steps == max_steps {
                return false;
            }
            steps = steps + 1;
        }
    }

    /// Bootstrap the joiner's progress-tracking state from the elected donor:
    /// install the received state snapshots, replay the missing sequence
    /// ranges per sender, and apply the messages stashed while bootstrap was
    /// in flight. A sender whose live messages stay unobserved for
    /// `max_rounds` polling rounds is surfaced as `SenderUncovered` — the
    /// deadline policy for the sender-coverage hazard.
    #[verifier::loop_isolation(false)]
    pub fn bootstrap<E: BootstrapEndpoint>(&mut self, endpoint: &mut E, max_rounds: usize) -> (r:
        Result<(), BootstrapError>)
        requires
            old(self).wf(),
            max_rounds >= 1,
        ensures
            final(self).wf(),
            final(self).dataflows == old(self).dataflows,
            final(self).paths == old(self).paths,
            r is Ok ==> forall|c: int|
                0 <= c < final(self).progcaster_client_handles@.len() ==> (#[trigger] final(self).progcaster_client_handles@[c]).stashed@.len() == 0,
            r is Ok ==> final(self).bootstrap_mids@.len() == final(self).progcaster_client_handles@.len(),
            r is Ok ==> forall|c: int|
                0 <= c < final(self).progcaster_client_handles@.len() ==> (#[trigger] final(self).progcaster_client_handles@[c]).obs() == stash_apply(
                    final(self).bootstrap_mids@[c],
                    stash_views(old(self).progcaster_client_handles@[c].stashed@),
                ),
            final(self).progcaster_client_handles@.len() == old(self).progcaster_client_handles@.len(),
            r is Err ==> exists|c: int, s: int|
                0 <= c < old(self).progcaster_client_handles@.len() && 0 <= s < final(self).progcaster_client_handles@[c].obs().len() && #[trigger] sender_uncovered(
                    old(self).progcaster_client_handles@[c].stashed@,
                    s,
                ),
    {
        proof {
            self.bootstrap_mids = Ghost(Seq::empty());
        }
        let mut states = endpoint.recv_progcaster_states();
        // Install each received snapshot on the client handle of its scope.
        loop
            invariant
                self.wf(),
                self.progcaster_client_handles@.len() == old(self).progcaster_client_handles@.len(),
                self.bootstrap_mids@.len() == 0,
                forall|c: int|
                    0 <= c < self.progcaster_client_handles@.len() ==> (
                    #[trigger] self.progcaster_client_handles@[c]).stashed@ == old(self).progcaster_client_handles@[c].stashed@,
                *self == (Worker {
                    progcaster_client_handles: self.progcaster_client_handles,
                    bootstrap_mids: self.bootstrap_mids,
                    ..*old(self)
                }),
            decreases states@.len(),
        {
            let next = match states.pop() {
                Some(p) => p,
                None => {
                    break ;
                },
            };
            let (scope, state) = next;
            let mut ci: usize = 0;
            let mut target: Option<usize> = None;
            while ci < self.progcaster_client_handles.len()
                invariant
                    ci <= self.progcaster_client_handles@.len(),
                    target matches Some(t) ==> (t as int) < self.progcaster_client_handles@.len(),
                decreases self.progcaster_client_handles@.len() - ci,
            {
                if self.progcaster_client_handles[ci].scope_id == scope {
                    target = Some(ci);
                }
                ci = ci + 1;
            }
            match target {
                Some(t) => {
                    let ghost before = self.progcaster_client_handles@;
                    let c = &mut self.progcaster_client_handles[t];
                    c.set_progcaster_state(state);
                    proof {
                        assert forall|x: int|
                            0 <= x < self.progcaster_client_handles@.len() implies (
                        #[trigger] self.progcaster_client_handles@[x]).stashed@
                            == before[x].stashed@ by {
                            if x != t {
                                assert(self.progcaster_client_handles@[x] == before[x]);
                            }
                        }
                    }
                },
                None => {},
            }
        }
        // Per scope, learn each sender's replay range from its first live
        // message, request it from the donor, and apply the answer.
        let n_clients = self.progcaster_client_handles.len();
        let mut ci: usize = 0;
        while ci < n_clients
            invariant
                self.wf(),
                n_clients == self.progcaster_client_handles@.len(),
                ci <= n_clients,
                self.bootstrap_mids@.len() == ci,
                *self == (Worker {
                    allocator: self.allocator,
                    progcaster_client_handles: self.progcaster_client_handles,
                    bootstrap_mids: self.bootstrap_mids,
                    ..*old(self)
                }),
                self.allocator.spec_index() == old(self).allocator.spec_index(),
                forall|c: int|
                    0 <= c < ci ==> (
                    #[trigger] self.progcaster_client_handles@[c]).stashed@.len() == 0,
                forall|c: int|
                    0 <= c < ci ==> (#[trigger] self.progcaster_client_handles@[c]).obs()
                        == stash_apply(
                        self.bootstrap_mids@[c],
                        stash_views(old(self).progcaster_client_handles@[c].stashed@),
                    ),
                forall|c: int|
                    ci <= c < n_clients ==> (
                    #[trigger] self.progcaster_client_handles@[c]).stashed@ == old(self).progcaster_client_handles@[c].stashed@,
            decreases n_clients - ci,
        {
            let scope = self.progcaster_client_handles[ci].scope_id;
            let senders = self.progcaster_client_handles[ci].get_worker_indices();
            let mut si: usize = 0;
            while si < senders.len()
                invariant
                    self.wf(),
                    n_clients == self.progcaster_client_handles@.len(),
                    ci < n_clients,
                    self.bootstrap_mids@.len() == ci,
                    *self == (Worker {
                        allocator: self.allocator,
                        progcaster_client_handles: self.progcaster_client_handles,
                        bootstrap_mids: self.bootstrap_mids,
                        ..*old(self)
                    }),
                    self.allocator.spec_index() == old(self).allocator.spec_index(),
                    forall|c: int|
                        0 <= c < ci ==> (
                        #[trigger] self.progcaster_client_handles@[c]).stashed@.len() == 0,
                    forall|c: int|
                        0 <= c < ci ==> (#[trigger] self.progcaster_client_handles@[c]).obs()
                            == stash_apply(
                            self.bootstrap_mids@[c],
                            stash_views(old(self).progcaster_client_handles@[c].stashed@),
                        ),
                    forall|c: int|
                        ci <= c < n_clients ==> (
                        #[trigger] self.progcaster_client_handles@[c]).stashed@ == old(self).progcaster_client_handles@[c].stashed@,
                decreases senders@.len() - si,
            {
                let sender = senders[si];
                let mut rounds: usize = 0;
                loop
                    invariant
                        self.wf(),
                        rounds < max_rounds,
                        n_clients == self.progcaster_client_handles@.len(),
                        ci < n_clients,
                        self.bootstrap_mids@.len() == ci,
                        *self == (Worker {
                            allocator: self.allocator,
                            progcaster_client_handles: self.progcaster_client_handles,
                            bootstrap_mids: self.bootstrap_mids,
                            ..*old(self)
                        }),
                        self.allocator.spec_index() == old(self).allocator.spec_index(),
                        forall|c: int|
                            0 <= c < ci ==> (
                            #[trigger] self.progcaster_client_handles@[c]).stashed@.len() == 0,
                        forall|c: int|
                            0 <= c < ci ==> (#[trigger] self.progcaster_client_handles@[c]).obs()
                                == stash_apply(
                                self.bootstrap_mids@[c],
                                stash_views(old(self).progcaster_client_handles@[c].stashed@),
                            ),
                        forall|c: int|
                            ci <= c < n_clients ==> (
                            #[trigger] self.progcaster_client_handles@[c]).stashed@ == old(self).progcaster_client_handles@[c].stashed@,
                    decreases max_rounds - rounds,
                {
                    if sender >= self.progcaster_client_handles[ci].get_worker_indices().len() {
                        break ;
                    }
                    let first = self.progcaster_client_handles[ci].first_stashed_seqno(sender);
                    match first {
                        Some(q) => {
                            let lo = self.progcaster_client_handles[ci].next_expected(sender);
                            if q > lo {
                                let req = UpdatesRange { scope_id: scope, sender, lo, hi: q };
                                endpoint.send_range_request(&req);
                                let resp = endpoint.recv_range_response();
                                let ghost before = self.progcaster_client_handles@;
                                let c = &mut self.progcaster_client_handles[ci];
                                c.apply_updates_range(sender, lo, resp);
                                proof {
                                    assert forall|x: int|
                                        0 <= x < self.progcaster_client_handles@.len() implies (
                                    #[trigger] self.progcaster_client_handles@[x]).stashed@
                                        == before[x].stashed@ by {
                                        if x != ci {
                                            assert(self.progcaster_client_handles@[x]
                                                == before[x]);
                                        }
                                    }
                                }
                            }
                            break ;
                        },
                        None => {
                            self.allocator.receive();
                            rounds = rounds + 1;
                            if rounds == max_rounds {
                                proof {
                                    let h = self.progcaster_client_handles@[ci as int];
                                    assert(sender_uncovered(h.stashed@, sender as int));
                                    assert(h.stashed@ == old(self).progcaster_client_handles@[ci as int].stashed@);
                                    assert(0 <= ci < self.progcaster_client_handles@.len() && 0
                                        <= sender < h.obs().len() && sender_uncovered(
                                        old(self).progcaster_client_handles@[ci as int].stashed@,
                                        sender as int,
                                    ));
                                }
                                return Err(BootstrapError::SenderUncovered);
                            }
                        },
                    }
                }
                si = si + 1;
            }
            // Apply the stashed live messages, filtered against what the
            // snapshot and the replays already covered; record the installed
            // and replayed state they are applied onto.
            proof {
                self.bootstrap_mids = Ghost(
                    self.bootstrap_mids@.push(self.progcaster_client_handles@[ci as int].obs()),
                );
            }
            let ghost before = self.progcaster_client_handles@;
            let c = &mut self.progcaster_client_handles[ci];
            c.apply_stashed_progress_msgs();
            ci = ci + 1;
            proof {
                assert forall|c: int|
                    0 <= c < ci implies (
                #[trigger] self.progcaster_client_handles@[c]).stashed@.len() == 0 by {
                    if c != ci - 1 {
                        assert(self.progcaster_client_handles@[c] == before[c]);
                    }
                }
                assert forall|c: int|
                    0 <= c < ci implies (#[trigger] self.progcaster_client_handles@[c]).obs()
                    == stash_apply(
                    self.bootstrap_mids@[c],
                    stash_views(old(self).progcaster_client_handles@[c].stashed@),
                ) by {
                    if c == ci - 1 {
                        assert(before[c].stashed@ == old(self).progcaster_client_handles@[c].stashed@);
                        assert(self.bootstrap_mids@[c] == before[c].obs());
                    } else {
                        assert(self.progcaster_client_handles@[c] == before[c]);
                    }
                }
            }
        }
        Ok(())
    }
}

impl<A: Allocate, O: Schedule> AsWorker for Worker<A, O> {
    open spec fn aw_wf(&self) -> bool {
        self.wf()
    }

    fn index(&self) -> usize {
        self.index()
    }

    fn peers(&self) -> usize {
        self.peers()
    }

    fn allocate<F: OnNewPushFn>(
        &mut self,
        identifier: usize,
        address: &Vec<usize>,
        on_new: &mut F,
    ) -> (r: Puller) {
        self.allocate(identifier, address, on_new)
    }

    fn pipeline(&mut self, identifier: usize, address: &Vec<usize>) -> (r: (Pusher, Puller)) {
        self.pipeline(identifier, address)
    }

    fn new_identifier(&mut self) -> (r: usize) {
        self.new_identifier()
    }
}

} // verus!
