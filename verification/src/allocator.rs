//! Channel allocation: typed push/pull endpoint construction over three
//! transport shapes (in-worker loopback, shared queues between sibling
//! workers, framed bytes between processes), the shared event queue, and the
//! back-fill of every existing channel when a new peer is admitted.

use vstd::prelude::*;
use std::collections::HashMap;
use std::collections::VecDeque;
use crate::Event;
use crate::channel::{ChannelState, views_of};
use crate::bytes_exchange::{MergeQueue, TransportError, decode_frames, frame_views, parse_frames,
    routed};
use crate::frame::{Frame, FrameView, encode_frame, frame_bytes, HEADER_BYTES};

verus! {

broadcast use vstd::std_specs::hash::group_hash_axioms;

/// A send endpoint: one per (channel, destination worker) pair. Payloads are
/// handed to the allocator that minted the endpoint.
#[derive(Clone, Copy, PartialEq, Eq, Structural, Debug)]
pub struct Pusher {
    /// The channel pushed into.
    pub channel: usize,
    /// The worker the payload is for.
    pub target: usize,
}

/// The receive endpoint of a channel; each channel has exactly one.
#[derive(Clone, Copy, PartialEq, Eq, Structural, Debug)]
pub struct Puller {
    /// The channel pulled from.
    pub channel: usize,
}

/// A callback invoked once per known peer when a channel is allocated: the
/// operator stores the minted pushers. `accepted` is the implementor's
/// record of the pushers handed over, in hand-over order, so a caller of
/// `allocate` knows exactly which pushers the callback received.
pub trait OnNewPushFn {
    /// The pushers this callback has accepted, in hand-over order.
    spec fn accepted(&self) -> Seq<Pusher>;

    /// Accept one freshly minted pusher.
    fn on_new_push(&mut self, pusher: Pusher)
        ensures
            final(self).accepted() =~= old(self).accepted().push(pusher),
    ;
}

/// The plainest callback: collect the pushers in mint order.
pub struct PusherList {
    /// The pushers received so far.
    pub pushers: Vec<Pusher>,
}

impl PusherList {
    /// An empty collector.
    pub fn new() -> (r: PusherList)
        ensures
            r.pushers@ =~= Seq::<Pusher>::empty(),
    {
        PusherList { pushers: Vec::new() }
    }
}

impl OnNewPushFn for PusherList {
    open spec fn accepted(&self) -> Seq<Pusher> {
        self.pushers@
    }

    fn on_new_push(&mut self, pusher: Pusher)
        ensures
            final(self).pushers@ == old(self).pushers@.push(pusher),
    {
        self.pushers.push(pusher);
    }
}

/// The allocator's record of one allocated channel: enough to mint more
/// pushers when a peer joins.
#[derive(Clone, Copy, PartialEq, Eq, Structural, Debug)]
pub struct ChannelRecord {
    /// The channel's process-wide identifier.
    pub id: usize,
    /// How many pushers have been minted for it (one per peer).
    pub pushers: usize,
}

/// Which transport shape backs an allocator.
#[derive(Clone, Copy, PartialEq, Eq, Structural, Debug)]
pub enum TransportKind {
    /// A single worker pushing to itself through a shared queue.
    Thread,
    /// Several workers in one address space, wired through shared queues.
    Process,
    /// Workers across processes; remote links carry framed bytes.
    ZeroCopy,
}

/// A payload addressed to a sibling worker in the same process, waiting for
/// the shared-queue fabric to move it.
pub struct OutMessage {
    /// The destination worker's global index.
    pub dest: usize,
    /// The channel the payload belongs to.
    pub channel: usize,
    /// The payload bytes.
    pub payload: Vec<u8>,
}

/// A type capable of allocating channels, shared by the three transport
/// shapes. Contracts speak of the allocator's model: worker identity, the
/// event queue, and which channels exist.
pub trait Allocate: Sized {
    /// The allocator's internal invariant.
    spec fn wf(&self) -> bool;

    /// The index of this worker out of `(0..peers)`.
    spec fn spec_index(&self) -> int;

    /// The number of workers in the communication group.
    spec fn spec_peers(&self) -> int;

    /// The queued `(channel, event)` notifications.
    spec fn spec_events(&self) -> Seq<(usize, Event)>;

    /// Whether a channel with this identifier has been allocated here.
    spec fn spec_has_channel(&self, id: usize) -> bool;

    /// The payloads sender `s` has pushed into channel `id` here.
    spec fn spec_sent(&self, id: usize, s: int) -> Seq<Seq<u8>>;

    /// The payloads the puller of channel `id` has received from sender `s`.
    spec fn spec_received(&self, id: usize, s: int) -> Seq<Seq<u8>>;

    /// The ingress frames parsed but not yet surfaced in channels.
    spec fn spec_staged(&self) -> Seq<FrameView>;

    /// The index of the worker out of `(0..self.peers())`.
    fn index(&self) -> (r: usize)
        requires
            self.wf(),
        ensures
            r == self.spec_index(),
            r < self.spec_peers(),
    ;

    /// The number of workers in the communication group.
    fn peers(&self) -> (r: usize)
        requires
            self.wf(),
        ensures
            r == self.spec_peers(),
            r >= 1,
    ;

    /// Construct one receive endpoint and hand `on_new` one send endpoint per
    /// currently known peer.
    fn allocate<F: OnNewPushFn>(&mut self, identifier: usize, on_new: &mut F) -> (r: Puller)
        requires
            old(self).wf(),
        ensures
            final(self).wf(),
            final(self).spec_index() == old(self).spec_index(),
            final(self).spec_peers() == old(self).spec_peers(),
            final(self).spec_events() =~= old(self).spec_events(),
            final(self).spec_has_channel(identifier),
            forall|id: usize|
                id != identifier ==> #[trigger] final(self).spec_has_channel(id) == old(
                    self,
                ).spec_has_channel(id),
            forall|id: usize, s: int|
                id != identifier && old(self).spec_has_channel(id) && 0 <= s < old(
                    self,
                ).spec_peers() ==> #[trigger] final(self).spec_sent(id, s) == old(self).spec_sent(
                    id,
                    s,
                ),
            forall|id: usize, s: int|
                id != identifier && old(self).spec_has_channel(id) && 0 <= s < old(
                    self,
                ).spec_peers() ==> #[trigger] final(self).spec_received(id, s) == old(
                    self,
                ).spec_received(id, s),
            forall|s: int|
                0 <= s < old(self).spec_peers() ==> (#[trigger] final(self).spec_sent(
                    identifier,
                    s,
                )) == Seq::<Seq<u8>>::empty() && final(self).spec_received(identifier, s) == Seq::<
                    Seq<u8>,
                >::empty(),
            final(self).spec_staged() == old(self).spec_staged(),
            final(on_new).accepted() =~= old(on_new).accepted() + Seq::new(
                old(self).spec_peers() as nat,
                |t: int| Pusher { channel: identifier, target: t as usize },
            ),
            r.channel == identifier,
    ;

    /// Construct a loopback channel from the worker to itself.
    fn pipeline(&mut self, identifier: usize) -> (r: (Pusher, Puller))
        requires
            old(self).wf(),
        ensures
            final(self).wf(),
            final(self).spec_index() == old(self).spec_index(),
            final(self).spec_peers() == old(self).spec_peers(),
            final(self).spec_events() =~= old(self).spec_events(),
            final(self).spec_has_channel(identifier),
            forall|id: usize|
                id != identifier ==> #[trigger] final(self).spec_has_channel(id) == old(
                    self,
                ).spec_has_channel(id),
            forall|id: usize, s: int|
                id != identifier && old(self).spec_has_channel(id) && 0 <= s < old(
                    self,
                ).spec_peers() ==> #[trigger] final(self).spec_sent(id, s) == old(self).spec_sent(
                    id,
                    s,
                ),
            forall|id: usize, s: int|
                id != identifier && old(self).spec_has_channel(id) && 0 <= s < old(
                    self,
                ).spec_peers() ==> #[trigger] final(self).spec_received(id, s) == old(
                    self,
                ).spec_received(id, s),
            forall|s: int|
                0 <= s < old(self).spec_peers() ==> (#[trigger] final(self).spec_sent(
                    identifier,
                    s,
                )) == Seq::<Seq<u8>>::empty() && final(self).spec_received(identifier, s) == Seq::<
                    Seq<u8>,
                >::empty(),
            final(self).spec_staged() == old(self).spec_staged(),
            r.0.channel == identifier,
            r.0.target == old(self).spec_index(),
            r.1.channel == identifier,
    ;

    /// Admit any peers whose connection has completed: grow `peers` and
    /// back-fill every existing channel with pushers for the newcomers.
    /// Returns `Some((old_peers, new_peers))` when peers were admitted.
    fn rescale(&mut self) -> (r: Option<(usize, usize)>)
        requires
            old(self).wf(),
        ensures
            final(self).wf(),
            final(self).spec_index() == old(self).spec_index(),
            final(self).spec_peers() >= old(self).spec_peers(),
            forall|id: usize|
                #[trigger] final(self).spec_has_channel(id) == old(self).spec_has_channel(id),
            final(self).spec_events() =~= old(self).spec_events(),
            forall|id: usize, s: int|
                old(self).spec_has_channel(id) && 0 <= s < old(self).spec_peers()
                    ==> #[trigger] final(self).spec_sent(id, s) == old(self).spec_sent(id, s),
            forall|id: usize, s: int|
                old(self).spec_has_channel(id) && 0 <= s < old(self).spec_peers()
                    ==> #[trigger] final(self).spec_received(id, s) == old(self).spec_received(
                    id,
                    s,
                ),
            forall|id: usize, s: int|
                old(self).spec_has_channel(id) && old(self).spec_peers() <= s < final(self).spec_peers() ==> #[trigger] final(self).spec_sent(id, s) == Seq::<
                    Seq<u8>,
                >::empty(),
            forall|id: usize, s: int|
                old(self).spec_has_channel(id) && old(self).spec_peers() <= s < final(self).spec_peers() ==> #[trigger] final(self).spec_received(id, s) == Seq::<
                    Seq<u8>,
                >::empty(),
            final(self).spec_staged() == old(self).spec_staged(),
            match r {
                Some((o, n)) => o == old(self).spec_peers() && n == final(self).spec_peers() && o
                    < n,
                None => final(self).spec_peers() == old(self).spec_peers(),
            },
    ;

    /// Surface received messages in each channel.
    fn receive(&mut self)
        requires
            old(self).wf(),
        ensures
            final(self).wf(),
            final(self).spec_index() == old(self).spec_index(),
            final(self).spec_peers() == old(self).spec_peers(),
            forall|id: usize|
                #[trigger] final(self).spec_has_channel(id) == old(self).spec_has_channel(id),
            old(self).spec_events().is_prefix_of(final(self).spec_events()),
            forall|id: usize, s: int|
                old(self).spec_has_channel(id) && 0 <= s < old(self).spec_peers()
                    ==> #[trigger] final(self).spec_received(id, s) == old(self).spec_received(
                    id,
                    s,
                ),
            forall|id: usize, s: int|
                old(self).spec_has_channel(id) && 0 <= s < old(self).spec_peers() ==> old(
                    self,
                ).spec_sent(id, s).is_prefix_of(#[trigger] final(self).spec_sent(id, s)),
            forall|id: usize, s: int|
                old(self).spec_has_channel(id) && 0 <= s < old(self).spec_peers()
                    ==> #[trigger] final(self).spec_sent(id, s) =~= old(self).spec_sent(id, s)
                    + routed(old(self).spec_staged(), id as u64, s as u64),
            final(self).spec_staged() =~= Seq::<FrameView>::empty(),
            final(self).spec_events() =~= old(self).spec_events() + pushed_events(
                old(self).spec_staged(),
                Set::new(|id: usize| old(self).spec_has_channel(id)),
                old(self).spec_peers(),
            ),
    ;

    /// Drain the queued `(channel, event)` notifications, oldest first.
    fn events(&mut self) -> (evs: Vec<(usize, Event)>)
        requires
            old(self).wf(),
        ensures
            final(self).wf(),
            final(self).spec_index() == old(self).spec_index(),
            final(self).spec_peers() == old(self).spec_peers(),
            forall|id: usize|
                #[trigger] final(self).spec_has_channel(id) == old(self).spec_has_channel(id),
            evs@ =~= old(self).spec_events(),
            final(self).spec_events() =~= Seq::<(usize, Event)>::empty(),
            forall|id: usize, s: int|
                #[trigger] final(self).spec_sent(id, s) == old(self).spec_sent(id, s),
            forall|id: usize, s: int|
                #[trigger] final(self).spec_received(id, s) == old(self).spec_received(id, s),
            final(self).spec_staged() == old(self).spec_staged(),
    ;

    /// Signal the completion of a batch of reads, letting the fabric reclaim
    /// scarce resources.
    fn release(&mut self)
        requires
            old(self).wf(),
        ensures
            final(self).wf(),
            *final(self) == *old(self),
    ;

    /// Park the calling thread for at most `timeout_ms` milliseconds (or, for
    /// `None`, until events arrive). A hint: the method may return at once.
    fn await_events(&self, timeout_ms: Option<u64>)
        requires
            self.wf(),
    ;
}

/// The one allocator, backing all three transport shapes.
pub struct Generic {
    /// Which transport shape this allocator runs.
    pub kind: TransportKind,
    /// This worker's global index.
    pub index: usize,
    /// Number of workers in the communication group.
    pub peers: usize,
    /// Worker threads per process.
    pub threads: usize,
    /// This process's rank.
    pub process: usize,
    /// The state of every channel this worker pulls from.
    pub channels: HashMap<usize, ChannelState>,
    /// Allocation-ordered registry: one record per channel, counting its pushers.
    pub records: Vec<ChannelRecord>,
    /// Queued `(channel, event)` notifications.
    pub events: VecDeque<(usize, Event)>,
    /// Payloads for sibling workers, awaiting the shared-queue fabric.
    pub outbox: VecDeque<OutMessage>,
    /// One bounded queue of framed bytes per destination process.
    pub merge_out: Vec<MergeQueue>,
    /// Next egress sequence number, counted per channel across all remote
    /// destinations (receivers on distinct links of a fan-out channel share
    /// the counter; per-link order is kept by the queues themselves).
    pub seqnos: HashMap<usize, u64>,
    /// Ingress frames parsed but not yet surfaced in channels. Frames are
    /// routed in arrival order; the carried sequence numbers are not
    /// re-checked here (per-link TCP delivery keeps them contiguous).
    pub staged: VecDeque<Frame>,
    /// Workers whose connection completed but which are not yet admitted.
    /// Counted in processes: each admission adds `threads` workers and one
    /// merge queue.
    pub pending_peers: usize,
    /// Slots in each merge queue, fixed at construction.
    pub queue_bound: usize,
}

impl Generic {
    /// The registry lists exactly the channels held, once each.
    pub open spec fn records_wf(&self) -> bool {
        &&& forall|i: int|
            0 <= i < self.records@.len() ==> self.channels@.contains_key(
                #[trigger] self.records@[i].id,
            )
        &&& forall|i: int, j: int|
            0 <= i < j < self.records@.len() ==> (#[trigger] self.records@[i]).id != (
            #[trigger] self.records@[j]).id
        &&& forall|id: usize|
            self.channels@.contains_key(id) ==> exists|i: int|
                0 <= i < self.records@.len() && (#[trigger] self.records@[i]).id == id
        &&& forall|i: int|
            0 <= i < self.records@.len() ==> (#[trigger] self.records@[i]).pushers == self.peers
    }

    /// The whole allocator invariant: worker identity in range, registry
    /// consistent, every channel well-formed with one queue per peer, and
    /// every merge queue within its bound.
    pub open spec fn inv(&self) -> bool {
        &&& self.peers >= 1
        &&& self.index < self.peers
        &&& self.threads >= 1
        &&& self.queue_bound >= 1
        &&& self.peers == self.threads * self.merge_out@.len()
        &&& self.process < self.merge_out@.len()
        &&& self.records_wf()
        &&& forall|id: usize|
            self.channels@.contains_key(id) ==> (#[trigger] self.channels@[id]).wf()
                && self.channels@[id].spec_peers() == self.peers
        &&& forall|i: int| 0 <= i < self.merge_out@.len() ==> (#[trigger] self.merge_out@[i]).wf()
    }

    /// The sent history of one channel for one sender.
    pub open spec fn sent_of(&self, id: usize, s: int) -> Seq<Seq<u8>> {
        self.channels@[id].log@.sent[s]
    }

    /// The received history of one channel for one sender.
    pub open spec fn received_of(&self, id: usize, s: int) -> Seq<Seq<u8>> {
        self.channels@[id].log@.received[s]
    }

    /// The views of the staged ingress frames.
    pub open spec fn staged_views(&self) -> Seq<FrameView> {
        self.staged@.map_values(|f: Frame| f@)
    }

    /// The next egress sequence number of a channel.
    pub open spec fn spec_next_seqno(&self, channel: usize) -> u64 {
        if self.seqnos@.contains_key(channel) {
            self.seqnos@[channel]
        } else {
            0
        }
    }

    /// The process a worker index belongs to.
    pub open spec fn spec_dest_process(&self, target: usize) -> int {
        target as int / self.threads as int
    }

    /// An allocator for one worker.
    ///
    /// `Thread` takes one worker in one process; `Process` takes several
    /// workers in one process; `ZeroCopy` spans `processes` processes of
    /// `threads` workers each.
    pub fn new(
        kind: TransportKind,
        local_index: usize,
        threads: usize,
        process: usize,
        processes: usize,
        queue_bound: usize,
    ) -> (a: Generic)
        requires
            threads >= 1,
            processes >= 1,
            local_index < threads,
            process < processes,
            queue_bound >= 1,
            threads * processes <= usize::MAX,
        ensures
            a.inv(),
            a.spec_index() == process * threads + local_index,
            a.spec_peers() == threads * processes,
            a.spec_events() =~= Seq::<(usize, Event)>::empty(),
            forall|id: usize| !(#[trigger] a.spec_has_channel(id)),
            a.threads == threads,
            a.process == process,
            a.kind == kind,
            a.outbox@ =~= Seq::<OutMessage>::empty(),
            a.staged@ =~= Seq::<Frame>::empty(),
            a.pending_peers == 0,
            a.merge_out@.len() == processes,
            forall|p: int|
                0 <= p < processes ==> (#[trigger] a.merge_out@[p]).bufs@.len() == 0
                    && a.merge_out@[p].bound == queue_bound,
            forall|c: usize| #[trigger] a.spec_next_seqno(c) == 0,
    {
        proof {
            vstd::arithmetic::mul::lemma_mul_ordering(process as int + 1, threads as int);
        }
        assert((process + 1) * threads <= processes * threads) by (nonlinear_arith)
            requires
                process as int + 1 <= processes as int,
                threads >= 1,
        ;
        assert(process * threads + local_index < (process + 1) * threads) by (nonlinear_arith)
            requires
                local_index < threads,
        ;
        assert(processes * threads == threads * processes) by (nonlinear_arith);
        let peers = threads * processes;
        let index = process * threads + local_index;
        let mut merge_out: Vec<MergeQueue> = Vec::new();
        let mut p: usize = 0;
        while p < processes
            invariant
                p <= processes,
                merge_out@.len() == p,
                queue_bound >= 1,
                forall|i: int|
                    0 <= i < p ==> (#[trigger] merge_out@[i]).wf() && merge_out@[i].bufs@.len()
                        == 0 && merge_out@[i].bound == queue_bound,
            decreases processes - p,
        {
            merge_out.push(MergeQueue::new(queue_bound));
            p = p + 1;
        }
        Generic {
            kind,
            index,
            peers,
            threads,
            process,
            channels: HashMap::new(),
            records: Vec::new(),
            events: VecDeque::new(),
            outbox: VecDeque::new(),
            merge_out,
            seqnos: HashMap::new(),
            staged: VecDeque::new(),
            pending_peers: 0,
            queue_bound,
        }
    }

    /// Record that connections from `count` new processes have completed;
    /// their workers are admitted at the next `rescale` call on the worker
    /// thread.
    pub fn accept_peers(&mut self, count: usize)
        requires
            old(self).inv(),
            old(self).pending_peers + count <= usize::MAX,
        ensures
            final(self).inv(),
            final(self).pending_peers == old(self).pending_peers + count,
            *final(self) == (Generic {
                pending_peers: final(self).pending_peers,
                ..*old(self)
            }),
    {
        self.pending_peers = self.pending_peers + count;
    }

    /// Push a payload toward `pusher.target`.
    ///
    /// A self-send enters the local channel at once and queues a `Pushed`
    /// event. A send to a sibling worker queues in the outbox for the
    /// shared-queue fabric. A send to a remote process is framed and offered
    /// to that process's merge queue; `false` reports the queue full
    /// (backpressure), leaving the channel model unchanged.
    pub fn push_to(&mut self, pusher: Pusher, payload: Vec<u8>) -> (ok: bool)
        requires
            old(self).inv(),
            pusher.target < old(self).spec_peers(),
            pusher.target == old(self).spec_index() ==> old(self).spec_has_channel(pusher.channel),
            payload@.len() + HEADER_BYTES <= usize::MAX,
        ensures
            final(self).inv(),
            final(self).spec_index() == old(self).spec_index(),
            final(self).spec_peers() == old(self).spec_peers(),
            forall|id: usize|
                #[trigger] final(self).spec_has_channel(id) == old(self).spec_has_channel(id),
            pusher.target == old(self).spec_index() ==> ok,
            pusher.target == old(self).spec_index() ==> final(self).sent_of(
                pusher.channel,
                old(self).spec_index(),
            ) =~= old(self).sent_of(pusher.channel, old(self).spec_index()).push(payload@),
            pusher.target == old(self).spec_index() ==> final(self).spec_events() =~= old(
                self,
            ).spec_events().push((pusher.channel, Event::Pushed(1))),
            pusher.target == old(self).spec_index() ==> forall|id: usize, s: int|
                old(self).channels@.contains_key(id) && 0 <= s < old(self).peers && !(id
                    == pusher.channel && s == old(self).spec_index()) ==> #[trigger] final(self).sent_of(id, s) == old(self).sent_of(id, s),
            pusher.target == old(self).spec_index() ==> forall|id: usize, s: int|
                old(self).channels@.contains_key(id) && 0 <= s < old(self).peers
                    ==> #[trigger] final(self).received_of(id, s) == old(self).received_of(id, s),
            pusher.target == old(self).spec_index() ==> *final(self) == (Generic {
                channels: final(self).channels,
                events: final(self).events,
                ..*old(self)
            }),
            pusher.target != old(self).spec_index() && old(self).spec_dest_process(pusher.target)
                == old(self).process ==> *final(self) == (Generic {
                outbox: final(self).outbox,
                ..*old(self)
            }),
            pusher.target != old(self).spec_index() && old(self).spec_dest_process(pusher.target)
                != old(self).process ==> *final(self) == (Generic {
                merge_out: final(self).merge_out,
                seqnos: final(self).seqnos,
                ..*old(self)
            }),
            pusher.target != old(self).spec_index() && old(self).spec_dest_process(pusher.target)
                == old(self).process ==> ok && final(self).outbox@ =~= old(self).outbox@.push(
                OutMessage { dest: pusher.target, channel: pusher.channel, payload },
            ) && final(self).channels == old(self).channels && final(self).spec_events() =~= old(
                self,
            ).spec_events(),
            pusher.target != old(self).spec_index() && old(self).spec_dest_process(pusher.target)
                != old(self).process ==> final(self).outbox@ =~= old(self).outbox@ && final(self).channels == old(self).channels && final(self).spec_events() =~= old(
                self,
            ).spec_events(),
            pusher.target != old(self).spec_index() && old(self).spec_dest_process(pusher.target)
                != old(self).process && ok ==> {
                let p = old(self).spec_dest_process(pusher.target);
                &&& 0 <= p < old(self).merge_out@.len()
                &&& final(self).merge_out@[p].bufs@.len() == old(self).merge_out@[p].bufs@.len()
                    + 1
                &&& final(self).merge_out@[p].bufs@.last()@ =~= frame_bytes(
                    FrameView {
                        channel: pusher.channel as u64,
                        source: old(self).index as u64,
                        seqno: old(self).spec_next_seqno(pusher.channel),
                        payload: payload@,
                    },
                )
                &&& (forall|q: int|
                    0 <= q < old(self).merge_out@.len() && q != p ==> final(self).merge_out@[q]
                        == old(self).merge_out@[q])
                &&& final(self).merge_out@[p].bufs@.subrange(
                    0,
                    old(self).merge_out@[p].bufs@.len() as int,
                ) =~= old(self).merge_out@[p].bufs@
            },
            pusher.target != old(self).spec_index() && old(self).spec_dest_process(pusher.target)
                != old(self).process && old(self).spec_next_seqno(pusher.channel) < u64::MAX && old(
                self,
            ).merge_out@[old(self).spec_dest_process(pusher.target)].bufs@.len() < old(
                self,
            ).merge_out@[old(self).spec_dest_process(pusher.target)].bound ==> ok,
            pusher.target != old(self).spec_index() && old(self).spec_dest_process(pusher.target)
                != old(self).process && !ok ==> final(self).seqnos == old(self).seqnos && final(self).merge_out@.len() == old(self).merge_out@.len() && forall|p: int|
                0 <= p < old(self).merge_out@.len() ==> (#[trigger] final(self).merge_out@[p]).bufs@
                    =~= old(self).merge_out@[p].bufs@ && final(self).merge_out@[p].bound == old(
                    self,
                ).merge_out@[p].bound,
    {
        if pusher.target == self.index {
            let ghost prev = *self;
            let mut ch = self.channels.remove(&pusher.channel).unwrap();
            let ghost ch0 = ch;
            ch.push(self.index, payload);
            let ghost chv = ch;
            self.channels.insert(pusher.channel, ch);
            self.events.push_back((pusher.channel, Event::Pushed(1)));
            proof {
                assert(ch0 == prev.channels@[pusher.channel]);
                assert(self.channels@ =~= prev.channels@.insert(pusher.channel, chv));
                lemma_channel_reinserted(prev, *self, pusher.channel, chv);
                assert forall|id: usize, s: int|
                    prev.channels@.contains_key(id) && 0 <= s < prev.peers && !(id
                        == pusher.channel && s == prev.index as int) implies #[trigger] self.sent_of(id, s) == prev.sent_of(id, s) by {
                    if id == pusher.channel {
                        assert(chv.log@.sent[s] =~= ch0.log@.sent[s]);
                    }
                }
                assert forall|id: usize, s: int|
                    prev.channels@.contains_key(id) && 0 <= s < prev.peers implies #[trigger] self.received_of(id, s) == prev.received_of(id, s) by {
                    if id == pusher.channel {
                        assert(chv.log@.received =~= ch0.log@.received);
                        assert(chv.log@.received[s] == ch0.log@.received[s]);
                    }
                }
            }
            true
        } else {
            let dest_proc = pusher.target / self.threads;
            if dest_proc == self.process {
                self.outbox.push_back(
                    OutMessage { dest: pusher.target, channel: pusher.channel, payload },
                );
                true
            } else {
                proof {
                    let t = pusher.target as int;
                    let th = self.threads as int;
                    let ml = self.merge_out@.len() as int;
                    assert(t / th < ml) by (nonlinear_arith)
                        requires
                            t < th * ml,
                            th >= 1,
                            t >= 0,
                    ;
                }
                let seq_now = match self.seqnos.get(&pusher.channel) {
                    Some(s) => *s,
                    None => 0u64,
                };
                if seq_now == u64::MAX {
                    return false;
                }
                let f = Frame {
                    channel: pusher.channel as u64,
                    source: self.index as u64,
                    seqno: seq_now,
                    payload,
                };
                let mut bytes: Vec<u8> = Vec::new();
                encode_frame(&f, &mut bytes);
                let ghost prev = *self;
                let ghost bytes_view = bytes@;
                let q = &mut self.merge_out[dest_proc];
                let ok = q.try_push(bytes);
                if ok {
                    self.seqnos.insert(pusher.channel, seq_now + 1);
                }
                proof {
                    if ok {
                        assert(seq_now == prev.spec_next_seqno(pusher.channel));
                        assert(self.merge_out@[dest_proc as int].bufs@.last()@ == bytes_view);
                        assert(self.merge_out@[dest_proc as int].bufs@.subrange(
                            0,
                            prev.merge_out@[dest_proc as int].bufs@.len() as int,
                        ) =~= prev.merge_out@[dest_proc as int].bufs@);
                    }
                    assert forall|p: int|
                        0 <= p < self.merge_out@.len() implies (
                    #[trigger] self.merge_out@[p]).wf() by {
                        if p != dest_proc {
                            assert(self.merge_out@[p] == prev.merge_out@[p]);
                        }
                    }
                }
                ok
            }
        }
    }

    /// Take every payload queued for sibling workers; the shared-queue fabric
    /// hands each to its destination allocator through `deliver`.
    pub fn take_outbox(&mut self) -> (out: Vec<OutMessage>)
        requires
            old(self).inv(),
        ensures
            final(self).inv(),
            out@ =~= old(self).outbox@,
            final(self).outbox@ =~= Seq::<OutMessage>::empty(),
            *final(self) == (Generic { outbox: final(self).outbox, ..*old(self) }),
    {
        let mut out: Vec<OutMessage> = Vec::new();
        loop
            invariant
                out@ + self.outbox@ =~= old(self).outbox@,
                *self == (Generic { outbox: self.outbox, ..*old(self) }),
                self.inv(),
            decreases self.outbox@.len(),
        {
            let next = self.outbox.pop_front();
            match next {
                Some(m) => {
                    out.push(m);
                    proof {
                        assert forall|x: usize|
                            #[trigger] self.channels@.contains_key(x) == old(
                                self,
                            ).channels@.contains_key(x) by {}
                        lemma_records_wf_preserved(*old(self), *self);
                    }
                },
                None => {
                    return out;
                },
            }
        }
    }

    /// Take the framed bytes queued for one remote process, oldest first;
    /// the send thread writes them to that process's socket.
    pub fn extract_bytes(&mut self, process: usize) -> (out: Vec<Vec<u8>>)
        requires
            old(self).inv(),
            process < old(self).merge_out@.len(),
        ensures
            final(self).inv(),
            out@ =~= old(self).merge_out@[process as int].bufs@,
            final(self).merge_out@[process as int].bufs@ =~= Seq::<Vec<u8>>::empty(),
            *final(self) == (Generic { merge_out: final(self).merge_out, ..*old(self) }),
            final(self).merge_out@.len() == old(self).merge_out@.len(),
            forall|p: int|
                0 <= p < old(self).merge_out@.len() && p != process ==> final(self).merge_out@[p]
                    == old(self).merge_out@[p],
    {
        let q = &mut self.merge_out[process];
        let out = q.drain();
        proof {
            assert forall|x: usize|
                #[trigger] self.channels@.contains_key(x) == old(self).channels@.contains_key(
                    x,
                ) by {}
            lemma_records_wf_preserved(*old(self), *self);
            assert forall|p: int|
                0 <= p < self.merge_out@.len() implies (#[trigger] self.merge_out@[p]).wf() by {
                if p != process {
                    assert(self.merge_out@[p] == old(self).merge_out@[p]);
                }
            }
        }
        out
    }

    /// Inject a payload from a sibling worker: the shared-queue fabric calls
    /// this on the destination allocator with each outbox entry.
    pub fn deliver(&mut self, channel: usize, source: usize, payload: Vec<u8>)
        requires
            old(self).inv(),
            old(self).spec_has_channel(channel),
            source < old(self).spec_peers(),
        ensures
            final(self).inv(),
            final(self).spec_index() == old(self).spec_index(),
            final(self).spec_peers() == old(self).spec_peers(),
            forall|id: usize|
                #[trigger] final(self).spec_has_channel(id) == old(self).spec_has_channel(id),
            final(self).sent_of(channel, source as int) =~= old(self).sent_of(
                channel,
                source as int,
            ).push(payload@),
            forall|id: usize, s: int|
                old(self).channels@.contains_key(id) && 0 <= s < old(self).peers && !(id == channel
                    && s == source as int) ==> #[trigger] final(self).sent_of(id, s) == old(
                    self,
                ).sent_of(id, s),
            forall|id: usize, s: int|
                old(self).channels@.contains_key(id) && 0 <= s < old(self).peers
                    ==> #[trigger] final(self).received_of(id, s) == old(self).received_of(id, s),
            final(self).spec_events() =~= old(self).spec_events().push(
                (channel, Event::Pushed(1)),
            ),
            *final(self) == (Generic {
                channels: final(self).channels,
                events: final(self).events,
                ..*old(self)
            }),
    {
        let ghost prev = *self;
        let mut ch = self.channels.remove(&channel).unwrap();
        let ghost ch0 = ch;
        ch.push(source, payload);
        let ghost chv = ch;
        self.channels.insert(channel, ch);
        self.events.push_back((channel, Event::Pushed(1)));
        proof {
            assert(ch0 == prev.channels@[channel]);
            assert(self.channels@ =~= prev.channels@.insert(channel, chv));
            lemma_channel_reinserted(prev, *self, channel, chv);
            assert forall|id: usize, s: int|
                prev.channels@.contains_key(id) && 0 <= s < prev.peers && !(id == channel && s
                    == source as int) implies #[trigger] self.sent_of(id, s) == prev.sent_of(
                id,
                s,
            ) by {
                if id == channel {
                    assert(chv.log@.sent[s] =~= ch0.log@.sent[s]);
                }
            }
            assert forall|id: usize, s: int|
                prev.channels@.contains_key(id) && 0 <= s < prev.peers implies #[trigger] self.received_of(id, s) == prev.received_of(id, s) by {
                if id == channel {
                    assert(chv.log@.received =~= ch0.log@.received);
                    assert(chv.log@.received[s] == ch0.log@.received[s]);
                }
            }
        }
    }

    /// Pull the next available payload from a channel, with the sender that
    /// pushed it; queues a `Pulled` event when one is returned.
    pub fn pull_from(&mut self, puller: Puller) -> (r: Option<(usize, Vec<u8>)>)
        requires
            old(self).inv(),
            old(self).spec_has_channel(puller.channel),
        ensures
            final(self).inv(),
            final(self).spec_index() == old(self).spec_index(),
            final(self).spec_peers() == old(self).spec_peers(),
            forall|id: usize|
                #[trigger] final(self).spec_has_channel(id) == old(self).spec_has_channel(id),
            forall|id: usize, s: int|
                old(self).channels@.contains_key(id) && 0 <= s < old(self).peers
                    ==> #[trigger] final(self).sent_of(id, s) == old(self).sent_of(id, s),
            forall|id: usize, s: int|
                old(self).channels@.contains_key(id) && 0 <= s < old(self).peers && id
                    != puller.channel ==> #[trigger] final(self).received_of(id, s) == old(
                    self,
                ).received_of(id, s),
            match r {
                Some((s, m)) => {
                    &&& (s as int) < old(self).spec_peers()
                    &&& old(self).received_of(puller.channel, s as int).len() < old(self).sent_of(
                        puller.channel,
                        s as int,
                    ).len()
                    &&& m@ == old(self).sent_of(puller.channel, s as int)[old(self).received_of(
                        puller.channel,
                        s as int,
                    ).len() as int]
                    &&& final(self).received_of(puller.channel, s as int) =~= old(
                        self,
                    ).received_of(puller.channel, s as int).push(m@)
                    &&& forall|t: int|
                        0 <= t < old(self).peers && t != s as int ==> #[trigger] final(self).received_of(puller.channel, t) == old(self).received_of(
                            puller.channel,
                            t,
                        )
                },
                                None => final(self).channels@[puller.channel].log@.received =~= old(self).channels@[puller.channel].log@.received,
            },
            r is Some ==> final(self).spec_events() =~= old(self).spec_events().push(
                (puller.channel, Event::Pulled(1)),
            ),
            r is None ==> final(self).spec_events() =~= old(self).spec_events(),
            r is None ==> forall|s: int|
                0 <= s < old(self).peers ==> #[trigger] final(self).received_of(puller.channel, s)
                    == final(self).sent_of(puller.channel, s),
            *final(self) == (Generic {
                channels: final(self).channels,
                events: final(self).events,
                ..*old(self)
            }),
    {
        let ghost prev = *self;
        let mut ch = self.channels.remove(&puller.channel).unwrap();
        let ghost ch0 = ch;
        let r = ch.pull();
        let ghost chv = ch;
        self.channels.insert(puller.channel, ch);
        if r.is_some() {
            self.events.push_back((puller.channel, Event::Pulled(1)));
        }
        proof {
            assert(ch0 == prev.channels@[puller.channel]);
            assert(self.channels@ =~= prev.channels@.insert(puller.channel, chv));
            lemma_channel_reinserted(prev, *self, puller.channel, chv);
            assert(chv.log@.sent =~= ch0.log@.sent);
            assert forall|id: usize, s: int|
                prev.channels@.contains_key(id) && 0 <= s < prev.peers implies #[trigger] self.sent_of(id, s) == prev.sent_of(id, s) by {
                if id == puller.channel {
                    assert(chv.log@.sent[s] == ch0.log@.sent[s]);
                }
            }
            if r is None {
                assert forall|s: int|
                    0 <= s < prev.peers implies #[trigger] self.received_of(puller.channel, s)
                    == self.sent_of(puller.channel, s) by {
                    assert(self.channels@[puller.channel] == chv);
                    assert(chv.queues@[s]@.len() == 0);
                    assert(views_of(chv.queues@[s]@) =~= Seq::<Seq<u8>>::empty());
                    assert(chv.log@.sent[s] == chv.log@.received[s] + views_of(chv.queues@[s]@));
                    assert(chv.log@.sent[s] =~= chv.log@.received[s]);
                }
            }
        }
        r
    }

    /// Accept a byte run from a remote peer: parse it into frames and stage
    /// them for `receive`. A run that is not a whole number of well-formed
    /// frames is a transport fault and changes nothing.
    #[verifier::loop_isolation(false)]
    pub fn ingress(&mut self, bytes: &Vec<u8>) -> (r: Result<usize, TransportError>)
        requires
            old(self).inv(),
        ensures
            final(self).inv(),
            final(self).spec_index() == old(self).spec_index(),
            final(self).spec_peers() == old(self).spec_peers(),
            forall|id: usize|
                #[trigger] final(self).spec_has_channel(id) == old(self).spec_has_channel(id),
            final(self).spec_events() =~= old(self).spec_events(),
            match r {
                Ok(n) => {
                    &&& parse_frames(bytes@) is Some
                    &&& final(self).staged_views() =~= old(self).staged_views() + parse_frames(
                        bytes@,
                    ).unwrap()
                    &&& n == parse_frames(bytes@).unwrap().len()
                    &&& *final(self) == (Generic { staged: final(self).staged, ..*old(self) })
                },
                Err(_) => parse_frames(bytes@) is None && *final(self) == *old(self),
            },
    {
        let parsed = decode_frames(bytes);
        match parsed {
            Ok(mut fs) => {
                let n = fs.len();
                let ghost all = fs@;
                let mut i: usize = 0;
                while i < n
                    invariant
                        old(self).inv(),
                        self.inv(),
                        i <= n,
                        n == all.len(),
                        fs@ =~= all.subrange(i as int, n as int),
                        *self == (Generic { staged: self.staged, ..*old(self) }),
                        self.staged_views() =~= old(self).staged_views() + frame_views(
                            all,
                        ).subrange(0, i as int),
                    decreases n - i,
                {
                    let ghost before = self.staged_views();
                    let f = fs.remove(0);
                    self.staged.push_back(f);
                    i = i + 1;
                    proof {
                        lemma_records_wf_preserved(*old(self), *self);
                        assert(f == all[i - 1]);
                        assert(fs@ =~= all.subrange(i as int, n as int));
                        assert(self.staged_views() =~= before.push(f@));
                        assert(frame_views(all).subrange(0, i as int) =~= frame_views(
                            all,
                        ).subrange(0, i as int - 1).push(frame_views(all)[i - 1]));
                        assert(self.staged_views() =~= old(self).staged_views() + frame_views(
                            all,
                        ).subrange(0, i as int));
                    }
                }
                proof {
                    assert(frame_views(all).subrange(0, n as int) =~= frame_views(all));
                }
                Ok(n)
            },
            Err(e) => Err(e),
        }
    }
}

/// Whether `id` is the identifier of one of the first `i` records.
pub open spec fn record_seen(records: Seq<ChannelRecord>, i: int, id: usize) -> bool {
    exists|j: int| 0 <= j < i && (#[trigger] records[j]).id == id
}

/// The `(channel, Pushed(1))` notification queued for each routed frame: one
/// per frame whose channel is allocated here and whose sender is a known
/// peer, in arrival order.
pub open spec fn pushed_events(fs: Seq<FrameView>, dom: Set<usize>, peers: int) -> Seq<
    (usize, Event),
>
    decreases fs.len(),
{
    if fs.len() == 0 {
        Seq::<(usize, Event)>::empty()
    } else {
        let rest = pushed_events(fs.skip(1), dom, peers);
        if fs[0].channel <= usize::MAX as u64 && dom.contains(fs[0].channel as usize)
            && fs[0].source < peers as u64 {
            seq![((fs[0].channel as usize), Event::Pushed(1))] + rest
        } else {
            rest
        }
    }
}

/// Registry consistency survives any step that keeps the records, the peer
/// count and the set of channels.
pub proof fn lemma_records_wf_preserved(prev: Generic, cur: Generic)
    requires
        prev.records_wf(),
        cur.records@ == prev.records@,
        cur.peers == prev.peers,
        forall|id: usize| #[trigger] cur.channels@.contains_key(id) == prev.channels@.contains_key(
            id,
        ),
    ensures
        cur.records_wf(),
{
    assert forall|i: int|
        0 <= i < cur.records@.len() implies cur.channels@.contains_key(
        #[trigger] cur.records@[i].id,
    ) by {
        assert(prev.channels@.contains_key(prev.records@[i].id));
    }
    assert forall|id: usize| cur.channels@.contains_key(id) implies exists|i: int|
        0 <= i < cur.records@.len() && (#[trigger] cur.records@[i]).id == id by {
        let i = choose|i: int|
            0 <= i < prev.records@.len() && (#[trigger] prev.records@[i]).id == id;
        assert(cur.records@[i].id == id);
    }
}

/// Taking one channel out, updating it, and reinserting it leaves every
/// other channel — and the allocator invariant — intact, provided the
/// updated channel is well-formed with one queue per peer.
proof fn lemma_channel_reinserted(prev: Generic, cur: Generic, id: usize, chv: ChannelState)
    requires
        prev.inv(),
        prev.channels@.contains_key(id),
        chv.wf(),
        chv.spec_peers() == prev.peers,
        cur.channels@ == prev.channels@.insert(id, chv),
        cur.records == prev.records,
        cur.peers == prev.peers,
        cur.threads == prev.threads,
        cur.index == prev.index,
        cur.process == prev.process,
        cur.queue_bound == prev.queue_bound,
        cur.merge_out == prev.merge_out,
    ensures
        cur.inv(),
        forall|x: usize|
            #[trigger] cur.channels@.contains_key(x) == prev.channels@.contains_key(x),
        forall|x: usize|
            prev.channels@.contains_key(x) && x != id ==> #[trigger] cur.channels@[x]
                == prev.channels@[x],
        cur.channels@[id] == chv,
{
    assert forall|x: usize|
        #[trigger] cur.channels@.contains_key(x) == prev.channels@.contains_key(x) by {}
    lemma_records_wf_preserved(prev, cur);
    assert forall|x: usize| cur.channels@.contains_key(x) implies (
    #[trigger] cur.channels@[x]).wf() && cur.channels@[x].spec_peers() == cur.peers by {
        if x != id {
            assert(cur.channels@[x] == prev.channels@[x]);
        }
    }
    assert forall|q: int| 0 <= q < cur.merge_out@.len() implies (
    #[trigger] cur.merge_out@[q]).wf() by {
        assert(cur.merge_out@[q] == prev.merge_out@[q]);
    }
}

impl Allocate for Generic {
    open spec fn wf(&self) -> bool {
        self.inv()
    }

    open spec fn spec_index(&self) -> int {
        self.index as int
    }

    open spec fn spec_peers(&self) -> int {
        self.peers as int
    }

    open spec fn spec_events(&self) -> Seq<(usize, Event)> {
        self.events@
    }

    open spec fn spec_has_channel(&self, id: usize) -> bool {
        self.channels@.contains_key(id)
    }

    open spec fn spec_sent(&self, id: usize, s: int) -> Seq<Seq<u8>> {
        self.sent_of(id, s)
    }

    open spec fn spec_received(&self, id: usize, s: int) -> Seq<Seq<u8>> {
        self.received_of(id, s)
    }

    open spec fn spec_staged(&self) -> Seq<FrameView> {
        self.staged_views()
    }

    fn index(&self) -> usize {
        self.index
    }

    fn peers(&self) -> usize {
        self.peers
    }

    fn allocate<F: OnNewPushFn>(&mut self, identifier: usize, on_new: &mut F) -> (r: Puller) {
        self.allocate_channel(identifier, on_new)
    }

    fn pipeline(&mut self, identifier: usize) -> (r: (Pusher, Puller)) {
        let mut sink = PusherList::new();
        let puller = self.allocate_channel(identifier, &mut sink);
        (Pusher { channel: identifier, target: self.index }, puller)
    }

    fn rescale(&mut self) -> (r: Option<(usize, usize)>) {
        self.rescale_admit()
    }

    fn receive(&mut self) {
        self.receive_staged();
        proof {
            let ghost st = Set::new(|id: usize| old(self).spec_has_channel(id));
            let ghost dm = old(self).channels@.dom();
            assert(st =~= dm);
            assert(pushed_events(old(self).staged_views(), st, old(self).peers as int)
                == pushed_events(old(self).staged_views(), dm, old(self).peers as int));
            assert forall|id: usize, s: int|
                old(self).channels@.contains_key(id) && 0 <= s < old(self).peers implies old(
                self,
            ).sent_of(id, s).is_prefix_of(#[trigger] self.sent_of(id, s)) by {
                let tail = routed(old(self).staged_views(), id as u64, s as u64);
                assert(self.sent_of(id, s) =~= old(self).sent_of(id, s) + tail);
                assert((old(self).sent_of(id, s) + tail).subrange(
                    0,
                    old(self).sent_of(id, s).len() as int,
                ) =~= old(self).sent_of(id, s));
            }
        }
    }

    fn events(&mut self) -> (evs: Vec<(usize, Event)>) {
        self.drain_events()
    }

    fn release(&mut self) {
    }

    fn await_events(&self, timeout_ms: Option<u64>) {
    }
}

impl Generic {
    /// Construct one receive endpoint for `identifier` and hand `on_new` one
    /// send endpoint per currently known peer; the channel is registered so
    /// that rescaling can back-fill it. An identifier seen before (a channel
    /// torn down with its dataflow) is reused: its state starts fresh.
    #[verifier::loop_isolation(false)]
    pub fn allocate_channel<F: OnNewPushFn>(&mut self, identifier: usize, on_new: &mut F) -> (r:
        Puller)
        requires
            old(self).inv(),
        ensures
            final(self).inv(),
            final(self).channels@.contains_key(identifier),
            forall|id: usize|
                id != identifier ==> #[trigger] final(self).channels@.contains_key(id) == old(
                    self,
                ).channels@.contains_key(id),
            forall|id: usize|
                old(self).channels@.contains_key(id) && id != identifier ==> final(self).channels@[id] == old(self).channels@[id],
            forall|s: int|
                0 <= s < final(self).peers ==> (#[trigger] final(self).sent_of(identifier, s))
                    == Seq::<Seq<u8>>::empty(),
            forall|s: int|
                0 <= s < final(self).peers ==> (#[trigger] final(self).received_of(identifier, s))
                    == Seq::<Seq<u8>>::empty(),
            !old(self).channels@.contains_key(identifier) ==> final(self).records@ =~= old(
                self,
            ).records@.push(ChannelRecord { id: identifier, pushers: old(self).peers }),
            old(self).channels@.contains_key(identifier) ==> final(self).records@ =~= old(
                self,
            ).records@,
            *final(self) == (Generic {
                channels: final(self).channels,
                records: final(self).records,
                ..*old(self)
            }),
            final(on_new).accepted() =~= old(on_new).accepted() + Seq::new(
                old(self).peers as nat,
                |t: int| Pusher { channel: identifier, target: t as usize },
            ),
            r.channel == identifier,
    {
        let ghost prev = *self;
        let ch = ChannelState::new(self.peers);
        let ghost chv = ch;
        let existed = self.channels.contains_key(&identifier);
        self.channels.insert(identifier, ch);
        if !existed {
            self.records.push(ChannelRecord { id: identifier, pushers: self.peers });
        }
        proof {
            assert(self.channels@ =~= prev.channels@.insert(identifier, chv));
            if existed {
                assert forall|x: usize|
                    #[trigger] self.channels@.contains_key(x) == prev.channels@.contains_key(
                        x,
                    ) by {}
                lemma_records_wf_preserved(prev, *self);
            } else {
                assert forall|i: int|
                    0 <= i < self.records@.len() implies self.channels@.contains_key(
                    #[trigger] self.records@[i].id,
                ) by {
                    if i < self.records@.len() - 1 {
                        assert(prev.channels@.contains_key(prev.records@[i].id));
                    }
                }
                assert forall|i: int, j: int|
                    0 <= i < j < self.records@.len() implies (#[trigger] self.records@[i]).id != (
                #[trigger] self.records@[j]).id by {
                    if j == self.records@.len() - 1 {
                        assert(prev.channels@.contains_key(prev.records@[i].id));
                    }
                }
                assert forall|id: usize| self.channels@.contains_key(id) implies exists|i: int|
                    0 <= i < self.records@.len() && (#[trigger] self.records@[i]).id == id by {
                    if id == identifier {
                        assert(self.records@[self.records@.len() - 1].id == id);
                    } else {
                        let i = choose|i: int|
                            0 <= i < prev.records@.len() && (#[trigger] prev.records@[i]).id == id;
                        assert(self.records@[i].id == id);
                    }
                }
            }
            assert forall|id: usize| self.channels@.contains_key(id) implies (
            #[trigger] self.channels@[id]).wf() && self.channels@[id].spec_peers()
                == self.peers by {
                if id != identifier {
                    assert(self.channels@[id] == prev.channels@[id]);
                }
            }
            assert(forall|s: int|
                0 <= s < self.peers ==> (#[trigger] chv.log@.sent[s]) == Seq::<Seq<u8>>::empty());
            assert(forall|s: int|
                0 <= s < self.peers ==> (#[trigger] chv.log@.received[s]) == Seq::<
                    Seq<u8>,
                >::empty());
        }
        let mut t: usize = 0;
        let n = self.peers;
        while t < n
            invariant
                t <= n,
                n == old(self).peers,
                on_new.accepted() =~= old(on_new).accepted() + Seq::new(
                    t as nat,
                    |x: int| Pusher { channel: identifier, target: x as usize },
                ),
            decreases n - t,
        {
            on_new.on_new_push(Pusher { channel: identifier, target: t });
            t = t + 1;
            proof {
                assert(Seq::new(
                    t as nat,
                    |x: int| Pusher { channel: identifier, target: x as usize },
                ) =~= Seq::new(
                    (t - 1) as nat,
                    |x: int| Pusher { channel: identifier, target: x as usize },
                ).push(Pusher { channel: identifier, target: (t - 1) as usize }));
            }
        }
        proof {
            assert(on_new.accepted() =~= old(on_new).accepted() + Seq::new(
                old(self).peers as nat,
                |x: int| Pusher { channel: identifier, target: x as usize },
            ));
        }
        Puller { channel: identifier }
    }

    /// Admit every pending peer: grow `peers`, and back-fill each registered
    /// channel so it has one pusher and one queue per peer, old histories
    /// untouched and newcomers starting empty. This is the donor-side step of
    /// the rescaling protocol; the caller spawns the bootstrap server when
    /// `Some` is returned.
    #[verifier::loop_isolation(false)]
    pub fn rescale_admit(&mut self) -> (r: Option<(usize, usize)>)
        requires
            old(self).inv(),
        ensures
            final(self).inv(),
            forall|id: usize|
                #[trigger] final(self).channels@.contains_key(id) == old(
                    self,
                ).channels@.contains_key(id),
            final(self).index == old(self).index,
            final(self).threads == old(self).threads,
            final(self).process == old(self).process,
            final(self).events@ =~= old(self).events@,
            final(self).staged@ == old(self).staged@,
            final(self).outbox@ == old(self).outbox@,
            old(self).kind != TransportKind::ZeroCopy ==> r is None,
            old(self).kind == TransportKind::ZeroCopy && old(self).pending_peers >= 1 && old(
                self,
            ).pending_peers <= (usize::MAX - old(self).peers) as int / old(self).threads as int ==> r is Some,
            match r {
                None => final(self).peers == old(self).peers && final(self).pending_peers
                    == old(self).pending_peers && final(self).channels == old(self).channels
                    && final(self).records == old(self).records && final(self).merge_out == old(
                    self,
                ).merge_out && final(self).seqnos == old(self).seqnos,
                Some((o, n)) => {
                    &&& o == old(self).peers
                    &&& n == final(self).peers
                    &&& n == o + old(self).pending_peers * old(self).threads
                    &&& o < n
                    &&& final(self).merge_out@.len() == old(self).merge_out@.len() + old(
                        self,
                    ).pending_peers
                    &&& forall|p: int|
                        0 <= p < old(self).merge_out@.len() ==> #[trigger] final(self).merge_out@[p] == old(self).merge_out@[p]
                    &&& final(self).pending_peers == 0
                    &&& final(self).records@.len() == old(self).records@.len()
                    &&& forall|i: int|
                        0 <= i < final(self).records@.len() ==> (#[trigger] final(self).records@[i]).id == old(self).records@[i].id && final(self).records@[i].pushers == n
                    &&& forall|id: usize, s: int|
                        old(self).channels@.contains_key(id) && 0 <= s < o ==> (#[trigger] final(self).sent_of(id, s)) == old(self).sent_of(id, s)
                    &&& forall|id: usize, s: int|
                        old(self).channels@.contains_key(id) && 0 <= s < o ==> (#[trigger] final(self).received_of(id, s)) == old(self).received_of(id, s)
                    &&& forall|id: usize, s: int|
                        old(self).channels@.contains_key(id) && o <= s < n ==> (#[trigger] final(self).sent_of(id, s)) == Seq::<Seq<u8>>::empty()
                    &&& forall|id: usize, s: int|
                        old(self).channels@.contains_key(id) && o <= s < n ==> (#[trigger] final(self).received_of(id, s)) == Seq::<Seq<u8>>::empty()
                },
            },
    {
        if !(matches!(self.kind, TransportKind::ZeroCopy)) {
            // Only the network-backed shape admits peers; the loopback and
            // shared-queue shapes never rescale.
            return None;
        }
        if self.pending_peers == 0 {
            return None;
        }
        if self.pending_peers > (usize::MAX - self.peers) / self.threads {
            return None;
        }
        let pending = self.pending_peers;
        proof {
            assert(pending * self.threads <= usize::MAX - self.peers) by (nonlinear_arith)
                requires
                    self.threads >= 1,
                    pending <= (usize::MAX - self.peers) as int / self.threads as int,
            ;
        }
        let added = pending * self.threads;
        proof {
            assert(added >= 1) by (nonlinear_arith)
                requires
                    added == pending * self.threads,
                    pending >= 1,
                    self.threads >= 1,
            ;
        }
        let old_peers = self.peers;
        let new_peers = self.peers + added;
        self.peers = new_peers;
        self.pending_peers = 0;
        let mut grown: usize = 0;
        while grown < pending
            invariant
                grown <= pending,
                self.merge_out@.len() == old(self).merge_out@.len() + grown,
                forall|p: int|
                    0 <= p < old(self).merge_out@.len() ==> #[trigger] self.merge_out@[p] == old(
                        self,
                    ).merge_out@[p],
                forall|p: int|
                    0 <= p < self.merge_out@.len() ==> (#[trigger] self.merge_out@[p]).wf(),
                self.queue_bound == old(self).queue_bound,
                self.queue_bound >= 1,
                self.peers == new_peers,
                *self == (Generic {
                    peers: self.peers,
                    pending_peers: 0usize,
                    merge_out: self.merge_out,
                    ..*old(self)
                }),
            decreases pending - grown,
        {
            self.merge_out.push(MergeQueue::new(self.queue_bound));
            grown = grown + 1;
        }
        proof {
            let ghost op = old(self).peers as int;
            let ghost ot = old(self).threads as int;
            let ghost om = old(self).merge_out@.len() as int;
            let ghost nm = self.merge_out@.len() as int;
            assert(new_peers == ot * nm) by (nonlinear_arith)
                requires
                    op == ot * om,
                    nm == om + pending,
                    new_peers == op + pending * ot,
            ;
        }
        let n = self.records.len();
        let mut i: usize = 0;
        while i < n
            invariant
                old(self).inv(),
                i <= n,
                n == self.records@.len(),
                self.records@.len() == old(self).records@.len(),
                old_peers == old(self).peers,
                new_peers == self.peers,
                old_peers < new_peers,
                *self == (Generic {
                    peers: self.peers,
                    pending_peers: 0usize,
                    channels: self.channels,
                    records: self.records,
                    merge_out: self.merge_out,
                    ..*old(self)
                }),
                self.peers == self.threads * self.merge_out@.len(),
                self.process < self.merge_out@.len(),
                self.queue_bound >= 1,
                self.merge_out@.len() == old(self).merge_out@.len() + pending,
                forall|p: int|
                    0 <= p < old(self).merge_out@.len() ==> #[trigger] self.merge_out@[p] == old(
                        self,
                    ).merge_out@[p],
                forall|p: int|
                    0 <= p < self.merge_out@.len() ==> (#[trigger] self.merge_out@[p]).wf(),
                forall|j: int|
                    0 <= j < n ==> (#[trigger] self.records@[j]).id == old(self).records@[j].id,
                forall|j: int|
                    0 <= j < i ==> (#[trigger] self.records@[j]).pushers == new_peers,
                forall|j: int|
                    i <= j < n ==> (#[trigger] self.records@[j]).pushers == old_peers,
                forall|id: usize|
                    #[trigger] self.channels@.contains_key(id) == old(
                        self,
                    ).channels@.contains_key(id),
                forall|id: usize|
                    self.channels@.contains_key(id) && !record_seen(self.records@, i as int, id)
                        ==> (#[trigger] self.channels@[id]) == old(self).channels@[id],
                forall|id: usize|
                    self.channels@.contains_key(id) && record_seen(self.records@, i as int, id)
                        ==> (#[trigger] self.channels@[id]).wf() && self.channels@[id].spec_peers()
                        == new_peers,
                forall|id: usize, s: int|
                    self.channels@.contains_key(id) && record_seen(self.records@, i as int, id)
                        && 0 <= s < old_peers ==> (#[trigger] self.sent_of(id, s)) == old(
                        self,
                    ).sent_of(id, s),
                forall|id: usize, s: int|
                    self.channels@.contains_key(id) && record_seen(self.records@, i as int, id)
                        && 0 <= s < old_peers ==> (#[trigger] self.received_of(id, s)) == old(
                        self,
                    ).received_of(id, s),
                forall|id: usize, s: int|
                    self.channels@.contains_key(id) && record_seen(self.records@, i as int, id)
                        && old_peers <= s < new_peers ==> (#[trigger] self.sent_of(id, s)) == Seq::<
                        Seq<u8>,
                    >::empty(),
                forall|id: usize, s: int|
                    self.channels@.contains_key(id) && record_seen(self.records@, i as int, id)
                        && old_peers <= s < new_peers ==> (#[trigger] self.received_of(id, s))
                        == Seq::<Seq<u8>>::empty(),
            decreases n - i,
        {
            let ghost prev = *self;
            let ghost iprev = i as int;
            let id = self.records[i].id;
            proof {
                assert(old(self).channels@.contains_key(id));
                if record_seen(self.records@, iprev, id) {
                    let j = choose|j: int|
                        0 <= j < iprev && (#[trigger] self.records@[j]).id == id;
                    assert(old(self).records@[j].id == old(self).records@[iprev].id);
                    assert(false);
                }
                assert(self.channels@[id] == old(self).channels@[id]);
            }
            let mut ch = self.channels.remove(&id).unwrap();
            let ghost ch0 = ch;
            ch.grow_peers(new_peers);
            let ghost chv = ch;
            self.channels.insert(id, ch);
            self.records[i] = ChannelRecord { id, pushers: new_peers };
            i = i + 1;
            proof {
                assert(self.channels@ =~= prev.channels@.insert(id, chv));
                assert forall|x: usize|
                    prev.channels@.contains_key(x) && x != id implies self.channels@[x]
                    == prev.channels@[x] by {}
                assert forall|x: usize|
                    self.channels@.contains_key(x) && record_seen(self.records@, i as int, x) && x
                        != id implies record_seen(prev.records@, iprev, x)
                        && self.channels@[x] == prev.channels@[x] by {
                    let j = choose|j: int|
                        0 <= j < i && (#[trigger] self.records@[j]).id == x;
                    assert(j != iprev);
                    assert(prev.records@[j].id == x);
                }
                assert forall|x: usize|
                    self.channels@.contains_key(x) && !record_seen(self.records@, i as int, x)
                        implies (#[trigger] self.channels@[x]) == old(self).channels@[x]
                        && !record_seen(prev.records@, iprev, x) by {
                    assert(self.records@[iprev].id == id);
                    assert(x != id);
                    assert(self.channels@[x] == prev.channels@[x]);
                    if record_seen(prev.records@, iprev, x) {
                        let j = choose|j: int|
                            0 <= j < iprev && (#[trigger] prev.records@[j]).id == x;
                        assert(self.records@[j].id == x);
                        assert(false);
                    }
                }
                assert forall|x: usize, s: int|
                    self.channels@.contains_key(x) && record_seen(self.records@, i as int, x) && 0
                        <= s < old_peers implies (#[trigger] self.sent_of(x, s)) == old(self).sent_of(x, s) by {
                    if x == id {
                        assert(self.channels@[x] == chv);
                        assert(ch0 == old(self).channels@[id]);
                        assert(ch0.spec_peers() == old_peers);
                        assert(chv.log@.sent[s] == ch0.log@.sent[s]);
                        assert(chv.log@.received[s] == ch0.log@.received[s]);
                        assert(self.sent_of(x, s) == chv.log@.sent[s]);
                        assert(self.received_of(x, s) == chv.log@.received[s]);
                        assert(old(self).sent_of(x, s) == ch0.log@.sent[s]);
                        assert(old(self).received_of(x, s) == ch0.log@.received[s]);
                    } else {
                        let j = choose|j: int|
                            0 <= j < i && (#[trigger] self.records@[j]).id == x;
                        assert(j != iprev);
                        assert(prev.records@[j].id == x);
                        assert(record_seen(prev.records@, iprev, x));
                        assert(prev.sent_of(x, s) == old(self).sent_of(x, s));
                        assert(prev.received_of(x, s) == old(self).received_of(x, s));
                        assert(self.channels@[x] == prev.channels@[x]);
                        assert(self.sent_of(x, s) == prev.sent_of(x, s));
                        assert(self.received_of(x, s) == prev.received_of(x, s));
                    }
                }
                assert forall|x: usize, s: int|
                    self.channels@.contains_key(x) && record_seen(self.records@, i as int, x) && 0
                        <= s < old_peers implies (#[trigger] self.received_of(x, s)) == old(self).received_of(x, s) by {
                    if x == id {
                        assert(self.channels@[x] == chv);
                        assert(ch0 == old(self).channels@[id]);
                        assert(ch0.spec_peers() == old_peers);
                        assert(chv.log@.sent[s] == ch0.log@.sent[s]);
                        assert(chv.log@.received[s] == ch0.log@.received[s]);
                        assert(self.sent_of(x, s) == chv.log@.sent[s]);
                        assert(self.received_of(x, s) == chv.log@.received[s]);
                        assert(old(self).sent_of(x, s) == ch0.log@.sent[s]);
                        assert(old(self).received_of(x, s) == ch0.log@.received[s]);
                    } else {
                        let j = choose|j: int|
                            0 <= j < i && (#[trigger] self.records@[j]).id == x;
                        assert(j != iprev);
                        assert(prev.records@[j].id == x);
                        assert(record_seen(prev.records@, iprev, x));
                        assert(prev.sent_of(x, s) == old(self).sent_of(x, s));
                        assert(prev.received_of(x, s) == old(self).received_of(x, s));
                        assert(self.channels@[x] == prev.channels@[x]);
                        assert(self.sent_of(x, s) == prev.sent_of(x, s));
                        assert(self.received_of(x, s) == prev.received_of(x, s));
                    }
                }
                assert forall|x: usize, s: int|
                    self.channels@.contains_key(x) && record_seen(self.records@, i as int, x)
                        && old_peers <= s < new_peers implies (#[trigger] self.sent_of(x, s)) == Seq::<Seq<u8>>::empty() by {
                    if x == id {
                        assert(self.channels@[x] == chv);
                        assert(ch0 == old(self).channels@[id]);
                        assert(ch0.spec_peers() == old_peers);
                        assert(chv.log@.sent[s] == Seq::<Seq<u8>>::empty());
                        assert(chv.log@.received[s] == Seq::<Seq<u8>>::empty());
                        assert(self.sent_of(x, s) == chv.log@.sent[s]);
                        assert(self.received_of(x, s) == chv.log@.received[s]);
                    } else {
                        let j = choose|j: int|
                            0 <= j < i && (#[trigger] self.records@[j]).id == x;
                        assert(j != iprev);
                        assert(prev.records@[j].id == x);
                        assert(record_seen(prev.records@, iprev, x));
                        assert(prev.sent_of(x, s) == Seq::<Seq<u8>>::empty());
                        assert(prev.received_of(x, s) == Seq::<Seq<u8>>::empty());
                        assert(self.channels@[x] == prev.channels@[x]);
                        assert(self.sent_of(x, s) == prev.sent_of(x, s));
                        assert(self.received_of(x, s) == prev.received_of(x, s));
                    }
                }
                assert forall|x: usize, s: int|
                    self.channels@.contains_key(x) && record_seen(self.records@, i as int, x)
                        && old_peers <= s < new_peers implies (#[trigger] self.received_of(x, s)) == Seq::<Seq<u8>>::empty() by {
                    if x == id {
                        assert(self.channels@[x] == chv);
                        assert(ch0 == old(self).channels@[id]);
                        assert(ch0.spec_peers() == old_peers);
                        assert(chv.log@.sent[s] == Seq::<Seq<u8>>::empty());
                        assert(chv.log@.received[s] == Seq::<Seq<u8>>::empty());
                        assert(self.sent_of(x, s) == chv.log@.sent[s]);
                        assert(self.received_of(x, s) == chv.log@.received[s]);
                    } else {
                        let j = choose|j: int|
                            0 <= j < i && (#[trigger] self.records@[j]).id == x;
                        assert(j != iprev);
                        assert(prev.records@[j].id == x);
                        assert(record_seen(prev.records@, iprev, x));
                        assert(prev.sent_of(x, s) == Seq::<Seq<u8>>::empty());
                        assert(prev.received_of(x, s) == Seq::<Seq<u8>>::empty());
                        assert(self.channels@[x] == prev.channels@[x]);
                        assert(self.sent_of(x, s) == prev.sent_of(x, s));
                        assert(self.received_of(x, s) == prev.received_of(x, s));
                    }
                }
                assert forall|j: int| 0 <= j < i implies (#[trigger] self.records@[j]).pushers
                    == new_peers by {}
            }
        }
        proof {
            assert forall|id: usize|
                self.channels@.contains_key(id) implies record_seen(
                self.records@,
                n as int,
                id,
            ) by {
                let j = choose|j: int|
                    0 <= j < old(self).records@.len() && (#[trigger] old(self).records@[j]).id
                        == id;
                assert(self.records@[j].id == id);
            }
        }
        Some((old_peers, new_peers))
    }

    /// Surface every staged ingress frame: a frame for a known channel from a
    /// known sender enters that channel and queues a `Pushed` event; any other
    /// frame is dropped (the channel may not be allocated yet — the event
    /// queue is a hint, not a ledger). Afterwards each channel has gained, in
    /// arrival order, exactly the staged payloads addressed to it.
    #[verifier::loop_isolation(false)]
    #[verifier::rlimit(100)]
    pub fn receive_staged(&mut self)
        requires
            old(self).inv(),
        ensures
            final(self).inv(),
            forall|id: usize|
                #[trigger] final(self).channels@.contains_key(id) == old(
                    self,
                ).channels@.contains_key(id),
            final(self).staged@.len() == 0,
            old(self).events@.is_prefix_of(final(self).events@),
            final(self).events@ =~= old(self).events@ + pushed_events(
                old(self).staged_views(),
                old(self).channels@.dom(),
                old(self).peers as int,
            ),
            *final(self) == (Generic {
                channels: final(self).channels,
                events: final(self).events,
                staged: final(self).staged,
                ..*old(self)
            }),
            forall|id: usize, s: int|
                old(self).channels@.contains_key(id) && 0 <= s < old(self).peers ==> (
                #[trigger] final(self).received_of(id, s)) == old(self).received_of(id, s),
            forall|id: usize, s: int|
                old(self).channels@.contains_key(id) && 0 <= s < old(self).peers ==> (
                #[trigger] final(self).sent_of(id, s)) =~= old(self).sent_of(id, s) + routed(
                    old(self).staged_views(),
                    id as u64,
                    s as u64,
                ),
    {
        loop
            invariant
                old(self).inv(),
                self.inv(),
                *self == (Generic {
                    channels: self.channels,
                    events: self.events,
                    staged: self.staged,
                    ..*old(self)
                }),
                forall|id: usize|
                    #[trigger] self.channels@.contains_key(id) == old(
                        self,
                    ).channels@.contains_key(id),
                old(self).events@.is_prefix_of(self.events@),
                old(self).events@ + pushed_events(
                    old(self).staged_views(),
                    old(self).channels@.dom(),
                    old(self).peers as int,
                ) =~= self.events@ + pushed_events(
                    self.staged_views(),
                    old(self).channels@.dom(),
                    old(self).peers as int,
                ),
                forall|id: usize, s: int|
                    old(self).channels@.contains_key(id) && 0 <= s < old(self).peers ==> (
                    #[trigger] self.received_of(id, s)) == old(self).received_of(id, s),
                forall|id: usize, s: int|
                    old(self).channels@.contains_key(id) && 0 <= s < old(self).peers ==> (
                    #[trigger] self.sent_of(id, s)) + routed(
                        self.staged_views(),
                        id as u64,
                        s as u64,
                    ) =~= old(self).sent_of(id, s) + routed(
                        old(self).staged_views(),
                        id as u64,
                        s as u64,
                    ),
            decreases self.staged@.len(),
        {
            let ghost prev = *self;
            let next = self.staged.pop_front();
            let f = match next {
                Some(f) => f,
                None => {
                    proof {
                        assert forall|id: usize, s: int|
                            old(self).channels@.contains_key(id) && 0 <= s < old(
                                self,
                            ).peers implies (#[trigger] self.sent_of(id, s)) =~= old(self).sent_of(
                            id,
                            s,
                        ) + routed(old(self).staged_views(), id as u64, s as u64) by {
                            assert(self.channels == prev.channels);
                            assert(self.sent_of(id, s) == prev.sent_of(id, s));
                            assert(prev.staged_views().len() == 0);
                            assert(routed(prev.staged_views(), id as u64, s as u64) == Seq::<
                                Seq<u8>,
                            >::empty());
                            assert(prev.sent_of(id, s) + routed(
                                prev.staged_views(),
                                id as u64,
                                s as u64,
                            ) =~= old(self).sent_of(id, s) + routed(
                                old(self).staged_views(),
                                id as u64,
                                s as u64,
                            ));
                            assert(prev.sent_of(id, s) + Seq::<Seq<u8>>::empty() =~= prev.sent_of(
                                id,
                                s,
                            ));
                        }
                        assert forall|id: usize, s: int|
                            old(self).channels@.contains_key(id) && 0 <= s < old(
                                self,
                            ).peers implies (#[trigger] self.received_of(id, s)) == old(
                            self,
                        ).received_of(id, s) by {
                            assert(self.channels == prev.channels);
                            assert(prev.received_of(id, s) == old(self).received_of(id, s));
                            assert(self.received_of(id, s) == prev.received_of(id, s));
                        }
                        assert(self.staged_views().len() == 0);
                        assert(pushed_events(
                            self.staged_views(),
                            old(self).channels@.dom(),
                            old(self).peers as int,
                        ) =~= Seq::<(usize, Event)>::empty());
                        assert(self.events@ + Seq::<(usize, Event)>::empty() =~= self.events@);
                        assert(self.events@ =~= old(self).events@ + pushed_events(
                            old(self).staged_views(),
                            old(self).channels@.dom(),
                            old(self).peers as int,
                        ));
                    }
                    return ;
                },
            };
            proof {
                assert forall|x: usize|
                    #[trigger] self.channels@.contains_key(x) == prev.channels@.contains_key(
                        x,
                    ) by {}
                lemma_records_wf_preserved(prev, *self);
                assert(prev.staged_views()[0] == f@);
                assert(self.staged_views() =~= prev.staged_views().skip(1));
            }
            let source_u64 = f.source;
            let chan_u64 = f.channel;
            let mut routed_here = false;
            if chan_u64 <= usize::MAX as u64 && source_u64 < self.peers as u64 {
                let id = chan_u64 as usize;
                let source = source_u64 as usize;
                if self.channels.contains_key(&id) {
                    let mut ch = self.channels.remove(&id).unwrap();
                    let ghost ch0 = ch;
                    ch.push(source, f.payload);
                    let ghost chv = ch;
                    self.channels.insert(id, ch);
                    self.events.push_back((id, Event::Pushed(1)));
                    routed_here = true;
                    proof {
                        let dom0 = old(self).channels@.dom();
                        let p0 = old(self).peers as int;
                        assert(f@.channel <= usize::MAX as u64 && dom0.contains(
                            f@.channel as usize,
                        ) && f@.source < p0 as u64);
                        assert(pushed_events(prev.staged_views(), dom0, p0) == seq![
                            ((f@.channel as usize), Event::Pushed(1)),
                        ] + pushed_events(prev.staged_views().skip(1), dom0, p0));
                        assert(self.events@ =~= prev.events@.push((id, Event::Pushed(1))));
                        assert(prev.events@.push((id, Event::Pushed(1))) + pushed_events(
                            self.staged_views(),
                            dom0,
                            p0,
                        ) =~= prev.events@ + (seq![((f@.channel as usize), Event::Pushed(1))]
                            + pushed_events(self.staged_views(), dom0, p0)));
                        assert(self.channels@ =~= prev.channels@.insert(id, chv));
                        assert forall|x: usize|
                            #[trigger] self.channels@.contains_key(x)
                                == prev.channels@.contains_key(x) by {}
                        lemma_records_wf_preserved(prev, *self);
                        assert forall|x: usize|
                            prev.channels@.contains_key(x) && x != id implies self.channels@[x]
                            == prev.channels@[x] by {}
                        assert forall|x: usize| self.channels@.contains_key(x) implies (
                        #[trigger] self.channels@[x]).wf() && self.channels@[x].spec_peers()
                            == self.peers by {
                            if x != id {
                                assert(self.channels@[x] == prev.channels@[x]);
                            }
                        }
                        assert forall|x: usize, s: int|
                            prev.channels@.contains_key(x) && 0 <= s < prev.peers implies
                            #[trigger] self.received_of(x, s) == prev.received_of(x, s) by {
                            if x != id {
                                assert(self.channels@[x] == prev.channels@[x]);
                            } else {
                                assert(chv.log@.received =~= ch0.log@.received);
                                assert(chv.log@.received[s] == ch0.log@.received[s]);
                            }
                        }
                        assert forall|x: usize, s: int|
                            old(self).channels@.contains_key(x) && 0 <= s < old(
                                self,
                            ).peers implies (#[trigger] self.sent_of(x, s)) + routed(
                            self.staged_views(),
                            x as u64,
                            s as u64,
                        ) =~= old(self).sent_of(x, s) + routed(
                            old(self).staged_views(),
                            x as u64,
                            s as u64,
                        ) by {
                            let c64 = x as u64;
                            let s64 = s as u64;
                            if x == id && s == source as int {
                                assert(ch0 == prev.channels@[id]);
                                assert(self.channels@[x] == chv);
                                assert(prev.sent_of(x, s) + routed(
                                    prev.staged_views(),
                                    c64,
                                    s64,
                                ) =~= old(self).sent_of(x, s) + routed(
                                    old(self).staged_views(),
                                    c64,
                                    s64,
                                ));
                                assert(self.sent_of(x, s) =~= prev.sent_of(x, s).push(
                                    f@.payload,
                                ));
                                assert(routed(prev.staged_views(), c64, s64) == seq![f@.payload]
                                    + routed(prev.staged_views().skip(1), c64, s64));
                                assert(prev.sent_of(x, s).push(f@.payload) + routed(
                                    self.staged_views(),
                                    c64,
                                    s64,
                                ) =~= prev.sent_of(x, s) + (seq![f@.payload] + routed(
                                    self.staged_views(),
                                    c64,
                                    s64,
                                )));
                            } else {
                                assert(prev.sent_of(x, s) + routed(
                                    prev.staged_views(),
                                    c64,
                                    s64,
                                ) =~= old(self).sent_of(x, s) + routed(
                                    old(self).staged_views(),
                                    c64,
                                    s64,
                                ));
                                if x != id {
                                    assert(self.channels@[x] == prev.channels@[x]);
                                } else {
                                    assert(chv.log@.sent[s] =~= ch0.log@.sent[s]);
                                    assert(self.sent_of(x, s) == chv.log@.sent[s]);
                                    assert(prev.sent_of(x, s) == ch0.log@.sent[s]);
                                }
                                assert(self.sent_of(x, s) == prev.sent_of(x, s));
                                assert(!(f@.channel == c64 && f@.source == s64));
                                assert(routed(prev.staged_views(), c64, s64) == routed(
                                    prev.staged_views().skip(1),
                                    c64,
                                    s64,
                                ));
                            }
                        }
                    }
                }
            }
            if !routed_here {
                proof {
                    let dom0 = old(self).channels@.dom();
                    let p0 = old(self).peers as int;
                    assert(!(f@.channel <= usize::MAX as u64 && dom0.contains(f@.channel as usize)
                        && f@.source < p0 as u64));
                    assert(pushed_events(prev.staged_views(), dom0, p0) == pushed_events(
                        prev.staged_views().skip(1),
                        dom0,
                        p0,
                    ));
                    assert(self.events@ == prev.events@);
                    assert forall|x: usize, s: int|
                        old(self).channels@.contains_key(x) && 0 <= s < old(self).peers implies (
                    #[trigger] self.sent_of(x, s)) + routed(self.staged_views(), x as u64, s as u64)
                        =~= old(self).sent_of(x, s) + routed(
                        old(self).staged_views(),
                        x as u64,
                        s as u64,
                    ) by {
                        let c64 = x as u64;
                        let s64 = s as u64;
                        assert(self.channels == prev.channels);
                        assert(self.sent_of(x, s) == prev.sent_of(x, s));
                        assert(prev.sent_of(x, s) + routed(prev.staged_views(), c64, s64)
                            =~= old(self).sent_of(x, s) + routed(
                            old(self).staged_views(),
                            c64,
                            s64,
                        ));
                        if f@.channel == c64 && f@.source == s64 {
                            assert(f@.channel <= usize::MAX as u64);
                            assert(f@.source < prev.peers as u64);
                            assert(prev.channels@.contains_key((f@.channel as usize)));
                            assert(false);
                        }
                        assert(routed(prev.staged_views(), c64, s64) == routed(
                            prev.staged_views().skip(1),
                            c64,
                            s64,
                        ));
                    }
                }
            }
            proof {
                assert forall|x: usize, s: int|
                    old(self).channels@.contains_key(x) && 0 <= s < old(self).peers implies (
                #[trigger] self.received_of(x, s)) == old(self).received_of(x, s) by {
                    assert(prev.received_of(x, s) == old(self).received_of(x, s));
                    if !routed_here {
                        assert(self.channels == prev.channels);
                    }
                    assert(self.received_of(x, s) == prev.received_of(x, s));
                }
                assert forall|x: usize|
                    #[trigger] self.channels@.contains_key(x) == prev.channels@.contains_key(
                        x,
                    ) by {}
                lemma_records_wf_preserved(prev, *self);
                assert(self.peers >= 1 && self.index < self.peers && self.threads >= 1);
                assert forall|x: usize| self.channels@.contains_key(x) implies (
                #[trigger] self.channels@[x]).wf() && self.channels@[x].spec_peers()
                    == self.peers by {
                    if !routed_here {
                        assert(self.channels == prev.channels);
                        assert(prev.channels@[x].wf());
                    }
                }
                assert forall|q: int|
                    0 <= q < self.merge_out@.len() implies (#[trigger] self.merge_out@[q]).wf() by {
                    assert(self.merge_out == prev.merge_out);
                    assert(prev.merge_out@[q].wf());
                }
                assert(self.inv());
            }
        }
    }

    /// Drain the queued `(channel, event)` notifications, oldest first.
    pub fn drain_events(&mut self) -> (evs: Vec<(usize, Event)>)
        requires
            old(self).inv(),
        ensures
            final(self).inv(),
            evs@ =~= old(self).events@,
            final(self).events@ =~= Seq::<(usize, Event)>::empty(),
            *final(self) == (Generic { events: final(self).events, ..*old(self) }),
    {
        let mut out: Vec<(usize, Event)> = Vec::new();
        loop
            invariant
                out@ + self.events@ =~= old(self).events@,
                *self == (Generic { events: self.events, ..*old(self) }),
                self.inv(),
            decreases self.events@.len(),
        {
            let next = self.events.pop_front();
            match next {
                Some(e) => {
                    out.push(e);
                    proof {
                        assert forall|x: usize|
                            #[trigger] self.channels@.contains_key(x) == old(
                                self,
                            ).channels@.contains_key(x) by {}
                        lemma_records_wf_preserved(*old(self), *self);
                    }
                },
                None => {
                    return out;
                },
            }
        }
    }
}

/// A proto-allocator that can be moved into a new worker thread and
/// completed there.
pub trait AllocateBuilder: Sized {
    /// The type of allocator to be built.
    type Allocator: Allocate;

    /// Whether the builder describes a buildable allocator.
    spec fn valid(&self) -> bool;

    /// Build the allocator, consuming the builder.
    fn build(self) -> (a: Self::Allocator)
        requires
            self.valid(),
        ensures
            a.wf(),
    ;
}

/// Builds the in-worker loopback allocator: one worker, no siblings.
pub struct ThreadBuilder;

/// Builds one of several allocators sharing an address space.
pub struct ProcessBuilder {
    /// This worker's index.
    pub index: usize,
    /// Number of workers in the process.
    pub peers: usize,
}

/// Builds an allocator whose remote links carry framed bytes.
pub struct ZeroCopyBuilder {
    /// This worker's index within its process.
    pub local_index: usize,
    /// Worker threads per process.
    pub threads: usize,
    /// This process's rank.
    pub process: usize,
    /// Number of processes.
    pub processes: usize,
    /// Slots in each merge queue.
    pub queue_bound: usize,
}

/// A builder for any of the three transport shapes.
pub enum GenericBuilder {
    /// Build the loopback shape.
    Thread(ThreadBuilder),
    /// Build the shared-queue shape.
    Process(ProcessBuilder),
    /// Build the framed-bytes shape.
    ZeroCopy(ZeroCopyBuilder),
}

impl AllocateBuilder for GenericBuilder {
    type Allocator = Generic;

    open spec fn valid(&self) -> bool {
        match self {
            GenericBuilder::Thread(_) => true,
            GenericBuilder::Process(b) => b.index < b.peers,
            GenericBuilder::ZeroCopy(b) => b.local_index < b.threads && b.process < b.processes
                && b.queue_bound >= 1 && b.threads * b.processes <= usize::MAX,
        }
    }

    fn build(self) -> (a: Generic)
        ensures
            a.inv(),
            forall|id: usize| !(#[trigger] a.spec_has_channel(id)),
            a.spec_events() =~= Seq::<(usize, Event)>::empty(),
            a.pending_peers == 0,
            a.staged@.len() == 0,
            a.outbox@.len() == 0,
            forall|p: int|
                0 <= p < a.merge_out@.len() ==> (#[trigger] a.merge_out@[p]).bufs@.len() == 0,
            forall|c: usize| #[trigger] a.spec_next_seqno(c) == 0,
            match self {
                GenericBuilder::Thread(_) => a.spec_index() == 0 && a.spec_peers() == 1,
                GenericBuilder::Process(b) => a.spec_index() == b.index && a.spec_peers()
                    == b.peers,
                GenericBuilder::ZeroCopy(b) => a.spec_index() == b.process * b.threads
                    + b.local_index && a.spec_peers() == b.threads * b.processes,
            },
    {
        match self {
            GenericBuilder::Thread(_) => Generic::new(TransportKind::Thread, 0, 1, 0, 1, 16),
            GenericBuilder::Process(b) => {
                let a = Generic::new(TransportKind::Process, b.index, b.peers, 0, 1, 16);
                a
            },
            GenericBuilder::ZeroCopy(b) => Generic::new(
                TransportKind::ZeroCopy,
                b.local_index,
                b.threads,
                b.process,
                b.processes,
                b.queue_bound,
            ),
        }
    }
}

} // verus!
