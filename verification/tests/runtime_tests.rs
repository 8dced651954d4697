//! Scenario tests for the runtime: loopback, sibling workers, framed bytes
//! between processes, rescale admission, empty payloads, and teardown.

use dataflow_runtime::Event;
use dataflow_runtime::allocator::{Allocate, AllocateBuilder, Generic, GenericBuilder,
    ProcessBuilder, Puller, Pusher, PusherList, ThreadBuilder, TransportKind, ZeroCopyBuilder};
use dataflow_runtime::logging::LogEvent;
use dataflow_runtime::progress::{ProgcasterClient, ProgcasterServer};
use dataflow_runtime::worker::{Schedule, Worker};

struct CountdownOp {
    remaining: usize,
}

impl Schedule for CountdownOp {
    fn schedule(&mut self) -> bool {
        if self.remaining > 0 {
            self.remaining -= 1;
            true
        } else {
            false
        }
    }

    fn path(&self) -> Vec<usize> {
        Vec::new()
    }

    fn name(&self) -> String {
        "countdown".to_string()
    }

    fn get_internal_summary(&mut self) {}

    fn set_external_summary(&mut self) {}

    fn get_progcasters_handles(&mut self) -> (Vec<ProgcasterClient>, Vec<ProgcasterServer>) {
        (Vec::new(), Vec::new())
    }
}

fn thread_allocator() -> Generic {
    GenericBuilder::Thread(ThreadBuilder).build()
}

#[test]
fn thread_loopback_delivers_hello() {
    // Config `Thread`: the worker allocates channel 0 and sends itself a
    // greeting; one receive/pull cycle surfaces exactly that message.
    let mut a = thread_allocator();
    assert_eq!(a.index(), 0);
    assert_eq!(a.peers(), 1);
    let mut sink = PusherList::new();
    let puller = a.allocate(0, &mut sink);
    assert_eq!(sink.pushers.len(), 1);
    let msg = "hello, 0".as_bytes().to_vec();
    assert!(a.push_to(sink.pushers[0], msg));
    a.receive();
    let got = a.pull_from(puller);
    let (source, payload) = got.expect("one message pending");
    assert_eq!(source, 0);
    assert_eq!(payload, "hello, 0".as_bytes().to_vec());
    assert!(a.pull_from(puller).is_none());
}

#[test]
fn two_worker_process_exchanges_greetings() {
    // Config `Process(2)`: worker i allocates channel 0 and sends `hi-i` to
    // every peer; after the outbox moves, each worker holds {hi-0, hi-1}.
    let mut a0 = GenericBuilder::Process(ProcessBuilder { index: 0, peers: 2 }).build();
    let mut a1 = GenericBuilder::Process(ProcessBuilder { index: 1, peers: 2 }).build();
    let mut s0 = PusherList::new();
    let p0 = a0.allocate(0, &mut s0);
    let mut s1 = PusherList::new();
    let p1 = a1.allocate(0, &mut s1);
    assert_eq!(s0.pushers.len(), 2);
    assert_eq!(s1.pushers.len(), 2);
    for t in 0..2 {
        assert!(a0.push_to(Pusher { channel: 0, target: t }, b"hi-0".to_vec()));
        assert!(a1.push_to(Pusher { channel: 0, target: t }, b"hi-1".to_vec()));
    }
    // The shared-queue fabric: move each worker's outbox to its sibling.
    for m in a0.take_outbox() {
        assert_eq!(m.dest, 1);
        a1.deliver(m.channel, 0, m.payload);
    }
    for m in a1.take_outbox() {
        assert_eq!(m.dest, 0);
        a0.deliver(m.channel, 1, m.payload);
    }
    a0.receive();
    a1.receive();
    let mut got0 = Vec::new();
    while let Some((_, m)) = a0.pull_from(p0) {
        got0.push(m);
    }
    let mut got1 = Vec::new();
    while let Some((_, m)) = a1.pull_from(p1) {
        got1.push(m);
    }
    got0.sort();
    got1.sort();
    assert_eq!(got0, vec![b"hi-0".to_vec(), b"hi-1".to_vec()]);
    assert_eq!(got1, vec![b"hi-0".to_vec(), b"hi-1".to_vec()]);
    a0.release();
    a1.release();
}

fn cluster_allocator(process: usize) -> Generic {
    GenericBuilder::ZeroCopy(ZeroCopyBuilder {
        local_index: 0,
        threads: 1,
        process,
        processes: 2,
        queue_bound: 16,
    })
    .build()
}

fn pump_bytes(from: &mut Generic, to: &mut Generic, dest_process: usize) {
    // The send and receive threads: drain one side's merge queue and feed the
    // bytes into the other side's ingress.
    for buf in from.extract_bytes(dest_process) {
        to.ingress(&buf).expect("well-formed frames");
    }
}

#[test]
fn two_process_cluster_delivers_in_order() {
    // Two processes of one worker each; each sends [0,1,2,3] to the other and
    // receives [0,1,2,3] in order.
    let mut a0 = cluster_allocator(0);
    let mut a1 = cluster_allocator(1);
    assert_eq!(a0.index(), 0);
    assert_eq!(a1.index(), 1);
    let mut s0 = PusherList::new();
    let p0 = a0.allocate(0, &mut s0);
    let mut s1 = PusherList::new();
    let p1 = a1.allocate(0, &mut s1);
    for v in 0u8..4 {
        assert!(a0.push_to(Pusher { channel: 0, target: 1 }, vec![v]));
        assert!(a1.push_to(Pusher { channel: 0, target: 0 }, vec![v]));
    }
    pump_bytes(&mut a0, &mut a1, 1);
    pump_bytes(&mut a1, &mut a0, 0);
    a0.receive();
    a1.receive();
    let mut got0 = Vec::new();
    while let Some((src, m)) = a0.pull_from(p0) {
        assert_eq!(src, 1);
        got0.push(m[0]);
    }
    let mut got1 = Vec::new();
    while let Some((src, m)) = a1.pull_from(p1) {
        assert_eq!(src, 0);
        got1.push(m[0]);
    }
    assert_eq!(got0, vec![0, 1, 2, 3]);
    assert_eq!(got1, vec![0, 1, 2, 3]);
}

#[test]
fn rescale_backfills_every_channel() {
    // After admission of a new peer, every channel allocated before admission
    // counts `new_peers` pushers in its registry record, and messages from
    // the newcomer are received.
    let mut a = cluster_allocator(0);
    let mut s0 = PusherList::new();
    let p0 = a.allocate(0, &mut s0);
    let mut s1 = PusherList::new();
    let _p1 = a.allocate(1, &mut s1);
    assert_eq!(a.records.len(), 2);
    for r in a.records.iter() {
        assert_eq!(r.pushers, 2);
    }
    assert!(a.rescale_admit().is_none());
    a.accept_peers(1);
    let grown = a.rescale_admit().expect("a peer was admitted");
    assert_eq!(grown, (2, 3));
    assert_eq!(a.peers(), 3);
    for r in a.records.iter() {
        assert_eq!(r.pushers, 3);
    }
    // A message from the admitted worker is routed like any other.
    a.deliver(0, 2, b"late".to_vec());
    let (src, m) = a.pull_from(p0).expect("message from the newcomer");
    assert_eq!(src, 2);
    assert_eq!(m, b"late".to_vec());
}

#[test]
fn rescale_is_a_no_op_off_the_network_shape() {
    // The loopback and shared-queue shapes never admit peers.
    let mut a = GenericBuilder::Process(ProcessBuilder { index: 0, peers: 2 }).build();
    a.accept_peers(1);
    assert!(a.rescale_admit().is_none());
    assert_eq!(a.peers(), 2);
}

#[test]
fn full_merge_queue_pushes_back() {
    // A remote send is refused while the destination queue is full, and
    // leaves the allocator unchanged; draining frees the slot.
    let mut a = GenericBuilder::ZeroCopy(ZeroCopyBuilder {
        local_index: 0,
        threads: 1,
        process: 0,
        processes: 2,
        queue_bound: 1,
    })
    .build();
    let mut s0 = PusherList::new();
    let _ = a.allocate(0, &mut s0);
    assert!(a.push_to(Pusher { channel: 0, target: 1 }, vec![1]));
    assert!(!a.push_to(Pusher { channel: 0, target: 1 }, vec![2]));
    assert_eq!(a.extract_bytes(1).len(), 1);
    assert!(a.push_to(Pusher { channel: 0, target: 1 }, vec![2]));
}

#[test]
fn empty_payload_routes_and_counts() {
    // A frame with length zero routes to the puller, queues `Pushed(1)`, and
    // the puller yields one empty message.
    let mut a0 = cluster_allocator(0);
    let mut a1 = cluster_allocator(1);
    let mut s1 = PusherList::new();
    let p1 = a1.allocate(0, &mut s1);
    assert!(a0.push_to(Pusher { channel: 0, target: 1 }, Vec::new()));
    pump_bytes(&mut a0, &mut a1, 1);
    a1.receive();
    let evs = a1.drain_events();
    assert_eq!(evs.len(), 1);
    assert_eq!(evs[0].0, 0);
    assert_eq!(evs[0].1, Event::Pushed(1));
    let (src, m) = a1.pull_from(p1).expect("the keep-alive frame");
    assert_eq!(src, 0);
    assert!(m.is_empty());
}

#[test]
fn dataflow_teardown_unregisters_channels() {
    // After the sole operator reports complete, the next step removes the
    // dataflow's channel ids from the path map, and re-allocating the same
    // ids succeeds.
    let a = thread_allocator();
    let mut w: Worker<Generic, CountdownOp> = Worker::new(a);
    let addr = vec![0usize, 1usize];
    let mut sink = PusherList::new();
    let puller: Puller = w.allocate(7, &addr, &mut sink);
    assert_eq!(puller.channel, 7);
    let index = w.dataflow(CountdownOp { remaining: 0 });
    assert_eq!(index, 0);
    assert!(w.paths.contains_key(&7));
    // Activate the dataflow by traffic on its channel.
    assert!(w.allocator.push_to(sink.pushers[0], b"x".to_vec()));
    let alive = w.step();
    assert!(!alive, "the sole dataflow completed");
    assert!(!w.paths.contains_key(&7));
    assert!(!w.dataflows.contains_key(&0));
    // The identifier is free again.
    let mut sink2 = PusherList::new();
    let _ = w.allocate(7, &addr, &mut sink2);
    assert!(w.paths.contains_key(&7));
}

#[test]
fn step_runs_incomplete_dataflows_until_done() {
    let a = thread_allocator();
    let mut w: Worker<Generic, CountdownOp> = Worker::new(a);
    let addr = vec![0usize];
    let mut sink = PusherList::new();
    let _ = w.allocate(3, &addr, &mut sink);
    let index = w.dataflow(CountdownOp { remaining: 2 });
    assert_eq!(index, 0);
    // Each message schedules one run; the operator needs three runs in all.
    assert!(w.allocator.push_to(sink.pushers[0], b"a".to_vec()));
    assert!(w.step(), "still incomplete after the first run");
    assert!(w.allocator.push_to(sink.pushers[0], b"b".to_vec()));
    assert!(w.step(), "still incomplete after the second run");
    assert!(w.allocator.push_to(sink.pushers[0], b"c".to_vec()));
    assert!(!w.step(), "complete after the third run");
}

#[test]
fn step_while_stops_when_pred_goes_false() {
    let a = thread_allocator();
    let mut w: Worker<Generic, CountdownOp> = Worker::new(a);
    let stopped = w.step_while(|| false, 10);
    assert!(stopped);
}

#[test]
fn event_counts_report_messages() {
    assert_eq!(Event::Pushed(3).count(), 3);
    assert_eq!(Event::Pulled(1).count(), 1);
}

#[test]
fn parking_is_logged_when_nothing_is_runnable() {
    let a = thread_allocator();
    let mut w: Worker<Generic, CountdownOp> = Worker::new(a);
    w.register_logger("runtime".to_owned());
    let _ = w.dataflow(CountdownOp { remaining: 5 });
    // No activation is pending, a dataflow exists, and the timeout is not
    // zero: the step parks (a hint in this model) and says so.
    let alive = w.step_or_park(Some(5));
    assert!(alive);
    let evs = &w.log_register().events;
    assert!(evs.iter().any(|e| matches!(e, LogEvent::Park(Some(5)))));
    assert!(evs.iter().any(|e| matches!(e, LogEvent::Unpark)));
    assert!(evs.iter().any(|e| matches!(e, LogEvent::Operates(_, _))));
}

#[test]
fn worker_identity_mirrors_allocator() {
    let a = Generic::new(TransportKind::Process, 1, 3, 0, 1, 16);
    let w: Worker<Generic, CountdownOp> = Worker::new(a);
    assert_eq!(w.index(), 1);
    assert_eq!(w.peers(), 3);
}

#[test]
fn new_identifiers_are_distinct() {
    let a = thread_allocator();
    let mut w: Worker<Generic, CountdownOp> = Worker::new(a);
    let a1 = w.new_identifier();
    let b1 = w.new_identifier();
    let c1 = w.new_identifier();
    assert_eq!((a1, b1, c1), (0, 1, 2));
}
