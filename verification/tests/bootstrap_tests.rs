//! Tests of the progress broadcaster handles and the joiner's bootstrap:
//! snapshot installation, range replay, stash filtering, and the
//! sender-coverage deadline.

use dataflow_runtime::allocator::{AllocateBuilder, Generic, GenericBuilder, ThreadBuilder};
use dataflow_runtime::progress::{ProgcasterClient, ProgcasterServer, ProgcasterState};
use dataflow_runtime::worker::{BootstrapEndpoint, BootstrapError, Schedule, UpdatesRange, Worker};

struct IdleOp;

impl Schedule for IdleOp {
    fn schedule(&mut self) -> bool {
        false
    }

    fn path(&self) -> Vec<usize> {
        Vec::new()
    }

    fn name(&self) -> String {
        "idle".to_string()
    }

    fn get_internal_summary(&mut self) {}

    fn set_external_summary(&mut self) {}

    fn get_progcasters_handles(&mut self) -> (Vec<ProgcasterClient>, Vec<ProgcasterServer>) {
        (Vec::new(), Vec::new())
    }
}

/// An in-memory donor: serves the state snapshot taken when the newcomer
/// connected, and answers range requests from the live broadcaster, like the
/// bootstrap server thread does over the socket.
struct InMemoryDonor {
    server: ProgcasterServer,
    snapshot: ProgcasterState,
    last_request: Option<UpdatesRange>,
}

impl BootstrapEndpoint for InMemoryDonor {
    fn recv_progcaster_states(&mut self) -> Vec<(usize, ProgcasterState)> {
        let copy = ProgcasterState { applied: self.snapshot.applied.clone() };
        vec![(self.server.scope_id, copy)]
    }

    fn send_range_request(&mut self, req: &UpdatesRange) {
        self.last_request = Some(*req);
    }

    fn recv_range_response(&mut self) -> Vec<Vec<u8>> {
        let req = self.last_request.expect("a request precedes every response");
        self.server.get_updates_range(req.sender, req.lo, req.hi)
    }
}

fn donor_with_updates(scope: usize, per_sender: &[&[&[u8]]]) -> ProgcasterServer {
    let mut s = ProgcasterServer::new(scope, per_sender.len());
    for (sender, updates) in per_sender.iter().enumerate() {
        for u in updates.iter() {
            s.record_update(sender, u.to_vec());
        }
    }
    s
}

#[test]
fn snapshot_install_matches_donor() {
    // Bootstrap idempotence on concrete values: installing a snapshot and
    // replaying nothing leaves the joiner observably equal to the donor.
    let donor = donor_with_updates(4, &[&[b"a0", b"a1"], &[b"b0"]]);
    let mut client = ProgcasterClient::new(4);
    client.set_progcaster_state(donor.snapshot());
    assert_eq!(client.applied, donor.history);
}

#[test]
fn replay_composes_with_snapshot() {
    // Replay composition on concrete values: installing a snapshot of three
    // updates, then replaying the two that followed, equals having consumed
    // all five from the initial state.
    let mut donor = ProgcasterServer::new(9, 1);
    donor.record_update(0, b"u0".to_vec());
    donor.record_update(0, b"u1".to_vec());
    donor.record_update(0, b"u2".to_vec());
    let snapshot = donor.snapshot();
    donor.record_update(0, b"u3".to_vec());
    donor.record_update(0, b"u4".to_vec());
    let mut client = ProgcasterClient::new(9);
    client.set_progcaster_state(snapshot);
    assert_eq!(client.next_expected(0), 3);
    let replay = donor.get_updates_range(0, 3, 5);
    client.apply_updates_range(0, 3, replay);
    assert_eq!(client.applied, donor.history);
}

#[test]
fn stash_applies_in_order_and_filters_duplicates() {
    let mut client = ProgcasterClient::new(2);
    let mut st = ProgcasterState { applied: vec![vec![b"s0".to_vec()]] };
    st.applied[0].push(b"s1".to_vec());
    client.set_progcaster_state(st);
    // Sequence number 1 is already covered; 2 and 3 apply in order; 5 has a
    // gap and must wait for a replay, so it is dropped by the filter.
    client.stash_progress_msg(0, 1, b"dup".to_vec());
    client.stash_progress_msg(0, 2, b"s2".to_vec());
    client.stash_progress_msg(0, 3, b"s3".to_vec());
    client.stash_progress_msg(0, 5, b"gap".to_vec());
    client.apply_stashed_progress_msgs();
    assert_eq!(
        client.applied,
        vec![vec![b"s0".to_vec(), b"s1".to_vec(), b"s2".to_vec(), b"s3".to_vec()]]
    );
    assert!(client.stashed.is_empty());
}

#[test]
fn bootstrap_replays_missing_range_then_stash() {
    // The donor consumed five updates; the snapshot was taken at three; the
    // joiner observed only the fifth live. Bootstrap requests [3, 4) from the
    // donor, applies it, then applies the stashed fifth.
    let mut server = ProgcasterServer::new(0, 1);
    for u in [b"u0", b"u1", b"u2"] {
        server.record_update(0, u.to_vec());
    }
    let snapshot = server.snapshot();
    server.record_update(0, b"u3".to_vec());
    server.record_update(0, b"u4".to_vec());
    let expected = server.history.clone();

    let mut donor = InMemoryDonor { server, snapshot, last_request: None };
    // The joiner: one worker whose sole scope gets the snapshot late.
    let a = GenericBuilder::Thread(ThreadBuilder).build();
    let mut w: Worker<Generic, IdleOp> = Worker::new(a);
    let mut client = ProgcasterClient::new(0);
    client.stash_progress_msg(0, 4, b"u4".to_vec());
    w.progcaster_client_handles.push(client);

    w.bootstrap(&mut donor, 4).expect("bootstrap completes");
    assert_eq!(
        donor.last_request,
        Some(UpdatesRange { scope_id: 0, sender: 0, lo: 3, hi: 4 })
    );
    assert_eq!(w.progcaster_client_handles[0].applied, expected);
    assert!(w.progcaster_client_handles[0].stashed.is_empty());
}

#[test]
fn bootstrap_reports_uncovered_sender() {
    // A sender that stays quiescent past the deadline surfaces as an error.
    let server = ProgcasterServer::new(0, 1);
    let snapshot = server.snapshot();
    let mut donor = InMemoryDonor { server, snapshot, last_request: None };
    let a = GenericBuilder::Thread(ThreadBuilder).build();
    let mut w: Worker<Generic, IdleOp> = Worker::new(a);
    let mut client = ProgcasterClient::new(0);
    let st = ProgcasterState { applied: vec![Vec::new()] };
    client.set_progcaster_state(st);
    w.progcaster_client_handles.push(client);
    let r = w.bootstrap(&mut donor, 3);
    assert_eq!(r, Err(BootstrapError::SenderUncovered));
}

#[test]
fn worker_indices_cover_installed_state() {
    let donor = donor_with_updates(1, &[&[], &[b"x"], &[]]);
    let mut client = ProgcasterClient::new(1);
    client.set_progcaster_state(donor.snapshot());
    assert_eq!(client.get_worker_indices(), vec![0, 1, 2]);
}
