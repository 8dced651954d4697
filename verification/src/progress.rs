//! Progress broadcaster handles for bootstrap: the donor side serves a state
//! snapshot and per-sender ranges of raw update bytes; the joiner side
//! installs a transferred state, replays ranges, and applies the progress
//! messages stashed while bootstrap was in flight.

use vstd::prelude::*;

verus! {

/// The byte views of a list of update buffers.
pub open spec fn deep2(v: Seq<Vec<u8>>) -> Seq<Seq<u8>> {
    v.map_values(|u: Vec<u8>| u@)
}

/// The byte views of per-sender update lists.
pub open spec fn deep3(v: Seq<Vec<Vec<u8>>>) -> Seq<Seq<Seq<u8>>> {
    v.map_values(|w: Vec<Vec<u8>>| deep2(w@))
}

/// The observable state with `n` senders and nothing consumed.
pub open spec fn empty_obs(n: nat) -> Seq<Seq<Seq<u8>>> {
    Seq::new(n, |i: int| Seq::<Seq<u8>>::empty())
}

/// One replayed range: updates appended to one sender's history.
pub ghost struct RangeApply {
    /// The sender the updates came from.
    pub sender: int,
    /// The update bytes, in sequence order.
    pub updates: Seq<Seq<u8>>,
}

/// Append each range's updates to its sender, left to right. A range naming
/// an unknown sender changes nothing.
pub open spec fn apply_ranges(obs: Seq<Seq<Seq<u8>>>, rs: Seq<RangeApply>) -> Seq<Seq<Seq<u8>>>
    decreases rs.len(),
{
    if rs.len() == 0 {
        obs
    } else {
        let r = rs[0];
        let next = if 0 <= r.sender < obs.len() {
            obs.update(r.sender, obs[r.sender] + r.updates)
        } else {
            obs
        };
        apply_ranges(next, rs.skip(1))
    }
}

/// Replay composes: replaying `a` and then `b` is replaying `a + b`.
/// In particular, a state reached from the initial state by consuming a
/// snapshot's updates, then replayed with ranges, is observably the state
/// reached by consuming the snapshot's updates plus the ranges' updates from
/// the initial state.
pub proof fn lemma_replay_composition(obs: Seq<Seq<Seq<u8>>>, a: Seq<RangeApply>, b: Seq<
    RangeApply,
>)
    ensures
        apply_ranges(apply_ranges(obs, a), b) == apply_ranges(obs, a + b),
    decreases a.len(),
{
    if a.len() == 0 {
        assert(a + b =~= b);
        assert(apply_ranges(obs, a) == obs);
    } else {
        let r = a[0];
        let next = if 0 <= r.sender < obs.len() {
            obs.update(r.sender, obs[r.sender] + r.updates)
        } else {
            obs
        };
        assert((a + b).len() > 0);
        assert((a + b)[0] == r);
        assert((a + b).skip(1) =~= a.skip(1) + b);
        lemma_replay_composition(next, a.skip(1), b);
    }
}

/// Installing a snapshot of the donor and replaying nothing leaves the joiner
/// observably equal to the donor at snapshot time: the snapshot carries the
/// donor's observable state, installation adopts the snapshot's, and the two
/// equalities compose.
pub proof fn lemma_bootstrap_idempotence(
    donor_obs: Seq<Seq<Seq<u8>>>,
    snapshot_obs: Seq<Seq<Seq<u8>>>,
    installed_obs: Seq<Seq<Seq<u8>>>,
)
    requires
        snapshot_obs == donor_obs,
        installed_obs == apply_ranges(snapshot_obs, Seq::<RangeApply>::empty()),
    ensures
        installed_obs == donor_obs,
{
}

/// A snapshot of broadcaster state: per sender, the updates consumed so far,
/// in sequence order. (On the wire this is an opaque blob; the model carries
/// the bytes themselves.)
pub struct ProgcasterState {
    /// Per sender index, the consumed update buffers.
    pub applied: Vec<Vec<Vec<u8>>>,
}

impl ProgcasterState {
    /// The observable content of the snapshot.
    pub open spec fn obs(&self) -> Seq<Seq<Seq<u8>>> {
        deep3(self.applied@)
    }
}

/// Copy one update buffer.
fn copy_bytes(b: &Vec<u8>) -> (r: Vec<u8>)
    ensures
        r@ =~= b@,
{
    let mut r: Vec<u8> = Vec::new();
    let mut i: usize = 0;
    while i < b.len()
        invariant
            i <= b@.len(),
            r@ =~= b@.subrange(0, i as int),
        decreases b@.len() - i,
    {
        r.push(b[i]);
        i = i + 1;
        proof {
            assert(b@.subrange(0, i as int) =~= b@.subrange(0, i as int - 1).push(
                b@[i as int - 1],
            ));
        }
    }
    proof {
        assert(b@.subrange(0, b@.len() as int) =~= b@);
    }
    r
}

/// Copy a list of update buffers.
fn copy_blobs(v: &Vec<Vec<u8>>) -> (r: Vec<Vec<u8>>)
    ensures
        deep2(r@) =~= deep2(v@),
{
    let mut r: Vec<Vec<u8>> = Vec::new();
    let mut i: usize = 0;
    while i < v.len()
        invariant
            i <= v@.len(),
            r@.len() == i,
            forall|j: int| 0 <= j < i ==> (#[trigger] r@[j]@) =~= v@[j]@,
        decreases v@.len() - i,
    {
        r.push(copy_bytes(&v[i]));
        i = i + 1;
    }
    r
}

/// The donor-side handle of one scope's progress broadcaster: it can answer
/// "give me your current state" and "give me the raw update bytes for sender
/// `s` in sequence range `[lo, hi)`".
pub struct ProgcasterServer {
    /// The scope this broadcaster belongs to.
    pub scope_id: usize,
    /// Per sender index, every update consumed here, in sequence order: the
    /// update with sequence number `q` sits at position `q`.
    pub history: Vec<Vec<Vec<u8>>>,
}

impl ProgcasterServer {
    /// The donor's observable state.
    pub open spec fn obs(&self) -> Seq<Seq<Seq<u8>>> {
        deep3(self.history@)
    }

    /// A broadcaster that has seen `peers` senders and no updates.
    pub fn new(scope_id: usize, peers: usize) -> (r: ProgcasterServer)
        ensures
            r.scope_id == scope_id,
            r.obs() =~= empty_obs(peers as nat),
    {
        let mut history: Vec<Vec<Vec<u8>>> = Vec::new();
        let mut i: usize = 0;
        while i < peers
            invariant
                i <= peers,
                history@.len() == i,
                forall|j: int| 0 <= j < i ==> (#[trigger] history@[j]@).len() == 0,
            decreases peers - i,
        {
            history.push(Vec::new());
            i = i + 1;
        }
        let r = ProgcasterServer { scope_id, history };
        proof {
            assert forall|j: int| 0 <= j < peers implies r.obs()[j] =~= empty_obs(peers as nat)[j] by {
                assert(deep2(r.history@[j]@) =~= Seq::<Seq<u8>>::empty());
            }
        }
        r
    }

    /// Consume one update from `sender`: its sequence number is the number of
    /// updates consumed from that sender before it.
    #[verifier::loop_isolation(false)]
    pub fn record_update(&mut self, sender: usize, update: Vec<u8>)
        requires
            sender < old(self).history@.len(),
        ensures
            final(self).scope_id == old(self).scope_id,
            final(self).obs() =~= old(self).obs().update(
                sender as int,
                old(self).obs()[sender as int].push(update@),
            ),
    {
        let ghost uview = update@;
        let ghost old_w = self.history@[sender as int]@;
        let w = &mut self.history[sender];
        w.push(update);
        proof {
            assert(deep2(self.history@[sender as int]@) =~= deep2(old_w).push(uview));
            assert forall|j: int|
                0 <= j < self.history@.len() implies self.obs()[j] == (old(self).obs().update(
                sender as int,
                old(self).obs()[sender as int].push(uview),
            ))[j] by {
                if j == sender {
                    assert(self.obs()[j] =~= deep2(old_w).push(uview));
                } else {
                    assert(self.history@[j] == old(self).history@[j]);
                }
            }
        }
    }

    /// The number of updates consumed from one sender: the next expected
    /// sequence number.
    pub fn last_seqno(&self, sender: usize) -> (n: usize)
        requires
            sender < self.history@.len(),
        ensures
            n == self.obs()[sender as int].len(),
    {
        self.history[sender].len()
    }

    /// The donor's current state, to be installed by a joiner.
    pub fn snapshot(&self) -> (st: ProgcasterState)
        ensures
            st.obs() =~= self.obs(),
    {
        let mut applied: Vec<Vec<Vec<u8>>> = Vec::new();
        let mut i: usize = 0;
        while i < self.history.len()
            invariant
                i <= self.history@.len(),
                applied@.len() == i,
                forall|j: int| 0 <= j < i ==> (#[trigger] deep2(applied@[j]@)) =~= deep2(
                    self.history@[j]@,
                ),
            decreases self.history@.len() - i,
        {
            applied.push(copy_blobs(&self.history[i]));
            i = i + 1;
        }
        let st = ProgcasterState { applied };
        proof {
            assert forall|j: int| 0 <= j < st.applied@.len() implies st.obs()[j]
                =~= self.obs()[j] by {}
        }
        st
    }

    /// The raw update bytes for `sender` in sequence range `[lo, hi)`.
    pub fn get_updates_range(&self, sender: usize, lo: usize, hi: usize) -> (r: Vec<Vec<u8>>)
        requires
            sender < self.history@.len(),
            lo <= hi <= self.history@[sender as int]@.len(),
        ensures
            deep2(r@) =~= self.obs()[sender as int].subrange(lo as int, hi as int),
    {
        let w = &self.history[sender];
        let mut r: Vec<Vec<u8>> = Vec::new();
        let mut i: usize = lo;
        while i < hi
            invariant
                lo <= i <= hi <= w@.len(),
                w == &self.history@[sender as int],
                r@.len() == i - lo,
                forall|j: int| 0 <= j < i - lo ==> (#[trigger] r@[j]@) =~= w@[lo + j]@,
            decreases hi - i,
        {
            r.push(copy_bytes(&w[i]));
            i = i + 1;
        }
        r
    }
}

/// One progress message received on a live channel while bootstrap was in
/// flight, stashed for later.
pub struct StashedMsg {
    /// The sender's worker index.
    pub sender: usize,
    /// The message's per-sender sequence number.
    pub seqno: usize,
    /// The raw update bytes.
    pub update: Vec<u8>,
}

/// The value of a stashed message.
pub ghost struct StashedMsgView {
    /// The sender's worker index.
    pub sender: int,
    /// The message's per-sender sequence number.
    pub seqno: int,
    /// The raw update bytes.
    pub update: Seq<u8>,
}

impl View for StashedMsg {
    type V = StashedMsgView;

    open spec fn view(&self) -> StashedMsgView {
        StashedMsgView {
            sender: self.sender as int,
            seqno: self.seqno as int,
            update: self.update@,
        }
    }
}

/// The views of a stash.
pub open spec fn stash_views(s: Seq<StashedMsg>) -> Seq<StashedMsgView> {
    s.map_values(|m: StashedMsg| m@)
}

/// Apply stashed messages in arrival order, filtering against the installed
/// state: a message is applied only when its sequence number is exactly the
/// next one expected from its sender; anything older was already covered by
/// the snapshot or a replay, anything newer cannot be applied yet.
pub open spec fn stash_apply(obs: Seq<Seq<Seq<u8>>>, st: Seq<StashedMsgView>) -> Seq<
    Seq<Seq<u8>>,
>
    decreases st.len(),
{
    if st.len() == 0 {
        obs
    } else {
        let m = st[0];
        let next = if 0 <= m.sender < obs.len() && m.seqno == obs[m.sender].len() {
            obs.update(m.sender, obs[m.sender].push(m.update))
        } else {
            obs
        };
        stash_apply(next, st.skip(1))
    }
}

/// The joiner-side handle of one scope's progress broadcaster: it installs a
/// transferred state, applies replayed ranges, and stashes live progress
/// messages until bootstrap completes.
pub struct ProgcasterClient {
    /// The scope this broadcaster belongs to.
    pub scope_id: usize,
    /// Per sender index, the updates consumed so far, in sequence order.
    pub applied: Vec<Vec<Vec<u8>>>,
    /// Messages received on live channels while bootstrap is in flight.
    pub stashed: Vec<StashedMsg>,
}

impl ProgcasterClient {
    /// The joiner's observable state.
    pub open spec fn obs(&self) -> Seq<Seq<Seq<u8>>> {
        deep3(self.applied@)
    }

    /// A client that has installed nothing yet.
    pub fn new(scope_id: usize) -> (r: ProgcasterClient)
        ensures
            r.scope_id == scope_id,
            r.obs() =~= Seq::<Seq<Seq<u8>>>::empty(),
            r.stashed@ =~= Seq::<StashedMsg>::empty(),
    {
        ProgcasterClient { scope_id, applied: Vec::new(), stashed: Vec::new() }
    }

    /// Install a transferred state: the joiner becomes observably the state
    /// carried by the snapshot. The stash is kept.
    pub fn set_progcaster_state(&mut self, state: ProgcasterState)
        ensures
            final(self).scope_id == old(self).scope_id,
            final(self).obs() =~= state.obs(),
            final(self).stashed@ =~= old(self).stashed@,
    {
        self.applied = state.applied;
    }

    /// The sender indices covered by the installed state.
    pub fn get_worker_indices(&self) -> (r: Vec<usize>)
        ensures
            r@.len() == self.obs().len(),
            forall|j: int| 0 <= j < r@.len() ==> (#[trigger] r@[j]) == j,
    {
        let mut r: Vec<usize> = Vec::new();
        let mut i: usize = 0;
        while i < self.applied.len()
            invariant
                i <= self.applied@.len(),
                r@.len() == i,
                forall|j: int| 0 <= j < i ==> (#[trigger] r@[j]) == j,
            decreases self.applied@.len() - i,
        {
            r.push(i);
            i = i + 1;
        }
        r
    }

    /// The next sequence number expected from one sender.
    pub fn next_expected(&self, sender: usize) -> (n: usize)
        requires
            sender < self.obs().len(),
        ensures
            n == self.obs()[sender as int].len(),
    {
        self.applied[sender].len()
    }

    /// Stash one live progress message while bootstrap is in flight.
    pub fn stash_progress_msg(&mut self, sender: usize, seqno: usize, update: Vec<u8>)
        ensures
            final(self).scope_id == old(self).scope_id,
            final(self).obs() =~= old(self).obs(),
            final(self).stashed@ =~= old(self).stashed@.push(
                StashedMsg { sender, seqno, update },
            ),
    {
        self.stashed.push(StashedMsg { sender, seqno, update });
    }

    /// The sequence number of the earliest stashed message from one sender,
    /// if any: the first live sequence number observed, which bounds the
    /// replay range to request from the donor.
    pub fn first_stashed_seqno(&self, sender: usize) -> (r: Option<usize>)
        ensures
            match r {
                Some(q) => exists|j: int|
                    0 <= j < self.stashed@.len() && (#[trigger] self.stashed@[j])@.sender
                        == sender as int && self.stashed@[j]@.seqno == q as int && forall|k: int|
                        0 <= k < j ==> (#[trigger] self.stashed@[k])@.sender != sender as int,
                None => forall|j: int|
                    0 <= j < self.stashed@.len() ==> (#[trigger] self.stashed@[j])@.sender
                        != sender as int,
            },
    {
        let mut i: usize = 0;
        while i < self.stashed.len()
            invariant
                i <= self.stashed@.len(),
                forall|k: int|
                    0 <= k < i ==> (#[trigger] self.stashed@[k])@.sender != sender as int,
            decreases self.stashed@.len() - i,
        {
            if self.stashed[i].sender == sender {
                let q = self.stashed[i].seqno;
                proof {
                    assert(self.stashed@[i as int]@.sender == sender as int);
                }
                return Some(q);
            }
            i = i + 1;
        }
        None
    }

    /// Append a replayed range of updates from one sender, which must start
    /// exactly at the next expected sequence number. Byte order equals
    /// original sequence order.
    #[verifier::loop_isolation(false)]
    pub fn apply_updates_range(&mut self, sender: usize, lo: usize, updates: Vec<Vec<u8>>)
        requires
            sender < old(self).obs().len(),
            lo == old(self).obs()[sender as int].len(),
        ensures
            final(self).scope_id == old(self).scope_id,
            final(self).obs() =~= apply_ranges(
                old(self).obs(),
                seq![RangeApply { sender: sender as int, updates: deep2(updates@) }],
            ),
            final(self).obs()[sender as int] =~= old(self).obs()[sender as int] + deep2(updates@),
            final(self).stashed@ =~= old(self).stashed@,
    {
        let ghost old_w = self.applied@[sender as int]@;
        let mut updates = updates;
        let w = &mut self.applied[sender];
        let ghost uviews = deep2(updates@);
        let n = updates.len();
        let mut i: usize = 0;
        while i < n
            invariant
                i <= n,
                n == uviews.len(),
                updates@.len() == n - i,
                forall|j: int| 0 <= j < n - i ==> (#[trigger] updates@[j]@) == uviews[i + j],
                deep2(w@) =~= deep2(old_w) + uviews.subrange(0, i as int),
            decreases n - i,
        {
            let u = updates.remove(0);
            w.push(u);
            i = i + 1;
            proof {
                assert(deep2(w@) =~= (deep2(old_w) + uviews.subrange(0, i as int - 1)).push(
                    uviews[i as int - 1],
                ));
                assert((deep2(old_w) + uviews.subrange(0, i as int - 1)).push(uviews[i as int - 1])
                    =~= deep2(old_w) + uviews.subrange(0, i as int));
            }
        }
        proof {
            assert(uviews.subrange(0, n as int) =~= uviews);
            let target = apply_ranges(
                old(self).obs(),
                seq![RangeApply { sender: sender as int, updates: uviews }],
            );
            let rs = seq![RangeApply { sender: sender as int, updates: uviews }];
            assert(rs.len() == 1);
            assert(rs[0] == RangeApply { sender: sender as int, updates: uviews });
            assert(rs.skip(1).len() == 0);
            let next = old(self).obs().update(sender as int, old(self).obs()[sender as int] + uviews);
            assert(apply_ranges(next, rs.skip(1)) == next);
            assert(target == next);
            assert forall|j: int| 0 <= j < self.applied@.len() implies self.obs()[j]
                == target[j] by {
                if j == sender {
                    assert(self.obs()[j] =~= deep2(old_w) + uviews);
                } else {
                    assert(self.applied@[j] == old(self).applied@[j]);
                }
            }
        }
    }

    /// Apply the stashed messages in arrival order, filtered against the
    /// installed state, and clear the stash. Updates installed via replay
    /// precede stashed-message application.
    #[verifier::loop_isolation(false)]
    pub fn apply_stashed_progress_msgs(&mut self)
        ensures
            final(self).scope_id == old(self).scope_id,
            final(self).obs() =~= stash_apply(old(self).obs(), stash_views(old(self).stashed@)),
            final(self).stashed@ =~= Seq::<StashedMsg>::empty(),
    {
        let ghost all = stash_views(self.stashed@);
        let ghost obs0 = self.obs();
        let n = self.stashed.len();
        let mut i: usize = 0;
        while i < n
            invariant
                i <= n,
                n == all.len(),
                self.scope_id == old(self).scope_id,
                self.stashed@.len() == n - i,
                forall|j: int| 0 <= j < n - i ==> (#[trigger] self.stashed@[j])@ == all[i + j],
                stash_apply(obs0, all) == stash_apply(self.obs(), stash_views(self.stashed@)),
                obs0 == old(self).obs(),
            decreases n - i,
        {
            let ghost prev_obs = self.obs();
            let ghost prev_stash = stash_views(self.stashed@);
            let m = self.stashed.remove(0);
            let apply_it = m.sender < self.applied.len() && {
                let w = &self.applied[m.sender];
                m.seqno == w.len()
            };
            proof {
                assert(prev_stash[0] == m@);
                assert(stash_views(self.stashed@) =~= prev_stash.skip(1));
            }
            if apply_it {
                let ghost prev_applied = self.applied@;
                let ghost old_w = self.applied@[m.sender as int]@;
                let sender = m.sender;
                let w = &mut self.applied[sender];
                w.push(m.update);
                proof {
                    assert(deep2(self.applied@[sender as int]@) =~= deep2(old_w).push(m@.update));
                    let stepped = prev_obs.update(
                        m@.sender,
                        prev_obs[m@.sender].push(m@.update),
                    );
                    assert forall|j: int| 0 <= j < self.applied@.len() implies self.obs()[j]
                        == stepped[j] by {
                        if j != sender {
                            assert(self.applied@[j] == prev_applied[j]);
                        }
                    }
                    assert(self.obs() =~= stepped);
                    assert(stash_apply(prev_obs, prev_stash) == stash_apply(
                        stepped,
                        prev_stash.skip(1),
                    ));
                }
            } else {
                proof {
                    assert(!(0 <= m@.sender < prev_obs.len() && m@.seqno
                        == prev_obs[m@.sender].len()));
                    assert(stash_apply(prev_obs, prev_stash) == stash_apply(
                        prev_obs,
                        prev_stash.skip(1),
                    ));
                }
            }
            i = i + 1;
        }
        proof {
            assert(stash_views(self.stashed@).len() == 0);
        }
    }
}

} // verus!
