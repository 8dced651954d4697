//! The in-memory model of one many-to-one channel: one receive endpoint
//! (the puller) fed by one queue per sending peer.
//!
//! Every channel keeps a ghost log of what each sender pushed and what the
//! puller has taken out, so that delivery (no loss, no duplication) and
//! per-sender order can be stated and proved.

use vstd::prelude::*;
use std::collections::VecDeque;

verus! {

/// The ghost history of a channel: per sender, the messages pushed into the
/// channel and the messages the puller has received from that sender.
pub ghost struct ChannelLog {
    /// For each sender index, the payloads pushed, in push order.
    pub sent: Seq<Seq<Seq<u8>>>,
    /// For each sender index, the payloads the puller received, in receive order.
    pub received: Seq<Seq<Seq<u8>>>,
}

/// The payload views of a queue of byte buffers.
pub open spec fn views_of(q: Seq<Vec<u8>>) -> Seq<Seq<u8>> {
    q.map_values(|m: Vec<u8>| m@)
}

/// One channel: a pending queue per sender, plus the ghost history.
pub struct ChannelState {
    /// Pending (pushed, not yet pulled) payloads, one queue per sender.
    pub queues: Vec<VecDeque<Vec<u8>>>,
    /// The ghost history of pushes and pulls.
    pub log: Ghost<ChannelLog>,
}

impl ChannelState {
    /// Number of peers that may send on this channel.
    pub open spec fn spec_peers(&self) -> int {
        self.queues@.len() as int
    }

    /// The queues cover every sender, and each sender's sent history is its
    /// received history followed by what is still pending.
    pub open spec fn wf(&self) -> bool {
        &&& self.log@.sent.len() == self.queues@.len()
        &&& self.log@.received.len() == self.queues@.len()
        &&& forall|s: int|
            0 <= s < self.queues@.len() ==> self.log@.sent[s] == self.log@.received[s]
                + views_of(#[trigger] self.queues@[s]@)
    }

    /// A fresh channel among `peers` senders: nothing sent, nothing received.
    pub fn new(peers: usize) -> (ch: ChannelState)
        ensures
            ch.wf(),
            ch.spec_peers() == peers,
            forall|s: int| 0 <= s < peers ==> (#[trigger] ch.log@.sent[s]) =~= Seq::<Seq<u8>>::empty(),
            forall|s: int|
                0 <= s < peers ==> (#[trigger] ch.log@.received[s]) =~= Seq::<Seq<u8>>::empty(),
    {
        let mut queues: Vec<VecDeque<Vec<u8>>> = Vec::new();
        let mut s: usize = 0;
        while s < peers
            invariant
                s <= peers,
                queues@.len() == s,
                forall|i: int| 0 <= i < s ==> (#[trigger] queues@[i]@) =~= Seq::<Vec<u8>>::empty(),
            decreases peers - s,
        {
            queues.push(VecDeque::new());
            s = s + 1;
        }
        let ghost log = ChannelLog {
            sent: Seq::new(peers as nat, |i: int| Seq::<Seq<u8>>::empty()),
            received: Seq::new(peers as nat, |i: int| Seq::<Seq<u8>>::empty()),
        };
        let ch = ChannelState { queues, log: Ghost(log) };
        proof {
            assert forall|s: int| 0 <= s < peers implies ch.log@.sent[s] == ch.log@.received[s]
                + views_of(#[trigger] ch.queues@[s]@) by {
                assert(views_of(ch.queues@[s]@) =~= Seq::<Seq<u8>>::empty());
                assert(ch.log@.sent[s] =~= ch.log@.received[s] + views_of(ch.queues@[s]@));
            }
        }
        ch
    }

    /// A sender pushes one payload: it is appended to that sender's pending
    /// queue and to that sender's sent history; everything else is unchanged.
    pub fn push(&mut self, sender: usize, msg: Vec<u8>)
        requires
            old(self).wf(),
            sender < old(self).spec_peers(),
        ensures
            final(self).wf(),
            final(self).spec_peers() == old(self).spec_peers(),
            final(self).log@.sent[sender as int] =~= old(self).log@.sent[sender as int].push(msg@),
            final(self).log@.received =~= old(self).log@.received,
            forall|s: int|
                0 <= s < final(self).spec_peers() && s != sender ==> (#[trigger] final(self).log@.sent[s])
                    =~= old(self).log@.sent[s],
    {
        let ghost msg_view = msg@;
        let ghost old_q = self.queues@[sender as int]@;
        let q = &mut self.queues[sender];
        q.push_back(msg);
        proof {
            let log0 = self.log@;
            self.log = Ghost(
                ChannelLog {
                    sent: log0.sent.update(sender as int, log0.sent[sender as int].push(msg_view)),
                    received: log0.received,
                },
            );
            assert forall|s: int|
                0 <= s < self.queues@.len() implies self.log@.sent[s] == self.log@.received[s]
                + views_of(#[trigger] self.queues@[s]@) by {
                if s == sender {
                    assert(self.queues@[s]@ =~= old_q.push(
                        self.queues@[s]@[self.queues@[s]@.len() - 1],
                    ));
                    assert(views_of(self.queues@[s]@) =~= views_of(old_q).push(msg_view));
                    assert(self.log@.sent[s] =~= self.log@.received[s] + views_of(
                        self.queues@[s]@,
                    ));
                } else {
                }
            }
        }
    }

    /// The puller takes the next pending payload, scanning senders from
    /// index zero upward. The payload returned is exactly the next unreceived
    /// entry of that sender's sent history.
    pub fn pull(&mut self) -> (r: Option<(usize, Vec<u8>)>)
        requires
            old(self).wf(),
        ensures
            final(self).wf(),
            final(self).spec_peers() == old(self).spec_peers(),
            final(self).log@.sent =~= old(self).log@.sent,
            match r {
                Some((s, m)) => {
                    &&& (s as int) < final(self).spec_peers()
                    &&& old(self).log@.received[s as int].len() < old(self).log@.sent[s as int].len()
                    &&& m@ == old(self).log@.sent[s as int][old(self).log@.received[s as int].len() as int]
                    &&& final(self).log@.received[s as int] =~= old(self).log@.received[s as int].push(m@)
                    &&& forall|t: int|
                        0 <= t < final(self).spec_peers() && t != s ==> (#[trigger] final(self).log@.received[t])
                            =~= old(self).log@.received[t]
                },
                None => {
                    &&& final(self).log@.received =~= old(self).log@.received
                    &&& forall|s: int|
                        0 <= s < final(self).spec_peers() ==> (#[trigger] final(self).queues@[s]@).len() == 0
                },
            },
    {
        let mut s: usize = 0;
        let n = self.queues.len();
        while s < n
            invariant
                old(self).wf(),
                self.wf(),
                self == old(self),
                s <= n,
                n == self.queues@.len(),
                forall|t: int| 0 <= t < s ==> (#[trigger] self.queues@[t]@).len() == 0,
            decreases n - s,
        {
            let ghost old_q = self.queues@[s as int]@;
            if self.queues[s].len() > 0 {
                let q = &mut self.queues[s];
                let m = q.pop_front();
                match m {
                    Some(m) => {
                        proof {
                            let log0 = self.log@;
                            self.log = Ghost(
                                ChannelLog {
                                    sent: log0.sent,
                                    received: log0.received.update(
                                        s as int,
                                        log0.received[s as int].push(m@),
                                    ),
                                },
                            );
                            assert(views_of(old_q)[0] == m@);
                            assert(views_of(self.queues@[s as int]@) =~= views_of(old_q).subrange(
                                1,
                                views_of(old_q).len() as int,
                            ));
                            assert(old(self).log@.sent[s as int][old(self).log@.received[s as int].len() as int]
                                == m@);
                            assert forall|t: int|
                                0 <= t < self.queues@.len() implies self.log@.sent[t]
                                == self.log@.received[t] + views_of(#[trigger] self.queues@[t]@) by {
                                if t == s {
                                    assert(self.log@.sent[t] =~= self.log@.received[t] + views_of(
                                        self.queues@[t]@,
                                    ));
                                }
                            }
                        }
                        return Some((s, m));
                    },
                    None => {
                        proof {
                            assert(false);
                        }
                    },
                }
            }
            s = s + 1;
        }
        None
    }

    /// Admit senders so that there are `new_peers` of them: new senders start
    /// with empty queues and empty histories; existing histories are kept.
    pub fn grow_peers(&mut self, new_peers: usize)
        requires
            old(self).wf(),
            old(self).spec_peers() <= new_peers,
        ensures
            final(self).wf(),
            final(self).spec_peers() == new_peers,
            forall|s: int|
                0 <= s < old(self).spec_peers() ==> (#[trigger] final(self).log@.sent[s]) == old(
                    self,
                ).log@.sent[s],
            forall|s: int|
                0 <= s < old(self).spec_peers() ==> (#[trigger] final(self).log@.received[s])
                    == old(self).log@.received[s],
            forall|s: int|
                old(self).spec_peers() <= s < new_peers ==> (#[trigger] final(self).log@.sent[s])
                    == Seq::<Seq<u8>>::empty(),
            forall|s: int|
                old(self).spec_peers() <= s < new_peers ==> (#[trigger] final(self).log@.received[s]) == Seq::<Seq<u8>>::empty(),
    {
        let ghost old_peers = self.queues@.len() as int;
        while self.queues.len() < new_peers
            invariant
                old_peers == old(self).queues@.len() as int,
                old_peers <= self.queues@.len() <= new_peers,
                self.log == old(self).log,
                forall|i: int| 0 <= i < old_peers ==> self.queues@[i] == old(self).queues@[i],
                forall|i: int|
                    old_peers <= i < self.queues@.len() ==> (#[trigger] self.queues@[i]@).len()
                        == 0,
            decreases new_peers - self.queues.len(),
        {
            let fresh: VecDeque<Vec<u8>> = VecDeque::new();
            assert(fresh@.len() == 0);
            self.queues.push(fresh);
        }
        proof {
            let log0 = old(self).log@;
            let added = (new_peers - old_peers) as nat;
            self.log = Ghost(
                ChannelLog {
                    sent: log0.sent + Seq::new(added, |i: int| Seq::<Seq<u8>>::empty()),
                    received: log0.received + Seq::new(added, |i: int| Seq::<Seq<u8>>::empty()),
                },
            );
            assert forall|s: int|
                0 <= s < self.queues@.len() implies self.log@.sent[s] == self.log@.received[s]
                + views_of(#[trigger] self.queues@[s]@) by {
                if s < old_peers {
                    assert(self.log@.sent[s] == log0.sent[s]);
                    assert(self.log@.received[s] == log0.received[s]);
                    assert(self.queues@[s] == old(self).queues@[s]);
                } else {
                    assert(self.log@.sent[s] == Seq::<Seq<u8>>::empty());
                    assert(self.log@.received[s] == Seq::<Seq<u8>>::empty());
                    assert(views_of(self.queues@[s]@) =~= Seq::<Seq<u8>>::empty());
                    assert(self.log@.sent[s] =~= self.log@.received[s] + views_of(
                        self.queues@[s]@,
                    ));
                }
            }
        }
    }

    /// Number of payloads still pending from one sender.
    pub fn pending_from(&self, sender: usize) -> (n: usize)
        requires
            sender < self.spec_peers(),
        ensures
            n == self.queues@[sender as int]@.len(),
    {
        self.queues[sender].len()
    }
}

/// Per-sender order is kept: what the puller has received from a sender is
/// always a prefix of what that sender pushed.
pub proof fn lemma_per_sender_fifo(ch: &ChannelState, s: int)
    requires
        ch.wf(),
        0 <= s < ch.spec_peers(),
    ensures
        ch.log@.received[s].is_prefix_of(ch.log@.sent[s]),
{
    assert(ch.log@.sent[s] == ch.log@.received[s] + views_of(ch.queues@[s]@));
    assert(ch.log@.received[s] =~= ch.log@.sent[s].subrange(0, ch.log@.received[s].len() as int));
}

/// A drained channel delivered everything: once no payload is pending from
/// any sender, the received history equals the sent history exactly — no
/// loss, no duplication, per-sender order preserved.
pub proof fn lemma_drained_delivers_all(ch: &ChannelState)
    requires
        ch.wf(),
        forall|s: int| 0 <= s < ch.spec_peers() ==> (#[trigger] ch.queues@[s]@).len() == 0,
    ensures
        ch.log@.received =~~= ch.log@.sent,
{
    assert forall|s: int| 0 <= s < ch.spec_peers() implies ch.log@.received[s]
        =~= ch.log@.sent[s] by {
        assert(ch.log@.sent[s] == ch.log@.received[s] + views_of(ch.queues@[s]@));
        assert(views_of(ch.queues@[s]@) =~= Seq::<Seq<u8>>::empty());
        assert(ch.log@.sent[s] =~= ch.log@.received[s]);
    }
}

/// The number of messages in a history, in aggregate across senders.
pub open spec fn total_messages(log: Seq<Seq<Seq<u8>>>) -> nat
    decreases log.len(),
{
    if log.len() == 0 {
        0
    } else {
        total_messages(log.drop_last()) + log.last().len()
    }
}

/// For any number of sent messages, a drained channel received exactly that
/// many in aggregate across its senders.
pub proof fn lemma_drained_count(ch: &ChannelState)
    requires
        ch.wf(),
        forall|s: int| 0 <= s < ch.spec_peers() ==> (#[trigger] ch.queues@[s]@).len() == 0,
    ensures
        total_messages(ch.log@.received) == total_messages(ch.log@.sent),
{
    lemma_drained_delivers_all(ch);
    assert(ch.log@.received == ch.log@.sent);
}

} // verus!
