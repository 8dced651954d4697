//! Byte exchange between a worker and its network threads: bounded merge
//! queues of encoded buffers, and the parser that turns an incoming byte run
//! back into frames.

use vstd::prelude::*;
use std::collections::VecDeque;
use crate::frame::{Frame, FrameView, frame_bytes, le_val, u64_le, decode_frame, lemma_le_roundtrip,
    HEADER_BYTES};

verus! {

/// A runtime transport fault: the incoming byte run is not a whole number of
/// well-formed frames.
#[derive(Clone, Copy, PartialEq, Eq, Structural, Debug)]
pub enum TransportError {
    /// The byte run ends inside a frame, or a header announces more payload
    /// than the run holds.
    CorruptFrame,
}

/// A bounded queue of encoded byte buffers between a worker and one send
/// thread. When it is full the producer must hold the buffer back: that is
/// the per-link backpressure.
pub struct MergeQueue {
    /// Queued buffers, oldest first.
    pub bufs: VecDeque<Vec<u8>>,
    /// Maximum number of buffers held at once.
    pub bound: usize,
}

impl MergeQueue {
    /// The queue never holds more than `bound` buffers, and the bound is positive.
    pub open spec fn wf(&self) -> bool {
        &&& self.bufs@.len() <= self.bound
        &&& self.bound >= 1
    }

    /// An empty queue with the given positive bound.
    pub fn new(bound: usize) -> (q: MergeQueue)
        requires
            bound >= 1,
        ensures
            q.wf(),
            q.bufs@ =~= Seq::<Vec<u8>>::empty(),
            q.bound == bound,
    {
        MergeQueue { bufs: VecDeque::new(), bound }
    }

    /// Append one buffer if there is a slot; report whether it was taken.
    /// A `false` result leaves the queue unchanged: the producer must retry
    /// later (in the running system it blocks).
    pub fn try_push(&mut self, buf: Vec<u8>) -> (ok: bool)
        requires
            old(self).wf(),
        ensures
            final(self).wf(),
            final(self).bound == old(self).bound,
            ok == (old(self).bufs@.len() < old(self).bound),
            ok ==> final(self).bufs@ =~= old(self).bufs@.push(buf),
            !ok ==> final(self).bufs@ =~= old(self).bufs@,
    {
        if self.bufs.len() < self.bound {
            self.bufs.push_back(buf);
            true
        } else {
            false
        }
    }

    /// Take every queued buffer, oldest first, leaving the queue empty.
    pub fn drain(&mut self) -> (out: Vec<Vec<u8>>)
        requires
            old(self).wf(),
        ensures
            final(self).wf(),
            final(self).bound == old(self).bound,
            out@ =~= old(self).bufs@,
            final(self).bufs@ =~= Seq::<Vec<u8>>::empty(),
    {
        let mut out: Vec<Vec<u8>> = Vec::new();
        loop
            invariant
                self.bound == old(self).bound,
                self.bufs@.len() <= self.bound,
                self.bound >= 1,
                out@ + self.bufs@ =~= old(self).bufs@,
            decreases self.bufs@.len(),
        {
            let next = self.bufs.pop_front();
            match next {
                Some(b) => {
                    out.push(b);
                },
                None => {
                    return out;
                },
            }
        }
    }

    /// Number of buffers queued.
    pub fn len(&self) -> (n: usize)
        ensures
            n == self.bufs@.len(),
    {
        self.bufs.len()
    }
}

/// The frames denoted by a byte run: `None` unless the run is exactly a
/// concatenation of well-formed frames.
pub open spec fn parse_frames(b: Seq<u8>) -> Option<Seq<FrameView>>
    decreases b.len(),
{
    if b.len() == 0 {
        Some(Seq::<FrameView>::empty())
    } else if b.len() < HEADER_BYTES {
        None
    } else {
        let len = le_val(b.subrange(24, 32)) as int;
        if b.len() < HEADER_BYTES + len {
            None
        } else {
            let f = FrameView {
                channel: le_val(b.subrange(0, 8)),
                source: le_val(b.subrange(8, 16)),
                seqno: le_val(b.subrange(16, 24)),
                payload: b.subrange(HEADER_BYTES as int, HEADER_BYTES + len),
            };
            match parse_frames(b.skip(HEADER_BYTES + len)) {
                Some(rest) => Some(seq![f] + rest),
                None => None,
            }
        }
    }
}

/// The views of a list of frames.
pub open spec fn frame_views(s: Seq<Frame>) -> Seq<FrameView> {
    s.map_values(|f: Frame| f@)
}

/// The payloads that a run of frames carries for channel `c` from sender `s`,
/// in arrival order.
pub open spec fn routed(fs: Seq<FrameView>, c: u64, s: u64) -> Seq<Seq<u8>>
    decreases fs.len(),
{
    if fs.len() == 0 {
        Seq::<Seq<u8>>::empty()
    } else {
        let rest = routed(fs.skip(1), c, s);
        if fs[0].channel == c && fs[0].source == s {
            seq![fs[0].payload] + rest
        } else {
            rest
        }
    }
}

/// A byte run that begins with the encoding of `fv` parses to `fv` followed
/// by whatever the remainder parses to.
proof fn lemma_parse_unfold(b: Seq<u8>, fv: FrameView)
    requires
        fv.payload.len() <= u64::MAX,
        HEADER_BYTES + fv.payload.len() <= b.len(),
        b.subrange(0, HEADER_BYTES + fv.payload.len() as int) =~= frame_bytes(fv),
    ensures
        parse_frames(b) == match parse_frames(b.skip(HEADER_BYTES + fv.payload.len() as int)) {
            Some(rest) => Some(seq![fv] + rest),
            None => None::<Seq<FrameView>>,
        },
{
    let plen = fv.payload.len() as int;
    let head = b.subrange(0, HEADER_BYTES + plen);
    assert(head.subrange(0, 8) =~= u64_le(fv.channel));
    assert(head.subrange(8, 16) =~= u64_le(fv.source));
    assert(head.subrange(16, 24) =~= u64_le(fv.seqno));
    assert(head.subrange(24, 32) =~= u64_le(fv.payload.len() as u64));
    assert(b.subrange(0, 8) =~= head.subrange(0, 8));
    assert(b.subrange(8, 16) =~= head.subrange(8, 16));
    assert(b.subrange(16, 24) =~= head.subrange(16, 24));
    assert(b.subrange(24, 32) =~= head.subrange(24, 32));
    lemma_le_roundtrip(fv.channel);
    lemma_le_roundtrip(fv.source);
    lemma_le_roundtrip(fv.seqno);
    lemma_le_roundtrip(fv.payload.len() as u64);
    assert(le_val(b.subrange(24, 32)) == fv.payload.len() as u64);
    assert(b.len() >= HEADER_BYTES + plen);
    assert(b.subrange(HEADER_BYTES as int, HEADER_BYTES + plen) =~= head.subrange(
        HEADER_BYTES as int,
        HEADER_BYTES + plen,
    ));
    assert(head.subrange(HEADER_BYTES as int, HEADER_BYTES + plen) =~= fv.payload);
    let parsed = FrameView {
        channel: le_val(b.subrange(0, 8)),
        source: le_val(b.subrange(8, 16)),
        seqno: le_val(b.subrange(16, 24)),
        payload: b.subrange(HEADER_BYTES as int, HEADER_BYTES + le_val(b.subrange(24, 32)) as int),
    };
    assert(parsed.payload =~= fv.payload);
    assert(parsed == fv);
}

/// Parse a byte run into frames.
///
/// `Ok(fs)` holds exactly when the run is a concatenation of well-formed
/// frames, and then `fs` is that frame list; otherwise the run is corrupt.
#[verifier::rlimit(100)]
pub fn decode_frames(buf: &Vec<u8>) -> (r: Result<Vec<Frame>, TransportError>)
    ensures
        match r {
            Ok(fs) => parse_frames(buf@) == Some(frame_views(fs@)),
            Err(_) => parse_frames(buf@) is None,
        },
{
    let n = buf.len();
    let mut off: usize = 0;
    let mut fs: Vec<Frame> = Vec::new();
    proof {
        assert(buf@.skip(0) =~= buf@);
        match parse_frames(buf@) {
            Some(rest) => {
                assert(frame_views(fs@) + rest =~= rest);
            },
            None => {},
        }
    }
    while off < n
        invariant
            off <= n,
            n == buf@.len(),
            parse_frames(buf@) == match parse_frames(buf@.skip(off as int)) {
                Some(rest) => Some(frame_views(fs@) + rest),
                None => None::<Seq<FrameView>>,
            },
        decreases n - off,
    {
        let next = decode_frame(buf, off);
        match next {
            Some((f, end)) => {
                let ghost prev_fs = fs@;
                let ghost prev_off = off as int;
                proof {
                    assert(buf@.skip(prev_off).subrange(
                        0,
                        HEADER_BYTES + f@.payload.len() as int,
                    ) =~= buf@.subrange(prev_off, end as int));
                    lemma_parse_unfold(buf@.skip(prev_off), f@);
                    assert(buf@.skip(prev_off).skip(HEADER_BYTES + f@.payload.len() as int)
                        =~= buf@.skip(end as int));
                }
                fs.push(f);
                off = end;
                proof {
                    assert(frame_views(fs@) =~= frame_views(prev_fs).push(f@));
                    assert forall|rest: Seq<FrameView>|
                        true implies frame_views(prev_fs) + (seq![f@] + rest) =~= frame_views(fs@)
                        + rest by {}
                    match parse_frames(buf@.skip(off as int)) {
                        Some(rest) => {
                            assert(parse_frames(buf@.skip(prev_off)) == Some(seq![f@] + rest));
                            assert(frame_views(prev_fs) + (seq![f@] + rest) =~= frame_views(fs@)
                                + rest);
                        },
                        None => {
                            assert(parse_frames(buf@.skip(prev_off)) is None);
                        },
                    }
                }
            },
            None => {
                proof {
                    let rem = buf@.skip(off as int);
                    assert(rem.len() == n - off);
                    assert(rem.len() > 0);
                    if buf@.len() < off + HEADER_BYTES {
                        assert(rem.len() < HEADER_BYTES);
                        assert(parse_frames(rem) is None);
                    } else {
                        assert(rem.subrange(24, 32) =~= buf@.subrange(
                            off as int + 24,
                            off as int + 32,
                        ));
                        assert(rem.len() < HEADER_BYTES + le_val(rem.subrange(24, 32)) as int);
                        assert(parse_frames(rem) is None);
                    }
                }
                return Err(TransportError::CorruptFrame);
            },
        }
    }
    proof {
        assert(buf@.skip(off as int).len() == 0);
        assert(parse_frames(buf@.skip(off as int)) == Some(Seq::<FrameView>::empty()));
        assert(frame_views(fs@) + Seq::<FrameView>::empty() =~= frame_views(fs@));
    }
    Ok(fs)
}

} // verus!
