//! Wire framing for inter-process links.
//!
//! Every on-wire frame carries `channel_id`, `source_worker`, `sequence_no`
//! and `length` as little-endian fixed-width eight-byte integers, followed by
//! `length` payload bytes. A zero-length payload is legal (a keep-alive).

use vstd::prelude::*;

verus! {

/// Size in bytes of a frame header: four little-endian `u64` fields.
pub const HEADER_BYTES: usize = 32;

/// The little-endian eight-byte encoding of a `u64`.
pub open spec fn u64_le(x: u64) -> Seq<u8> {
    seq![
        (x & 0xff) as u8,
        ((x >> 8) & 0xff) as u8,
        ((x >> 16) & 0xff) as u8,
        ((x >> 24) & 0xff) as u8,
        ((x >> 32) & 0xff) as u8,
        ((x >> 40) & 0xff) as u8,
        ((x >> 48) & 0xff) as u8,
        ((x >> 56) & 0xff) as u8,
    ]
}

/// The `u64` denoted by eight bytes in little-endian order.
pub open spec fn le8(b0: u8, b1: u8, b2: u8, b3: u8, b4: u8, b5: u8, b6: u8, b7: u8) -> u64 {
    (b0 as u64) | ((b1 as u64) << 8) | ((b2 as u64) << 16) | ((b3 as u64) << 24) | ((b4 as u64)
        << 32) | ((b5 as u64) << 40) | ((b6 as u64) << 48) | ((b7 as u64) << 56)
}

/// The `u64` denoted by a sequence of eight bytes in little-endian order.
pub open spec fn le_val(b: Seq<u8>) -> u64
    recommends
        b.len() == 8,
{
    le8(b[0], b[1], b[2], b[3], b[4], b[5], b[6], b[7])
}

/// Reading back the little-endian encoding gives the value encoded.
pub proof fn lemma_le_roundtrip(x: u64)
    ensures
        le_val(u64_le(x)) == x,
{
    assert(((x & 0xff) as u8) as u64 | ((((x >> 8) & 0xff) as u8) as u64) << 8 | ((((x >> 16)
        & 0xff) as u8) as u64) << 16 | ((((x >> 24) & 0xff) as u8) as u64) << 24 | ((((x >> 32)
        & 0xff) as u8) as u64) << 32 | ((((x >> 40) & 0xff) as u8) as u64) << 40 | ((((x >> 48)
        & 0xff) as u8) as u64) << 48 | ((((x >> 56) & 0xff) as u8) as u64) << 56 == x)
        by (bit_vector);
}

/// Encoding the value eight bytes denote gives back those bytes.
pub proof fn lemma_le_inverse(b0: u8, b1: u8, b2: u8, b3: u8, b4: u8, b5: u8, b6: u8, b7: u8)
    ensures
        u64_le(le8(b0, b1, b2, b3, b4, b5, b6, b7)) =~= seq![b0, b1, b2, b3, b4, b5, b6, b7],
{
    let v = le8(b0, b1, b2, b3, b4, b5, b6, b7);
    assert((((b0 as u64) | ((b1 as u64) << 8) | ((b2 as u64) << 16) | ((b3 as u64) << 24) | ((
    b4 as u64) << 32) | ((b5 as u64) << 40) | ((b6 as u64) << 48) | ((b7 as u64) << 56)) & 0xff)
        as u8 == b0) by (bit_vector);
    assert(((((b0 as u64) | ((b1 as u64) << 8) | ((b2 as u64) << 16) | ((b3 as u64) << 24) | ((
    b4 as u64) << 32) | ((b5 as u64) << 40) | ((b6 as u64) << 48) | ((b7 as u64) << 56)) >> 8)
        & 0xff) as u8 == b1) by (bit_vector);
    assert(((((b0 as u64) | ((b1 as u64) << 8) | ((b2 as u64) << 16) | ((b3 as u64) << 24) | ((
    b4 as u64) << 32) | ((b5 as u64) << 40) | ((b6 as u64) << 48) | ((b7 as u64) << 56)) >> 16)
        & 0xff) as u8 == b2) by (bit_vector);
    assert(((((b0 as u64) | ((b1 as u64) << 8) | ((b2 as u64) << 16) | ((b3 as u64) << 24) | ((
    b4 as u64) << 32) | ((b5 as u64) << 40) | ((b6 as u64) << 48) | ((b7 as u64) << 56)) >> 24)
        & 0xff) as u8 == b3) by (bit_vector);
    assert(((((b0 as u64) | ((b1 as u64) << 8) | ((b2 as u64) << 16) | ((b3 as u64) << 24) | ((
    b4 as u64) << 32) | ((b5 as u64) << 40) | ((b6 as u64) << 48) | ((b7 as u64) << 56)) >> 32)
        & 0xff) as u8 == b4) by (bit_vector);
    assert(((((b0 as u64) | ((b1 as u64) << 8) | ((b2 as u64) << 16) | ((b3 as u64) << 24) | ((
    b4 as u64) << 32) | ((b5 as u64) << 40) | ((b6 as u64) << 48) | ((b7 as u64) << 56)) >> 40)
        & 0xff) as u8 == b5) by (bit_vector);
    assert(((((b0 as u64) | ((b1 as u64) << 8) | ((b2 as u64) << 16) | ((b3 as u64) << 24) | ((
    b4 as u64) << 32) | ((b5 as u64) << 40) | ((b6 as u64) << 48) | ((b7 as u64) << 56)) >> 48)
        & 0xff) as u8 == b6) by (bit_vector);
    assert(((((b0 as u64) | ((b1 as u64) << 8) | ((b2 as u64) << 16) | ((b3 as u64) << 24) | ((
    b4 as u64) << 32) | ((b5 as u64) << 40) | ((b6 as u64) << 48) | ((b7 as u64) << 56)) >> 56)
        & 0xff) as u8 == b7) by (bit_vector);
    assert(u64_le(v)[0] == b0);
}

/// Append the little-endian encoding of `x` to `out`.
pub fn encode_u64(x: u64, out: &mut Vec<u8>)
    ensures
        final(out)@ =~= old(out)@ + u64_le(x),
{
    out.push((x & 0xff) as u8);
    out.push(((x >> 8) & 0xff) as u8);
    out.push(((x >> 16) & 0xff) as u8);
    out.push(((x >> 24) & 0xff) as u8);
    out.push(((x >> 32) & 0xff) as u8);
    out.push(((x >> 40) & 0xff) as u8);
    out.push(((x >> 48) & 0xff) as u8);
    out.push(((x >> 56) & 0xff) as u8);
}

/// Read the `u64` encoded little-endian at `buf[off .. off + 8]`.
pub fn decode_u64(buf: &Vec<u8>, off: usize) -> (x: u64)
    requires
        off + 8 <= buf@.len(),
    ensures
        x == le_val(buf@.subrange(off as int, off as int + 8)),
{
    let n = buf.len();
    let b = buf[off] as u64 | ((buf[off + 1] as u64) << 8u64) | ((buf[off + 2] as u64) << 16u64)
        | ((buf[off + 3] as u64) << 24u64) | ((buf[off + 4] as u64) << 32u64) | ((buf[off
        + 5] as u64) << 40u64) | ((buf[off + 6] as u64) << 48u64) | ((buf[off + 7] as u64)
        << 56u64);
    proof {
        let s = buf@.subrange(off as int, off as int + 8);
        assert(s[0] == buf@[off as int]);
        assert(s[1] == buf@[off as int + 1]);
        assert(s[2] == buf@[off as int + 2]);
        assert(s[3] == buf@[off as int + 3]);
        assert(s[4] == buf@[off as int + 4]);
        assert(s[5] == buf@[off as int + 5]);
        assert(s[6] == buf@[off as int + 6]);
        assert(s[7] == buf@[off as int + 7]);
    }
    b
}

/// One parsed frame: routing header plus opaque payload bytes.
pub struct Frame {
    /// The channel the payload belongs to.
    pub channel: u64,
    /// The worker that pushed the payload.
    pub source: u64,
    /// Per-(channel, source) sequence number.
    pub seqno: u64,
    /// The payload bytes; a zero-length payload is a keep-alive.
    pub payload: Vec<u8>,
}

/// The mathematical value of a frame.
pub ghost struct FrameView {
    /// The channel the payload belongs to.
    pub channel: u64,
    /// The worker that pushed the payload.
    pub source: u64,
    /// Per-(channel, source) sequence number.
    pub seqno: u64,
    /// The payload bytes.
    pub payload: Seq<u8>,
}

impl View for Frame {
    type V = FrameView;

    open spec fn view(&self) -> FrameView {
        FrameView {
            channel: self.channel,
            source: self.source,
            seqno: self.seqno,
            payload: self.payload@,
        }
    }
}

/// The on-wire bytes of a frame: four little-endian `u64` header fields
/// (channel, source, sequence number, payload length), then the payload.
pub open spec fn frame_bytes(f: FrameView) -> Seq<u8> {
    u64_le(f.channel) + u64_le(f.source) + u64_le(f.seqno) + u64_le(f.payload.len() as u64)
        + f.payload
}

/// Append the on-wire encoding of `f` to `out`.
pub fn encode_frame(f: &Frame, out: &mut Vec<u8>)
    requires
        f.payload@.len() <= u64::MAX,
        old(out)@.len() + HEADER_BYTES + f.payload@.len() <= usize::MAX,
    ensures
        final(out)@ =~= old(out)@ + frame_bytes(f@),
{
    encode_u64(f.channel, out);
    encode_u64(f.source, out);
    encode_u64(f.seqno, out);
    encode_u64(f.payload.len() as u64, out);
    let mut i: usize = 0;
    let ghost mid = out@;
    while i < f.payload.len()
        invariant
            i <= f.payload@.len(),
            out@ =~= mid + f.payload@.subrange(0, i as int),
            mid.len() + f.payload@.len() <= usize::MAX,
        decreases f.payload@.len() - i,
    {
        out.push(f.payload[i]);
        i = i + 1;
        proof {
            assert(f.payload@.subrange(0, i as int) =~= f.payload@.subrange(0, i as int - 1).push(
                f.payload@[i as int - 1],
            ));
        }
    }
    proof {
        assert(f.payload@.subrange(0, f.payload@.len() as int) =~= f.payload@);
    }
}

/// Try to parse one frame at `buf[off ..]`.
///
/// `Some((f, end))` means the bytes `buf[off .. end]` are exactly the on-wire
/// encoding of `f`; `None` means the bytes at `off` are too short to hold a
/// header, or the header announces more payload than the buffer holds.
#[verifier::rlimit(100)]
pub fn decode_frame(buf: &Vec<u8>, off: usize) -> (r: Option<(Frame, usize)>)
    requires
        off <= buf@.len(),
    ensures
        match r {
            Some((f, end)) => {
                &&& off + HEADER_BYTES <= end <= buf@.len()
                &&& end == off + HEADER_BYTES + f@.payload.len()
                &&& buf@.subrange(off as int, end as int) =~= frame_bytes(f@)
            },
            None => {
                buf@.len() < off + HEADER_BYTES || buf@.len() < off + HEADER_BYTES + le_val(
                    buf@.subrange(off as int + 24, off as int + 32),
                )
            },
        },
{
    if buf.len() - off < HEADER_BYTES {
        return None;
    }
    let channel = decode_u64(buf, off);
    let source = decode_u64(buf, off + 8);
    let seqno = decode_u64(buf, off + 16);
    let length = decode_u64(buf, off + 24);
    let avail = (buf.len() - off - HEADER_BYTES) as u64;
    if length > avail {
        return None;
    }
    let len = length as usize;
    let mut payload: Vec<u8> = Vec::new();
    let n = buf.len();
    let mut i: usize = 0;
    while i < len
        invariant
            i <= len,
            n == buf@.len(),
            off + HEADER_BYTES + len <= n,
            payload@ =~= buf@.subrange(
                off as int + HEADER_BYTES as int,
                off as int + HEADER_BYTES as int + i as int,
            ),
        decreases len - i,
    {
        payload.push(buf[off + HEADER_BYTES + i]);
        i = i + 1;
        proof {
            assert(buf@.subrange(
                off as int + HEADER_BYTES as int,
                off as int + HEADER_BYTES as int + i as int,
            ) =~= buf@.subrange(
                off as int + HEADER_BYTES as int,
                off as int + HEADER_BYTES as int + i as int - 1,
            ).push(buf@[off as int + HEADER_BYTES as int + i - 1]));
        }
    }
    let f = Frame { channel, source, seqno, payload };
    let end = off + HEADER_BYTES + len;
    proof {
        let o = off as int;
        let whole = buf@.subrange(o, end as int);
        lemma_le_inverse(buf@[o], buf@[o + 1], buf@[o + 2], buf@[o + 3], buf@[o + 4], buf@[o + 5],
            buf@[o + 6], buf@[o + 7]);
        lemma_le_inverse(buf@[o + 8], buf@[o + 9], buf@[o + 10], buf@[o + 11], buf@[o + 12],
            buf@[o + 13], buf@[o + 14], buf@[o + 15]);
        lemma_le_inverse(buf@[o + 16], buf@[o + 17], buf@[o + 18], buf@[o + 19], buf@[o + 20],
            buf@[o + 21], buf@[o + 22], buf@[o + 23]);
        lemma_le_inverse(buf@[o + 24], buf@[o + 25], buf@[o + 26], buf@[o + 27], buf@[o + 28],
            buf@[o + 29], buf@[o + 30], buf@[o + 31]);
        assert(f@.payload.len() as u64 == length);
        assert(whole.subrange(0, 8) =~= buf@.subrange(o, o + 8));
        assert(whole.subrange(8, 16) =~= buf@.subrange(o + 8, o + 16));
        assert(whole.subrange(16, 24) =~= buf@.subrange(o + 16, o + 24));
        assert(whole.subrange(24, 32) =~= buf@.subrange(o + 24, o + 32));
        assert(le_val(buf@.subrange(o, o + 8)) == channel);
        assert(le_val(buf@.subrange(o + 8, o + 16)) == source);
        assert(le_val(buf@.subrange(o + 16, o + 24)) == seqno);
        assert(le_val(buf@.subrange(o + 24, o + 32)) == length);
        assert(u64_le(channel) =~= buf@.subrange(o, o + 8));
        assert(u64_le(source) =~= buf@.subrange(o + 8, o + 16));
        assert(u64_le(seqno) =~= buf@.subrange(o + 16, o + 24));
        assert(u64_le(length) =~= buf@.subrange(o + 24, o + 32));
        assert(whole =~= frame_bytes(f@));
    }
    Some((f, end))
}

} // verus!
