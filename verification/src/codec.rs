//! Record codec: the bit-exact binary frame of one log record.
//!
//! A frame is `index (8 LE) | term (8 LE) | key_len (4 LE) | val_len (4 LE)
//! | key | val`.  `decode_stream` walks a byte buffer frame by frame and
//! stops at the first position where no complete frame remains; that
//! position is the tail offset, so a torn trailing frame is treated as
//! absent and the caller may truncate the file to the tail offset.

use vstd::bytes::*;
use vstd::prelude::*;

verus! {

/// Size in bytes of the fixed frame header.
pub const HEADER_SIZE: usize = 24;

/// Upper bound (exclusive) on the byte length of a key or a value.
pub const LEN_LIMIT: u64 = 0x1_0000_0000;

/// One log record, as mathematics: the value a frame stands for.
pub struct Rec {
    pub index: u64,
    pub term: u64,
    pub key: Seq<u8>,
    pub val: Seq<u8>,
}

/// A record whose key and value each fit the 32-bit length fields.
pub open spec fn wf_rec(r: Rec) -> bool {
    &&& r.key.len() < LEN_LIMIT
    &&& r.val.len() < LEN_LIMIT
}

/// The frame that encodes one record.
pub open spec fn frame_of(r: Rec) -> Seq<u8> {
    spec_u64_to_le_bytes(r.index) + spec_u64_to_le_bytes(r.term)
        + spec_u32_to_le_bytes(r.key.len() as u32) + spec_u32_to_le_bytes(r.val.len() as u32)
        + r.key + r.val
}

/// The key length a frame's header declares.
pub open spec fn key_len_of(f: Seq<u8>) -> int {
    spec_u32_from_le_bytes(f.subrange(16, 20)) as int
}

/// The value length a frame's header declares.
pub open spec fn val_len_of(f: Seq<u8>) -> int {
    spec_u32_from_le_bytes(f.subrange(20, 24)) as int
}

/// Total length a frame's header declares: header plus key plus value.
pub open spec fn frame_len_of(f: Seq<u8>) -> int {
    HEADER_SIZE + key_len_of(f) + val_len_of(f)
}

/// A byte string that is exactly one complete frame.
pub open spec fn wf_frame(f: Seq<u8>) -> bool {
    &&& f.len() >= HEADER_SIZE
    &&& f.len() == frame_len_of(f)
}

/// The record a complete frame stands for.
pub open spec fn rec_of(f: Seq<u8>) -> Rec {
    Rec {
        index: spec_u64_from_le_bytes(f.subrange(0, 8)),
        term: spec_u64_from_le_bytes(f.subrange(8, 16)),
        key: f.subrange(24, 24 + key_len_of(f)),
        val: f.subrange(24 + key_len_of(f), 24 + key_len_of(f) + val_len_of(f)),
    }
}

/// Encoding a well-formed record yields a well-formed frame that decodes
/// back to the same record.
pub proof fn lemma_frame_roundtrip(r: Rec)
    requires
        wf_rec(r),
    ensures
        wf_frame(frame_of(r)),
        frame_of(r).len() == HEADER_SIZE + r.key.len() + r.val.len(),
        rec_of(frame_of(r)) == r,
{
    lemma_auto_spec_u64_to_from_le_bytes();
    lemma_auto_spec_u32_to_from_le_bytes();
    let f = frame_of(r);
    assert(f.subrange(0, 8) =~= spec_u64_to_le_bytes(r.index));
    assert(f.subrange(8, 16) =~= spec_u64_to_le_bytes(r.term));
    assert(f.subrange(16, 20) =~= spec_u32_to_le_bytes(r.key.len() as u32));
    assert(f.subrange(20, 24) =~= spec_u32_to_le_bytes(r.val.len() as u32));
    assert(key_len_of(f) == r.key.len());
    assert(val_len_of(f) == r.val.len());
    assert(f.subrange(24, 24 + key_len_of(f)) =~= r.key);
    assert(f.subrange(24 + key_len_of(f), 24 + key_len_of(f) + val_len_of(f)) =~= r.val);
    assert(rec_of(f) =~= r);
}

/// `b` begins with a complete frame.
pub open spec fn starts_with_frame(b: Seq<u8>) -> bool {
    &&& b.len() >= HEADER_SIZE
    &&& frame_len_of(b) <= b.len()
}

/// The complete frames at the front of `b`, in order.
pub open spec fn decoded_frames(b: Seq<u8>) -> Seq<Seq<u8>>
    decreases b.len(),
{
    if starts_with_frame(b) {
        seq![b.take(frame_len_of(b))] + decoded_frames(b.skip(frame_len_of(b)))
    } else {
        Seq::empty()
    }
}

/// The offset just past the last complete frame of `b`: the start of the
/// (possibly torn) tail.
pub open spec fn tail_offset_of(b: Seq<u8>) -> int
    decreases b.len(),
{
    if starts_with_frame(b) {
        frame_len_of(b) + tail_offset_of(b.skip(frame_len_of(b)))
    } else {
        0
    }
}

/// Every decoded frame is well formed, and together they are exactly the
/// bytes of `b` up to the tail offset: what decoding keeps is a prefix of
/// the input.
pub proof fn lemma_decoded_frames_prefix(b: Seq<u8>)
    ensures
        0 <= tail_offset_of(b) <= b.len(),
        decoded_frames(b).flatten() == b.take(tail_offset_of(b)),
        forall|i: int|
            0 <= i < decoded_frames(b).len() ==> #[trigger] wf_frame(decoded_frames(b)[i]),
    decreases b.len(),
{
    if starts_with_frame(b) {
        let n = frame_len_of(b);
        let rest = b.skip(n);
        lemma_decoded_frames_prefix(rest);
        let fs = decoded_frames(b);
        assert(fs.drop_first() =~= decoded_frames(rest));
        assert(fs.flatten() == b.take(n) + decoded_frames(rest).flatten());
        assert(rest.take(tail_offset_of(rest)) =~= b.subrange(n, n + tail_offset_of(rest)));
        assert(b.take(n) + b.subrange(n, n + tail_offset_of(rest)) =~= b.take(
            tail_offset_of(b),
        ));
        assert(wf_frame(b.take(n))) by {
            assert(b.take(n).subrange(16, 20) =~= b.subrange(16, 20));
            assert(b.take(n).subrange(20, 24) =~= b.subrange(20, 24));
        }
        assert forall|i: int| 0 <= i < fs.len() implies #[trigger] wf_frame(fs[i]) by {
            if i > 0 {
                assert(fs[i] == decoded_frames(rest)[i - 1]);
            }
        }
    } else {
        assert(decoded_frames(b).flatten() =~= b.take(0));
    }
}

/// Decoding the concatenation of well-formed frames yields exactly those
/// frames, and the tail offset is the whole buffer: nothing is lost and no
/// torn tail is reported.
pub proof fn lemma_decode_of_frames(fs: Seq<Seq<u8>>)
    requires
        forall|i: int| 0 <= i < fs.len() ==> #[trigger] wf_frame(fs[i]),
    ensures
        decoded_frames(fs.flatten()) == fs,
        tail_offset_of(fs.flatten()) == fs.flatten().len(),
    decreases fs.len(),
{
    if fs.len() == 0 {
        assert(fs.flatten() =~= Seq::<u8>::empty());
        assert(decoded_frames(fs.flatten()) =~= fs);
    } else {
        let f0 = fs.first();
        let rest = fs.drop_first();
        let b = fs.flatten();
        assert(wf_frame(fs[0]));
        assert(b == f0 + rest.flatten());
        lemma_decode_of_frames(rest);
        assert(b.len() >= f0.len() >= HEADER_SIZE);
        assert(b.subrange(16, 20) =~= f0.subrange(16, 20));
        assert(b.subrange(20, 24) =~= f0.subrange(20, 24));
        assert(frame_len_of(b) == f0.len());
        assert(starts_with_frame(b));
        assert(b.take(f0.len() as int) =~= f0);
        assert(b.skip(f0.len() as int) =~= rest.flatten());
        assert(decoded_frames(b) == seq![f0] + rest);
        assert(decoded_frames(b) =~= fs);
        assert(tail_offset_of(b) == f0.len() + rest.flatten().len());
    }
}

/// Round trip of the codec: decoding the concatenation of the encodings
/// of any well-formed records yields exactly those records, and the tail
/// offset is the length of the whole buffer.
pub proof fn lemma_decode_of_records(rs: Seq<Rec>)
    requires
        forall|i: int| 0 <= i < rs.len() ==> wf_rec(#[trigger] rs[i]),
    ensures
        ({
            let b = rs.map_values(|r: Rec| frame_of(r)).flatten();
            &&& decoded_frames(b).map_values(|f: Seq<u8>| rec_of(f)) == rs
            &&& tail_offset_of(b) == b.len()
        }),
{
    let fs = rs.map_values(|r: Rec| frame_of(r));
    assert forall|i: int| 0 <= i < fs.len() implies #[trigger] wf_frame(fs[i]) by {
        lemma_frame_roundtrip(rs[i]);
    }
    lemma_decode_of_frames(fs);
    assert forall|i: int| 0 <= i < rs.len() implies rec_of(fs[i]) == #[trigger] rs[i] by {
        lemma_frame_roundtrip(rs[i]);
    }
    assert(fs.map_values(|f: Seq<u8>| rec_of(f)) =~= rs);
}

/// Cutting the concatenation of well-formed frames at any byte length and
/// decoding what is left yields a prefix of the frames: a record lost to
/// the cut loses every later record with it.
pub proof fn lemma_decode_of_cut(fs: Seq<Seq<u8>>, n: int)
    requires
        forall|i: int| 0 <= i < fs.len() ==> #[trigger] wf_frame(fs[i]),
        0 <= n <= fs.flatten().len(),
    ensures
        exists|k: int|
            0 <= k <= fs.len() && decoded_frames(fs.flatten().take(n)) == #[trigger] fs.take(k),
    decreases fs.len(),
{
    let b = fs.flatten();
    let c = b.take(n);
    if fs.len() == 0 {
        assert(b =~= Seq::<u8>::empty());
        assert(decoded_frames(c) =~= fs.take(0));
    } else {
        let f0 = fs.first();
        let rest = fs.drop_first();
        assert(wf_frame(fs[0]));
        assert(b == f0 + rest.flatten());
        if n < f0.len() {
            if c.len() >= HEADER_SIZE {
                assert(c.subrange(16, 20) =~= f0.subrange(16, 20));
                assert(c.subrange(20, 24) =~= f0.subrange(20, 24));
                assert(frame_len_of(c) == f0.len() > n == c.len());
            }
            assert(!starts_with_frame(c));
            assert(decoded_frames(c) =~= fs.take(0));
        } else {
            let m = n - f0.len();
            assert(c.subrange(16, 20) =~= f0.subrange(16, 20));
            assert(c.subrange(20, 24) =~= f0.subrange(20, 24));
            assert(frame_len_of(c) == f0.len());
            assert(starts_with_frame(c));
            assert(c.take(f0.len() as int) =~= f0);
            assert(c.skip(f0.len() as int) =~= rest.flatten().take(m));
            lemma_decode_of_cut(rest, m);
            let k = choose|k: int|
                0 <= k <= rest.len() && decoded_frames(rest.flatten().take(m)) == #[trigger] rest.take(
                    k,
                );
            assert(decoded_frames(c) == seq![f0] + rest.take(k));
            assert(seq![f0] + rest.take(k) =~= fs.take(k + 1));
        }
    }
}

/// Read the little-endian `u32` at `pos`.
pub(crate) fn read_u32_at(buf: &[u8], pos: usize) -> (x: u32)
    requires
        pos + 4 <= buf@.len(),
    ensures
        x == spec_u32_from_le_bytes(buf@.subrange(pos as int, pos + 4)),
{
    let n = buf.len();
    assert(pos + 4 <= n);
    let s = vstd::slice::slice_subrange(buf, pos, pos + 4);
    u32_from_le_bytes(s)
}

/// Read the little-endian `u64` at `pos`.
pub(crate) fn read_u64_at(buf: &[u8], pos: usize) -> (x: u64)
    requires
        pos + 8 <= buf@.len(),
    ensures
        x == spec_u64_from_le_bytes(buf@.subrange(pos as int, pos + 8)),
{
    let n = buf.len();
    assert(pos + 8 <= n);
    let s = vstd::slice::slice_subrange(buf, pos, pos + 8);
    u64_from_le_bytes(s)
}

/// Decode a buffer into its complete frames and the offset of the first
/// incomplete one.  A short or torn trailing frame is not an error: it is
/// simply not emitted, and the returned offset names where it starts so
/// the caller can cut it away.
pub fn decode_stream(buf: &[u8]) -> (r: (Vec<Vec<u8>>, usize))
    ensures
        r.0@.map_values(|f: Vec<u8>| f@) == decoded_frames(buf@),
        r.1 == tail_offset_of(buf@),
        r.1 <= buf@.len(),
        buf@.take(r.1 as int) == decoded_frames(buf@).flatten(),
{
    let n = buf.len();
    let mut out: Vec<Vec<u8>> = Vec::new();
    let mut pos: usize = 0;
    proof {
        assert(buf@.skip(0) =~= buf@);
        assert(out@.map_values(|f: Vec<u8>| f@) =~= Seq::<Seq<u8>>::empty());
    }
    loop
        invariant
            pos <= n,
            n == buf@.len(),
            decoded_frames(buf@) =~= out@.map_values(|f: Vec<u8>| f@) + decoded_frames(
                buf@.skip(pos as int),
            ),
            tail_offset_of(buf@) == pos + tail_offset_of(buf@.skip(pos as int)),
        ensures
            pos <= n,
            decoded_frames(buf@) == out@.map_values(|f: Vec<u8>| f@) + decoded_frames(
                buf@.skip(pos as int),
            ),
            tail_offset_of(buf@) == pos + tail_offset_of(buf@.skip(pos as int)),
            !starts_with_frame(buf@.skip(pos as int)),
        decreases n - pos,
    {
        let ghost rem = buf@.skip(pos as int);
        if n - pos < HEADER_SIZE {
            proof {
                assert(!starts_with_frame(rem));
            }
            break ;
        }
        proof {
            assert(rem.subrange(16, 20) =~= buf@.subrange(pos + 16, pos + 20));
            assert(rem.subrange(20, 24) =~= buf@.subrange(pos + 20, pos + 24));
        }
        let klen = read_u32_at(buf, pos + 16);
        let vlen = read_u32_at(buf, pos + 20);
        let total: u64 = HEADER_SIZE as u64 + klen as u64 + vlen as u64;
        proof {
            assert(total == frame_len_of(rem));
        }
        if ((n - pos) as u64) < total {
            proof {
                assert(!starts_with_frame(rem));
            }
            break ;
        }
        let end = pos + total as usize;
        let frame = vstd::slice::slice_to_vec(vstd::slice::slice_subrange(buf, pos, end));
        proof {
            assert(starts_with_frame(rem));
            assert(rem.take(frame_len_of(rem)) =~= buf@.subrange(pos as int, end as int));
            assert(rem.skip(frame_len_of(rem)) =~= buf@.skip(end as int));
            assert(out@.push(frame).map_values(|f: Vec<u8>| f@) =~= out@.map_values(
                |f: Vec<u8>| f@,
            ).push(frame@));
            assert(decoded_frames(rem) == seq![frame@] + decoded_frames(buf@.skip(end as int)));
            assert(out@.map_values(|f: Vec<u8>| f@).push(frame@) + decoded_frames(
                buf@.skip(end as int),
            ) =~= out@.map_values(|f: Vec<u8>| f@) + decoded_frames(rem));
        }
        out.push(frame);
        pos = end;
    }
    proof {
        assert(decoded_frames(buf@.skip(pos as int)) =~= Seq::<Seq<u8>>::empty());
        assert(decoded_frames(buf@) =~= out@.map_values(|f: Vec<u8>| f@));
        lemma_decoded_frames_prefix(buf@);
    }
    (out, pos)
}

/// Encode one record into its frame.
pub fn encode(index: u64, term: u64, key: &[u8], val: &[u8]) -> (buf: Vec<u8>)
    requires
        key@.len() < LEN_LIMIT,
        val@.len() < LEN_LIMIT,
    ensures
        buf@ == frame_of(Rec { index, term, key: key@, val: val@ }),
        buf@.len() == HEADER_SIZE + key@.len() + val@.len(),
{
    proof {
        lemma_frame_roundtrip(Rec { index, term, key: key@, val: val@ });
    }
    let mut buf = u64_to_le_bytes(index);
    let mut t = u64_to_le_bytes(term);
    buf.append(&mut t);
    let mut kl = u32_to_le_bytes(key.len() as u32);
    buf.append(&mut kl);
    let mut vl = u32_to_le_bytes(val.len() as u32);
    buf.append(&mut vl);
    buf.extend_from_slice(key);
    buf.extend_from_slice(val);
    proof {
        assert(buf@ =~= frame_of(Rec { index, term, key: key@, val: val@ }));
    }
    buf
}

} // verus!
