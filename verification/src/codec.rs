//! Length-prefixed framing of byte strings.
//!
//! Composite keys and stored descriptors are built from frames: each frame
//! is the length of its content as eight big-endian bytes, followed by the
//! content. A frame can be read back from the front of any byte string that
//! starts with it, whatever follows.

use vstd::prelude::*;

verus! {

/// The eight big-endian bytes of `n`.
#[verifier::opaque]
pub open spec fn u64_be(n: u64) -> Seq<u8> {
    seq![
        (n >> 56) as u8,
        (n >> 48) as u8,
        (n >> 40) as u8,
        (n >> 32) as u8,
        (n >> 24) as u8,
        (n >> 16) as u8,
        (n >> 8) as u8,
        n as u8,
    ]
}

/// The number whose big-endian bytes are the first eight bytes of `b`.
#[verifier::opaque]
pub open spec fn u64_from_be(b: Seq<u8>) -> u64
    recommends
        b.len() >= 8,
{
    (b[0] as u64) << 56 | (b[1] as u64) << 48 | (b[2] as u64) << 40 | (b[3] as u64) << 32 | (
    b[4] as u64) << 24 | (b[5] as u64) << 16 | (b[6] as u64) << 8 | (b[7] as u64)
}

/// `content` preceded by its length.
pub open spec fn frame(content: Seq<u8>) -> Seq<u8> {
    u64_be(content.len() as u64) + content
}

/// Whether `bytes` starts with a complete frame.
pub open spec fn starts_with_frame(bytes: Seq<u8>) -> bool {
    bytes.len() >= 8 && u64_from_be(bytes) <= bytes.len() - 8
}

/// The content of the frame at the front of `bytes`.
pub open spec fn frame_content(bytes: Seq<u8>) -> Seq<u8>
    recommends
        starts_with_frame(bytes),
{
    bytes.subrange(8, 8 + u64_from_be(bytes) as int)
}

/// What follows the frame at the front of `bytes`.
pub open spec fn after_frame(bytes: Seq<u8>) -> Seq<u8>
    recommends
        starts_with_frame(bytes),
{
    bytes.skip(8 + u64_from_be(bytes) as int)
}

/// Reading the eight bytes of a number gives the number back.
pub proof fn lemma_u64_round_trip(n: u64)
    ensures
        u64_from_be(u64_be(n)) == n,
        u64_be(n).len() == 8,
{
    reveal(u64_be);
    reveal(u64_from_be);
    let b = u64_be(n);
    assert(((n >> 56) as u8 as u64) << 56 | ((n >> 48) as u8 as u64) << 48 | ((n >> 40) as u8 as u64)
        << 40 | ((n >> 32) as u8 as u64) << 32 | ((n >> 24) as u8 as u64) << 24 | ((n >> 16) as u8 as u64)
        << 16 | ((n >> 8) as u8 as u64) << 8 | (n as u8 as u64) == n) by (bit_vector);
}

/// A frame is read back from the front of whatever starts with it.
#[verifier::rlimit(40)]
pub proof fn lemma_frame_read(content: Seq<u8>, rest: Seq<u8>)
    requires
        content.len() <= u64::MAX,
    ensures
        starts_with_frame(frame(content) + rest),
        frame_content(frame(content) + rest) == content,
        after_frame(frame(content) + rest) == rest,
{
    let n = content.len() as u64;
    let all = frame(content) + rest;
    lemma_u64_round_trip(n);
    assert(u64_from_be(all) == u64_from_be(u64_be(n))) by {
        reveal(u64_from_be);
        assert(all[0] == u64_be(n)[0]);
        assert(all[1] == u64_be(n)[1]);
        assert(all[2] == u64_be(n)[2]);
        assert(all[3] == u64_be(n)[3]);
        assert(all[4] == u64_be(n)[4]);
        assert(all[5] == u64_be(n)[5]);
        assert(all[6] == u64_be(n)[6]);
        assert(all[7] == u64_be(n)[7]);
    }
    assert(frame_content(all) =~= content);
    assert(after_frame(all) =~= rest);
}

/// A byte string that starts with a frame is that frame followed by the
/// rest.
#[verifier::rlimit(40)]
pub proof fn lemma_frame_rebuild(bytes: Seq<u8>)
    requires
        starts_with_frame(bytes),
    ensures
        bytes == frame(frame_content(bytes)) + after_frame(bytes),
{
    reveal(u64_be);
    reveal(u64_from_be);
    let n = u64_from_be(bytes);
    let b0 = bytes[0];
    let b1 = bytes[1];
    let b2 = bytes[2];
    let b3 = bytes[3];
    let b4 = bytes[4];
    let b5 = bytes[5];
    let b6 = bytes[6];
    let b7 = bytes[7];
    assert({
        let n = (b0 as u64) << 56 | (b1 as u64) << 48 | (b2 as u64) << 40 | (b3 as u64) << 32 | (
        b4 as u64) << 24 | (b5 as u64) << 16 | (b6 as u64) << 8 | (b7 as u64);
        &&& (n >> 56) as u8 == b0
        &&& (n >> 48) as u8 == b1
        &&& (n >> 40) as u8 == b2
        &&& (n >> 32) as u8 == b3
        &&& (n >> 24) as u8 == b4
        &&& (n >> 16) as u8 == b5
        &&& (n >> 8) as u8 == b6
        &&& n as u8 == b7
    }) by (bit_vector);
    assert(frame_content(bytes).len() == n);
    assert(bytes =~= frame(frame_content(bytes)) + after_frame(bytes));
}

/// Appends the frame of `content` to `out`.
pub fn push_frame(out: &mut Vec<u8>, content: &[u8])
    ensures
        final(out)@ == old(out)@ + frame(content@),
{
    let n: u64 = content.len() as u64;
    let ghost before = out@;
    out.push((n >> 56) as u8);
    out.push((n >> 48) as u8);
    out.push((n >> 40) as u8);
    out.push((n >> 32) as u8);
    out.push((n >> 24) as u8);
    out.push((n >> 16) as u8);
    out.push((n >> 8) as u8);
    out.push(n as u8);
    proof {
        reveal(u64_be);
    }
    assert(out@ =~= before + u64_be(n));
    push_bytes(out, content);
    assert(out@ =~= before + frame(content@));
}

/// Appends `content` to `out`.
pub fn push_bytes(out: &mut Vec<u8>, content: &[u8])
    ensures
        final(out)@ == old(out)@ + content@,
{
    let ghost before = out@;
    let mut i: usize = 0;
    while i < content.len()
        invariant
            i <= content@.len(),
            out@ == before + content@.take(i as int),
        decreases content@.len() - i,
    {
        out.push(content[i]);
        assert(out@ =~= before + content@.take(i + 1));
        i += 1;
    }
    assert(content@.take(i as int) =~= content@);
}

/// The bytes of `bytes` from `from` up to `to`.
pub(crate) fn copy_range(bytes: &[u8], from: usize, to: usize) -> (out: Vec<u8>)
    requires
        from <= to <= bytes@.len(),
    ensures
        out@ == bytes@.subrange(from as int, to as int),
{
    let mut out: Vec<u8> = Vec::new();
    let mut i: usize = from;
    while i < to
        invariant
            from <= i <= to <= bytes@.len(),
            out@ == bytes@.subrange(from as int, i as int),
        decreases to - i,
    {
        out.push(bytes[i]);
        assert(out@ =~= bytes@.subrange(from as int, i + 1));
        i += 1;
    }
    out
}

/// Reads the frame that starts at `pos`: its content and the position
/// after it, or `None` if no complete frame starts there.
#[verifier::rlimit(40)]
pub fn read_frame(bytes: &[u8], pos: usize) -> (r: Option<(Vec<u8>, usize)>)
    ensures
        r is Some <==> pos <= bytes@.len() && starts_with_frame(bytes@.skip(pos as int)),
        r matches Some((content, next)) ==> {
            &&& content@ == frame_content(bytes@.skip(pos as int))
            &&& pos <= next <= bytes@.len()
            &&& bytes@.skip(next as int) == after_frame(bytes@.skip(pos as int))
        },
{
    if pos > bytes.len() {
        return None;
    }
    let ghost tail = bytes@.skip(pos as int);
    if bytes.len() - pos < 8 {
        return None;
    }
    let n: u64 = (bytes[pos] as u64) << 56 | (bytes[pos + 1] as u64) << 48 | (bytes[pos + 2] as u64)
        << 40 | (bytes[pos + 3] as u64) << 32 | (bytes[pos + 4] as u64) << 24 | (bytes[pos
        + 5] as u64) << 16 | (bytes[pos + 6] as u64) << 8 | (bytes[pos + 7] as u64);
    proof {
        reveal(u64_from_be);
    }
    assert(n == u64_from_be(tail));
    let room: usize = bytes.len() - pos - 8;
    if n > room as u64 {
        return None;
    }
    let start: usize = pos + 8;
    let end: usize = start + n as usize;
    let content = copy_range(bytes, start, end);
    assert(content@ =~= frame_content(tail));
    assert(bytes@.skip(end as int) =~= after_frame(tail));
    Some((content, end))
}

/// Whether two byte strings are equal.
pub fn same_bytes(a: &[u8], b: &[u8]) -> (r: bool)
    ensures
        r == (a@ == b@),
{
    if a.len() != b.len() {
        return false;
    }
    let mut i: usize = 0;
    while i < a.len()
        invariant
            i <= a@.len(),
            a@.len() == b@.len(),
            a@.take(i as int) == b@.take(i as int),
        decreases a@.len() - i,
    {
        if a[i] != b[i] {
            return false;
        }
        assert(a@.take(i + 1) =~= a@.take(i as int).push(a@[i as int]));
        assert(b@.take(i + 1) =~= b@.take(i as int).push(b@[i as int]));
        i += 1;
    }
    assert(a@.take(i as int) =~= a@);
    assert(b@.take(i as int) =~= b@);
    true
}

} // verus!
