//! Fixed-width integers as little-endian bytes, and the buffer helpers that
//! the encoders share.

use crate::error::CacheError;
use vstd::prelude::*;

verus! {

/// The two bytes of a `u16`, low byte first.
#[verifier::opaque]
pub open spec fn le_u16(x: u16) -> Seq<u8> {
    seq![(x % 256) as u8, (x / 256) as u8]
}

/// The `u16` that two bytes stand for, low byte first.
#[verifier::opaque]
pub open spec fn from_le_u16(bytes: Seq<u8>) -> u16 {
    (bytes[0] + 256 * bytes[1]) as u16
}

/// The four bytes of a `u32`, lowest byte first: those of its low half, then
/// those of its high half.
#[verifier::opaque]
pub open spec fn le_u32(x: u32) -> Seq<u8> {
    le_u16((x % 65536) as u16) + le_u16((x / 65536) as u16)
}

/// The `u32` that four bytes stand for, lowest byte first.
#[verifier::opaque]
pub open spec fn from_le_u32(bytes: Seq<u8>) -> u32 {
    (from_le_u16(bytes.subrange(0, 2)) + 65536 * from_le_u16(bytes.subrange(2, 4))) as u32
}

/// The eight bytes of a `u64`, lowest byte first: those of its low half,
/// then those of its high half.
#[verifier::opaque]
pub open spec fn le_u64(x: u64) -> Seq<u8> {
    le_u32((x % 4294967296) as u32) + le_u32((x / 4294967296) as u32)
}

/// The `u64` that eight bytes stand for, lowest byte first.
#[verifier::opaque]
pub open spec fn from_le_u64(bytes: Seq<u8>) -> u64 {
    (from_le_u32(bytes.subrange(0, 4)) + 4294967296 * from_le_u32(bytes.subrange(4, 8))) as u64
}

/// The two bytes of 0 are zero bytes.
pub proof fn lemma_le_u16_zero()
    ensures
        le_u16(0) == seq![0u8, 0u8],
{
    reveal(le_u16);
}

/// The bytes of a result, where it has bytes.
pub open spec fn bytes_of(result: Result<Vec<u8>, CacheError>) -> Result<Seq<u8>, CacheError> {
    match result {
        Ok(bytes) => Ok(bytes@),
        Err(e) => Err(e),
    }
}

/// Two bytes read as a `u16` and written again are the same two bytes, and a
/// `u16` written and read again is the same number.
pub proof fn lemma_le_u16(x: u16, bytes: Seq<u8>)
    ensures
        le_u16(x).len() == 2,
        from_le_u16(le_u16(x)) == x,
        bytes.len() == 2 ==> le_u16(from_le_u16(bytes)) == bytes,
{
    reveal(le_u16);
    reveal(from_le_u16);
    if bytes.len() == 2 {
        assert(le_u16(from_le_u16(bytes)) =~= bytes);
    }
}

/// A `u32` written and read again is the same number, and four bytes read
/// and written again are the same four bytes.
pub proof fn lemma_le_u32(x: u32, bytes: Seq<u8>)
    ensures
        le_u32(x).len() == 4,
        from_le_u32(le_u32(x)) == x,
        bytes.len() == 4 ==> le_u32(from_le_u32(bytes)) == bytes,
{
    reveal(le_u32);
    reveal(from_le_u32);
    let low = (x % 65536) as u16;
    let high = (x / 65536) as u16;
    lemma_le_u16(low, bytes.subrange(0, 2));
    lemma_le_u16(high, bytes.subrange(2, 4));
    assert(le_u32(x).subrange(0, 2) =~= le_u16(low));
    assert(le_u32(x).subrange(2, 4) =~= le_u16(high));
    if bytes.len() == 4 {
        let a = from_le_u16(bytes.subrange(0, 2));
        let b = from_le_u16(bytes.subrange(2, 4));
        let y = from_le_u32(bytes);
        assert(y == a + 65536 * b);
        assert((y % 65536) as u16 == a);
        assert((y / 65536) as u16 == b);
        assert(le_u32(y) =~= bytes.subrange(0, 2) + bytes.subrange(2, 4));
        assert(bytes.subrange(0, 2) + bytes.subrange(2, 4) =~= bytes);
    }
}

/// A `u64` written and read again is the same number, and eight bytes read
/// and written again are the same eight bytes.
pub proof fn lemma_le_u64(x: u64, bytes: Seq<u8>)
    ensures
        le_u64(x).len() == 8,
        from_le_u64(le_u64(x)) == x,
        bytes.len() == 8 ==> le_u64(from_le_u64(bytes)) == bytes,
{
    reveal(le_u64);
    reveal(from_le_u64);
    let low = (x % 4294967296) as u32;
    let high = (x / 4294967296) as u32;
    lemma_le_u32(low, bytes.subrange(0, 4));
    lemma_le_u32(high, bytes.subrange(4, 8));
    assert(le_u64(x).subrange(0, 4) =~= le_u32(low));
    assert(le_u64(x).subrange(4, 8) =~= le_u32(high));
    if bytes.len() == 8 {
        let a = from_le_u32(bytes.subrange(0, 4));
        let b = from_le_u32(bytes.subrange(4, 8));
        let y = from_le_u64(bytes);
        assert(y == a + 4294967296 * b);
        assert((y % 4294967296) as u32 == a);
        assert((y / 4294967296) as u32 == b);
        assert(le_u64(y) =~= bytes.subrange(0, 4) + bytes.subrange(4, 8));
        assert(bytes.subrange(0, 4) + bytes.subrange(4, 8) =~= bytes);
    }
}

/// Appends `more` to `buffer`.
pub fn push_bytes(buffer: &mut Vec<u8>, more: &[u8])
    ensures
        final(buffer)@ == old(buffer)@ + more@,
{
    let mut i: usize = 0;
    while i < more.len()
        invariant
            i <= more.len(),
            buffer@ == old(buffer)@ + more@.subrange(0, i as int),
        decreases more.len() - i,
    {
        buffer.push(more[i]);
        i += 1;
        proof {
            assert(buffer@ =~= old(buffer)@ + more@.subrange(0, i as int));
        }
    }
    proof {
        assert(more@.subrange(0, more.len() as int) =~= more@);
    }
}

/// Appends the two bytes of `x`, low byte first.
pub fn push_u16(buffer: &mut Vec<u8>, x: u16)
    ensures
        final(buffer)@ == old(buffer)@ + le_u16(x),
{
    proof {
        reveal(le_u16);
    }
    buffer.push((x % 256) as u8);
    buffer.push((x / 256) as u8);
    proof {
        assert(buffer@ =~= old(buffer)@ + le_u16(x));
    }
}

/// Appends the four bytes of `x`, lowest byte first.
pub fn push_u32(buffer: &mut Vec<u8>, x: u32)
    ensures
        final(buffer)@ == old(buffer)@ + le_u32(x),
{
    proof {
        reveal(le_u32);
    }
    let ghost start = buffer@;
    push_u16(buffer, (x % 65536) as u16);
    push_u16(buffer, (x / 65536) as u16);
    proof {
        assert(buffer@ =~= start + le_u32(x));
    }
}

/// Appends the eight bytes of `x`, lowest byte first.
pub fn push_u64(buffer: &mut Vec<u8>, x: u64)
    ensures
        final(buffer)@ == old(buffer)@ + le_u64(x),
{
    proof {
        reveal(le_u64);
    }
    let ghost start = buffer@;
    push_u32(buffer, (x % 4294967296) as u32);
    push_u32(buffer, (x / 4294967296) as u32);
    proof {
        assert(buffer@ =~= start + le_u64(x));
    }
}

/// The `u16` that stands at `at`, low byte first.
pub fn u16_at(bytes: &[u8], at: usize) -> (x: u16)
    requires
        at + 2 <= bytes.len(),
    ensures
        x == from_le_u16(bytes@.subrange(at as int, at + 2)),
{
    proof {
        reveal(from_le_u16);
    }
    let low: u16 = bytes[at] as u16;
    let high: u16 = bytes[at + 1] as u16;
    low + 256 * high
}

/// The `u32` that stands at `at`, lowest byte first.
pub fn u32_at(bytes: &[u8], at: usize) -> (x: u32)
    requires
        at + 4 <= bytes.len(),
    ensures
        x == from_le_u32(bytes@.subrange(at as int, at + 4)),
{
    proof {
        reveal(from_le_u32);
    }
    let low: u32 = u16_at(bytes, at) as u32;
    let high: u32 = u16_at(bytes, at + 2) as u32;
    proof {
        let four = bytes@.subrange(at as int, at + 4);
        assert(four.subrange(0, 2) =~= bytes@.subrange(at as int, at + 2));
        assert(four.subrange(2, 4) =~= bytes@.subrange(at + 2, at + 4));
    }
    low + 65536 * high
}

/// The `u64` that stands at `at`, lowest byte first.
pub fn u64_at(bytes: &[u8], at: usize) -> (x: u64)
    requires
        at + 8 <= bytes.len(),
    ensures
        x == from_le_u64(bytes@.subrange(at as int, at + 8)),
{
    proof {
        reveal(from_le_u64);
    }
    let low: u64 = u32_at(bytes, at) as u64;
    let high: u64 = u32_at(bytes, at + 4) as u64;
    proof {
        let eight = bytes@.subrange(at as int, at + 8);
        assert(eight.subrange(0, 4) =~= bytes@.subrange(at as int, at + 4));
        assert(eight.subrange(4, 8) =~= bytes@.subrange(at + 4, at + 8));
    }
    low + 4294967296 * high
}

} // verus!
