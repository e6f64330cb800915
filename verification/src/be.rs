//! Big-endian integers: the form in which document ids, positions and field
//! ids stand inside keys, so that byte order and numeric order agree.

use vstd::prelude::*;

verus! {

/// The four bytes of `x`, most significant first.
pub open spec fn u32_to_be(x: u32) -> Seq<u8> {
    seq![
        (x / 0x100_0000) as u8,
        ((x / 0x1_0000) % 0x100) as u8,
        ((x / 0x100) % 0x100) as u8,
        (x % 0x100) as u8,
    ]
}

/// The integer whose big-endian bytes are the first four of `bytes`.
pub open spec fn u32_from_be(bytes: Seq<u8>) -> u32
    recommends
        bytes.len() >= 4,
{
    (bytes[0] * 0x100_0000 + bytes[1] * 0x1_0000 + bytes[2] * 0x100 + bytes[3]) as u32
}

/// The two bytes of `x`, most significant first.
pub open spec fn u16_to_be(x: u16) -> Seq<u8> {
    seq![(x / 0x100) as u8, (x % 0x100) as u8]
}

/// The integer whose big-endian bytes are the first two of `bytes`.
pub open spec fn u16_from_be(bytes: Seq<u8>) -> u16
    recommends
        bytes.len() >= 2,
{
    (bytes[0] * 0x100 + bytes[1]) as u16
}

/// The eight bytes of `x`, most significant first.
pub open spec fn u64_to_be(x: u64) -> Seq<u8> {
    u32_to_be((x / 0x1_0000_0000) as u32) + u32_to_be((x % 0x1_0000_0000) as u32)
}

/// The integer whose big-endian bytes are the first eight of `bytes`.
pub open spec fn u64_from_be(bytes: Seq<u8>) -> u64
    recommends
        bytes.len() >= 8,
{
    (u32_from_be(bytes.subrange(0, 4)) * 0x1_0000_0000 + u32_from_be(bytes.subrange(4, 8))) as u64
}

/// Reading what was written gives the integer back.
pub proof fn lemma_u32_be_roundtrip(x: u32)
    ensures
        u32_to_be(x).len() == 4,
        u32_from_be(u32_to_be(x)) == x,
{
}

/// Writing what was read gives the four bytes back.
pub proof fn lemma_u32_be_bytes(bytes: Seq<u8>)
    requires
        bytes.len() == 4,
    ensures
        u32_to_be(u32_from_be(bytes)) == bytes,
{
    assert(u32_to_be(u32_from_be(bytes)) =~= bytes);
}

/// Reading what was written gives the integer back.
pub proof fn lemma_u16_be_roundtrip(x: u16)
    ensures
        u16_to_be(x).len() == 2,
        u16_from_be(u16_to_be(x)) == x,
{
}

/// Reading what was written gives the integer back.
pub proof fn lemma_u64_be_roundtrip(x: u64)
    ensures
        u64_to_be(x).len() == 8,
        u64_from_be(u64_to_be(x)) == x,
{
    let hi = (x / 0x1_0000_0000) as u32;
    let lo = (x % 0x1_0000_0000) as u32;
    lemma_u32_be_roundtrip(hi);
    lemma_u32_be_roundtrip(lo);
    assert(u64_to_be(x).subrange(0, 4) =~= u32_to_be(hi));
    assert(u64_to_be(x).subrange(4, 8) =~= u32_to_be(lo));
}

/// Writing what was read gives the eight bytes back.
pub proof fn lemma_u64_be_bytes(bytes: Seq<u8>)
    requires
        bytes.len() == 8,
    ensures
        u64_to_be(u64_from_be(bytes)) == bytes,
{
    let hi = u32_from_be(bytes.subrange(0, 4));
    let lo = u32_from_be(bytes.subrange(4, 8));
    lemma_u32_be_bytes(bytes.subrange(0, 4));
    lemma_u32_be_bytes(bytes.subrange(4, 8));
    let x = u64_from_be(bytes);
    assert((x / 0x1_0000_0000) as u32 == hi);
    assert((x % 0x1_0000_0000) as u32 == lo);
    assert(u64_to_be(x) =~= bytes);
}

/// Appends the big-endian bytes of `x` to `out`.
pub fn push_u32_be(out: &mut Vec<u8>, x: u32)
    ensures
        final(out)@ == old(out)@ + u32_to_be(x),
{
    out.push((x / 0x100_0000) as u8);
    out.push(((x / 0x1_0000) % 0x100) as u8);
    out.push(((x / 0x100) % 0x100) as u8);
    out.push((x % 0x100) as u8);
    assert(out@ =~= old(out)@ + u32_to_be(x));
}

/// Appends the big-endian bytes of `x` to `out`.
pub fn push_u16_be(out: &mut Vec<u8>, x: u16)
    ensures
        final(out)@ == old(out)@ + u16_to_be(x),
{
    out.push((x / 0x100) as u8);
    out.push((x % 0x100) as u8);
    assert(out@ =~= old(out)@ + u16_to_be(x));
}

/// Appends the big-endian bytes of `x` to `out`.
pub fn push_u64_be(out: &mut Vec<u8>, x: u64)
    ensures
        final(out)@ == old(out)@ + u64_to_be(x),
{
    push_u32_be(out, (x / 0x1_0000_0000) as u32);
    push_u32_be(out, (x % 0x1_0000_0000) as u32);
    assert(out@ =~= old(out)@ + u64_to_be(x));
}

/// Reads the big-endian integer that stands at `at`.
pub fn read_u32_be(bytes: &[u8], at: usize) -> (x: u32)
    requires
        at + 4 <= bytes@.len(),
    ensures
        x == u32_from_be(bytes@.subrange(at as int, at + 4)),
{
    let b0 = bytes[at] as u32;
    let b1 = bytes[at + 1] as u32;
    let b2 = bytes[at + 2] as u32;
    let b3 = bytes[at + 3] as u32;
    b0 * 0x100_0000 + b1 * 0x1_0000 + b2 * 0x100 + b3
}

/// Reads the big-endian integer that stands at `at`.
pub fn read_u16_be(bytes: &[u8], at: usize) -> (x: u16)
    requires
        at + 2 <= bytes@.len(),
    ensures
        x == u16_from_be(bytes@.subrange(at as int, at + 2)),
{
    let b0 = bytes[at] as u16;
    let b1 = bytes[at + 1] as u16;
    b0 * 0x100 + b1
}

/// Reads the big-endian integer that stands at `at`.
pub fn read_u64_be(bytes: &[u8], at: usize) -> (x: u64)
    requires
        at + 8 <= bytes@.len(),
    ensures
        x == u64_from_be(bytes@.subrange(at as int, at + 8)),
{
    let len = bytes.len();
    assert(at + 8 <= len);
    let hi = read_u32_be(bytes, at) as u64;
    let lo = read_u32_be(bytes, at + 4) as u64;
    proof {
        let window = bytes@.subrange(at as int, at + 8);
        assert(window.subrange(0, 4) =~= bytes@.subrange(at as int, at + 4));
        assert(window.subrange(4, 8) =~= bytes@.subrange(at + 4, at + 8));
    }
    hi * 0x1_0000_0000 + lo
}

} // verus!
