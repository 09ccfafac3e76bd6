//! Little-endian integers: their byte-level specification, and the
//! executable reads and writes that meet it.

use vstd::prelude::*;

verus! {

/// The two bytes of `x`, least significant first.
pub open spec fn le16(x: u16) -> Seq<u8> {
    seq![(x & 0xff) as u8, ((x >> 8) & 0xff) as u8]
}

/// The four bytes of `x`, least significant first.
pub open spec fn le32(x: u32) -> Seq<u8> {
    seq![
        (x & 0xff) as u8,
        ((x >> 8) & 0xff) as u8,
        ((x >> 16) & 0xff) as u8,
        ((x >> 24) & 0xff) as u8,
    ]
}

/// The eight bytes of `x`, least significant first.
pub open spec fn le64(x: u64) -> Seq<u8> {
    le32((x & 0xffff_ffff) as u32) + le32((x >> 32) as u32)
}

/// The integer whose little-endian bytes are `s[at]` and `s[at + 1]`.
pub open spec fn read16(s: Seq<u8>, at: int) -> u16 {
    (s[at] as u16) | ((s[at + 1] as u16) << 8)
}

/// The integer whose little-endian bytes are `s[at .. at + 4]`.
pub open spec fn read32(s: Seq<u8>, at: int) -> u32 {
    (s[at] as u32) | ((s[at + 1] as u32) << 8) | ((s[at + 2] as u32) << 16) | ((s[at + 3] as u32)
        << 24)
}

/// The integer whose little-endian bytes are `s[at .. at + 8]`.
pub open spec fn read64(s: Seq<u8>, at: int) -> u64 {
    (read32(s, at) as u64) | ((read32(s, at + 4) as u64) << 32)
}

proof fn lemma_u16_split(x: u16)
    ensures
        x == (((x & 0xff) as u8) as u16) | ((((x >> 8) & 0xff) as u8) as u16) << 8,
{
    assert(x == (((x & 0xff) as u8) as u16) | ((((x >> 8) & 0xff) as u8) as u16) << 8)
        by (bit_vector);
}

proof fn lemma_u16_join(b0: u8, b1: u8)
    ensures
        ((((b0 as u16) | ((b1 as u16) << 8)) & 0xff) as u8) == b0,
        (((((b0 as u16) | ((b1 as u16) << 8)) >> 8) & 0xff) as u8) == b1,
{
    assert(((((b0 as u16) | ((b1 as u16) << 8)) & 0xff) as u8) == b0) by (bit_vector);
    assert((((((b0 as u16) | ((b1 as u16) << 8)) >> 8) & 0xff) as u8) == b1) by (bit_vector);
}

proof fn lemma_u32_split(x: u32)
    ensures
        x == (((x & 0xff) as u8) as u32) | ((((x >> 8) & 0xff) as u8) as u32) << 8 | ((((x >> 16)
            & 0xff) as u8) as u32) << 16 | ((((x >> 24) & 0xff) as u8) as u32) << 24,
{
    assert(x == (((x & 0xff) as u8) as u32) | ((((x >> 8) & 0xff) as u8) as u32) << 8 | ((((x
        >> 16) & 0xff) as u8) as u32) << 16 | ((((x >> 24) & 0xff) as u8) as u32) << 24)
        by (bit_vector);
}

proof fn lemma_u32_join(b0: u8, b1: u8, b2: u8, b3: u8)
    ensures
        ({
            let x = (b0 as u32) | ((b1 as u32) << 8) | ((b2 as u32) << 16) | ((b3 as u32) << 24);
            &&& ((x & 0xff) as u8) == b0
            &&& (((x >> 8) & 0xff) as u8) == b1
            &&& (((x >> 16) & 0xff) as u8) == b2
            &&& (((x >> 24) & 0xff) as u8) == b3
        }),
{
    assert({
        let x = (b0 as u32) | ((b1 as u32) << 8) | ((b2 as u32) << 16) | ((b3 as u32) << 24);
        &&& ((x & 0xff) as u8) == b0
        &&& (((x >> 8) & 0xff) as u8) == b1
        &&& (((x >> 16) & 0xff) as u8) == b2
        &&& (((x >> 24) & 0xff) as u8) == b3
    }) by (bit_vector);
}

proof fn lemma_u64_split(x: u64)
    ensures
        x == (((x & 0xffff_ffff) as u32) as u64) | ((((x >> 32) as u32) as u64) << 32),
{
    assert(x == (((x & 0xffff_ffff) as u32) as u64) | ((((x >> 32) as u32) as u64) << 32))
        by (bit_vector);
}

proof fn lemma_u64_join(lo: u32, hi: u32)
    ensures
        ((((lo as u64) | ((hi as u64) << 32)) & 0xffff_ffff) as u32) == lo,
        ((((lo as u64) | ((hi as u64) << 32)) >> 32) as u32) == hi,
{
    assert(((((lo as u64) | ((hi as u64) << 32)) & 0xffff_ffff) as u32) == lo) by (bit_vector);
    assert(((((lo as u64) | ((hi as u64) << 32)) >> 32) as u32) == hi) by (bit_vector);
}

/// Reading back the bytes of a 16-bit integer gives the integer.
pub proof fn lemma_read16_le16(x: u16, s: Seq<u8>, at: int)
    requires
        0 <= at,
        at + 2 <= s.len(),
        s.subrange(at, at + 2) == le16(x),
    ensures
        read16(s, at) == x,
{
    assert(s[at] == le16(x)[0] && s[at + 1] == le16(x)[1]) by {
        assert(s.subrange(at, at + 2)[0] == s[at]);
        assert(s.subrange(at, at + 2)[1] == s[at + 1]);
    }
    lemma_u16_split(x);
}

/// The bytes of a 16-bit integer read from `s` are the bytes it was read from.
pub proof fn lemma_le16_read16(s: Seq<u8>, at: int)
    requires
        0 <= at,
        at + 2 <= s.len(),
    ensures
        le16(read16(s, at)) == s.subrange(at, at + 2),
{
    lemma_u16_join(s[at], s[at + 1]);
    assert(le16(read16(s, at)) =~= s.subrange(at, at + 2));
}

/// Reading back the bytes of a 32-bit integer gives the integer.
pub proof fn lemma_read32_le32(x: u32, s: Seq<u8>, at: int)
    requires
        0 <= at,
        at + 4 <= s.len(),
        s.subrange(at, at + 4) == le32(x),
    ensures
        read32(s, at) == x,
{
    assert(s[at] == le32(x)[0] && s[at + 1] == le32(x)[1] && s[at + 2] == le32(x)[2] && s[at
        + 3] == le32(x)[3]) by {
        assert(s.subrange(at, at + 4)[0] == s[at]);
        assert(s.subrange(at, at + 4)[1] == s[at + 1]);
        assert(s.subrange(at, at + 4)[2] == s[at + 2]);
        assert(s.subrange(at, at + 4)[3] == s[at + 3]);
    }
    lemma_u32_split(x);
}

/// The bytes of a 32-bit integer read from `s` are the bytes it was read from.
pub proof fn lemma_le32_read32(s: Seq<u8>, at: int)
    requires
        0 <= at,
        at + 4 <= s.len(),
    ensures
        le32(read32(s, at)) == s.subrange(at, at + 4),
{
    lemma_u32_join(s[at], s[at + 1], s[at + 2], s[at + 3]);
    assert(le32(read32(s, at)) =~= s.subrange(at, at + 4));
}

/// Reading back the bytes of a 64-bit integer gives the integer.
pub proof fn lemma_read64_le64(x: u64, s: Seq<u8>, at: int)
    requires
        0 <= at,
        at + 8 <= s.len(),
        s.subrange(at, at + 8) == le64(x),
    ensures
        read64(s, at) == x,
{
    let lo = (x & 0xffff_ffff) as u32;
    let hi = (x >> 32) as u32;
    assert(s.subrange(at, at + 4) =~= s.subrange(at, at + 8).subrange(0, 4));
    assert(s.subrange(at + 4, at + 8) =~= s.subrange(at, at + 8).subrange(4, 8));
    assert(le64(x).subrange(0, 4) =~= le32(lo));
    assert(le64(x).subrange(4, 8) =~= le32(hi));
    lemma_read32_le32(lo, s, at);
    lemma_read32_le32(hi, s, at + 4);
    lemma_u64_split(x);
}

/// The bytes of a 64-bit integer read from `s` are the bytes it was read from.
pub proof fn lemma_le64_read64(s: Seq<u8>, at: int)
    requires
        0 <= at,
        at + 8 <= s.len(),
    ensures
        le64(read64(s, at)) == s.subrange(at, at + 8),
{
    let lo = read32(s, at);
    let hi = read32(s, at + 4);
    lemma_u64_join(lo, hi);
    lemma_le32_read32(s, at);
    lemma_le32_read32(s, at + 4);
    assert(le64(read64(s, at)) =~= s.subrange(at, at + 8));
}

/// Appends the two little-endian bytes of `x`.
pub fn push16(out: &mut Vec<u8>, x: u16)
    ensures
        final(out)@ == old(out)@ + le16(x),
{
    out.push((x & 0xff) as u8);
    out.push(((x >> 8) & 0xff) as u8);
    assert(final(out)@ =~= old(out)@ + le16(x));
}

/// Appends the four little-endian bytes of `x`.
pub fn push32(out: &mut Vec<u8>, x: u32)
    ensures
        final(out)@ == old(out)@ + le32(x),
{
    out.push((x & 0xff) as u8);
    out.push(((x >> 8) & 0xff) as u8);
    out.push(((x >> 16) & 0xff) as u8);
    out.push(((x >> 24) & 0xff) as u8);
    assert(final(out)@ =~= old(out)@ + le32(x));
}

/// Appends the eight little-endian bytes of `x`.
pub fn push64(out: &mut Vec<u8>, x: u64)
    ensures
        final(out)@ == old(out)@ + le64(x),
{
    push32(out, (x & 0xffff_ffff) as u32);
    push32(out, (x >> 32) as u32);
    assert(final(out)@ =~= old(out)@ + le64(x));
}

/// The 16-bit integer stored little-endian at `s[at]`.
pub fn get16(s: &[u8], at: usize) -> (r: u16)
    requires
        at + 2 <= s@.len(),
    ensures
        r == read16(s@, at as int),
{
    (s[at] as u16) | ((s[at + 1] as u16) << 8)
}

/// The 32-bit integer stored little-endian at `s[at]`.
pub fn get32(s: &[u8], at: usize) -> (r: u32)
    requires
        at + 4 <= s@.len(),
    ensures
        r == read32(s@, at as int),
{
    (s[at] as u32) | ((s[at + 1] as u32) << 8) | ((s[at + 2] as u32) << 16) | ((s[at + 3] as u32)
        << 24)
}

/// The 64-bit integer stored little-endian at `s[at]`.
pub fn get64(s: &[u8], at: usize) -> (r: u64)
    requires
        at + 8 <= s@.len(),
    ensures
        r == read64(s@, at as int),
{
    let len = s.len();
    assert(at + 8 <= len);
    let lo = get32(s, at);
    let hi = get32(s, at + 4);
    (lo as u64) | ((hi as u64) << 32)
}

/// Little-endian: the bytes of `x`, the first weighing 1 and each next one
/// 256 times more, add up to `x`.
pub proof fn lemma_le_values(a: u16, b: u32, c: u64)
    ensures
        le16(a).len() == 2,
        le16(a)[0] + 256 * le16(a)[1] == a,
        le32(b).len() == 4,
        le32(b)[0] + 0x100 * le32(b)[1] + 0x1_0000 * le32(b)[2] + 0x100_0000 * le32(b)[3] == b,
        le64(c).len() == 8,
        le64(c)[0] + 0x100 * le64(c)[1] + 0x1_0000 * le64(c)[2] + 0x100_0000 * le64(c)[3]
            + 0x1_0000_0000 * le64(c)[4] + 0x100_0000_0000 * le64(c)[5] + 0x1_0000_0000_0000
            * le64(c)[6] + 0x100_0000_0000_0000 * le64(c)[7] == c,
{
    assert(((a & 0xff) as u8) + 256 * (((a >> 8) & 0xff) as u8) == a) by (bit_vector);
    assert(((b & 0xff) as u8) + 0x100 * (((b >> 8) & 0xff) as u8) + 0x1_0000 * (((b >> 16)
        & 0xff) as u8) + 0x100_0000 * (((b >> 24) & 0xff) as u8) == b) by (bit_vector);
    let lo = (c & 0xffff_ffff) as u32;
    let hi = (c >> 32) as u32;
    assert(((lo & 0xff) as u8) + 0x100 * (((lo >> 8) & 0xff) as u8) + 0x1_0000 * (((lo >> 16)
        & 0xff) as u8) + 0x100_0000 * (((lo >> 24) & 0xff) as u8) == lo) by (bit_vector);
    assert(((hi & 0xff) as u8) + 0x100 * (((hi >> 8) & 0xff) as u8) + 0x1_0000 * (((hi >> 16)
        & 0xff) as u8) + 0x100_0000 * (((hi >> 24) & 0xff) as u8) == hi) by (bit_vector);
    assert(lo + 0x1_0000_0000 * hi == c) by (bit_vector)
        requires
            lo == (c & 0xffff_ffff) as u32,
            hi == (c >> 32) as u32,
    ;
}

} // verus!

