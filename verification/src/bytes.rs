//! Little-endian and big-endian integer decoding over byte sequences.
use vstd::prelude::*;

verus! {

/// Value of two bytes read in little-endian order.
pub open spec fn le16(b0: u8, b1: u8) -> int {
    b0 as int + 256 * (b1 as int)
}

/// Value of the two bytes at `i` read in little-endian order.
pub open spec fn le16_at(s: Seq<u8>, i: int) -> int {
    le16(s[i], s[i + 1])
}

/// Value of the four bytes at `i` read in little-endian order.
pub open spec fn le32_at(s: Seq<u8>, i: int) -> int {
    s[i] as int + 256 * (s[i + 1] as int) + 65536 * (s[i + 2] as int) + 16777216 * (
    s[i + 3] as int)
}

/// Value of the eight bytes at `i` read in little-endian order.
pub open spec fn le64_at(s: Seq<u8>, i: int) -> int {
    le32_at(s, i) + 4294967296 * le32_at(s, i + 4)
}

/// Value of the two bytes at `i` read in big-endian order.
pub open spec fn be16_at(s: Seq<u8>, i: int) -> int {
    256 * (s[i] as int) + s[i + 1] as int
}

/// Value of the four bytes at `i` read in big-endian order.
pub open spec fn be32_at(s: Seq<u8>, i: int) -> int {
    16777216 * (s[i] as int) + 65536 * (s[i + 1] as int) + 256 * (s[i + 2] as int) + s[i
        + 3] as int
}

/// Value of the sixteen bytes at `i` read in big-endian order.
pub open spec fn be128_at(s: Seq<u8>, i: int) -> int {
    be32_at(s, i) * 0x1_0000_0000_0000_0000_0000_0000 + be32_at(s, i + 4) * 0x1_0000_0000_0000_0000
        + be32_at(s, i + 8) * 0x1_0000_0000 + be32_at(s, i + 12)
}

/// Reads a little-endian `u16` at `i`.
pub fn read_le_u16(s: &[u8], i: usize) -> (r: u16)
    requires
        i + 2 <= s.len(),
    ensures
        r as int == le16_at(s@, i as int),
{
    s[i] as u16 + 256 * (s[i + 1] as u16)
}

/// Reads a little-endian `u32` at `i`.
pub fn read_le_u32(s: &[u8], i: usize) -> (r: u32)
    requires
        i + 4 <= s.len(),
    ensures
        r as int == le32_at(s@, i as int),
{
    let b0 = s[i] as u32;
    let b1 = s[i + 1] as u32;
    let b2 = s[i + 2] as u32;
    let b3 = s[i + 3] as u32;
    b0 + 256 * b1 + 65536 * b2 + 16777216 * b3
}

/// Reads a little-endian `u64` at `i`.
pub fn read_le_u64(s: &[u8], i: usize) -> (r: u64)
    requires
        i + 8 <= s.len(),
    ensures
        r as int == le64_at(s@, i as int),
{
    let lo = read_le_u32(s, i) as u64;
    let hi = read_le_u32(s, i + 4) as u64;
    lo + 4294967296 * hi
}

/// Reads a big-endian `u16` at `i`.
pub fn read_be_u16(s: &[u8], i: usize) -> (r: u16)
    requires
        i + 2 <= s.len(),
    ensures
        r as int == be16_at(s@, i as int),
{
    256 * (s[i] as u16) + s[i + 1] as u16
}

/// Reads a big-endian `u32` at `i`.
pub fn read_be_u32(s: &[u8], i: usize) -> (r: u32)
    requires
        i + 4 <= s.len(),
    ensures
        r as int == be32_at(s@, i as int),
{
    let b0 = s[i] as u32;
    let b1 = s[i + 1] as u32;
    let b2 = s[i + 2] as u32;
    let b3 = s[i + 3] as u32;
    16777216 * b0 + 65536 * b1 + 256 * b2 + b3
}

/// Reads a big-endian `u128` at `i`.
pub fn read_be_u128(s: &[u8], i: usize) -> (r: u128)
    requires
        i + 16 <= s.len(),
    ensures
        r as int == be128_at(s@, i as int),
{
    let a = read_be_u32(s, i) as u128;
    let b = read_be_u32(s, i + 4) as u128;
    let c = read_be_u32(s, i + 8) as u128;
    let d = read_be_u32(s, i + 12) as u128;
    a * 0x1_0000_0000_0000_0000_0000_0000 + b * 0x1_0000_0000_0000_0000 + c * 0x1_0000_0000 + d
}

/// The eight bytes of `v` in little-endian order.
pub open spec fn le64_bytes(v: u64) -> Seq<u8> {
    seq![
        (v & 0xff) as u8,
        ((v >> 8u64) & 0xff) as u8,
        ((v >> 16u64) & 0xff) as u8,
        ((v >> 24u64) & 0xff) as u8,
        ((v >> 32u64) & 0xff) as u8,
        ((v >> 40u64) & 0xff) as u8,
        ((v >> 48u64) & 0xff) as u8,
        ((v >> 56u64) & 0xff) as u8,
    ]
}

/// The four bytes of `v` in little-endian order.
pub open spec fn le32_bytes(v: u32) -> Seq<u8> {
    seq![
        (v & 0xff) as u8,
        ((v >> 8u32) & 0xff) as u8,
        ((v >> 16u32) & 0xff) as u8,
        ((v >> 24u32) & 0xff) as u8,
    ]
}

/// The two bytes of `v` in little-endian order.
pub open spec fn le16_bytes(v: u16) -> Seq<u8> {
    seq![(v & 0xff) as u8, ((v >> 8u16) & 0xff) as u8]
}

/// Reading back the eight bytes written for `v` gives `v`.
pub proof fn lemma_le64_roundtrip(v: u64, s: Seq<u8>, i: int)
    requires
        0 <= i,
        i + 8 <= s.len(),
        s.subrange(i, i + 8) == le64_bytes(v),
    ensures
        le64_at(s, i) == v,
{
    assert(s[i] == le64_bytes(v)[0]);
    assert(s[i + 1] == le64_bytes(v)[1]);
    assert(s[i + 2] == le64_bytes(v)[2]);
    assert(s[i + 3] == le64_bytes(v)[3]);
    assert(s[i + 4] == le64_bytes(v)[4]);
    assert(s[i + 5] == le64_bytes(v)[5]);
    assert(s[i + 6] == le64_bytes(v)[6]);
    assert(s[i + 7] == le64_bytes(v)[7]);
    let b0 = (v & 0xff) as u8;
    let b1 = ((v >> 8u64) & 0xff) as u8;
    let b2 = ((v >> 16u64) & 0xff) as u8;
    let b3 = ((v >> 24u64) & 0xff) as u8;
    let b4 = ((v >> 32u64) & 0xff) as u8;
    let b5 = ((v >> 40u64) & 0xff) as u8;
    let b6 = ((v >> 48u64) & 0xff) as u8;
    let b7 = ((v >> 56u64) & 0xff) as u8;
    assert(v as int == b0 as int + 256 * (b1 as int) + 65536 * (b2 as int) + 16777216 * (b3 as int)
        + 4294967296 * (b4 as int + 256 * (b5 as int) + 65536 * (b6 as int) + 16777216 * (
    b7 as int))) by (bit_vector)
        requires
            b0 == (v & 0xff) as u8,
            b1 == ((v >> 8u64) & 0xff) as u8,
            b2 == ((v >> 16u64) & 0xff) as u8,
            b3 == ((v >> 24u64) & 0xff) as u8,
            b4 == ((v >> 32u64) & 0xff) as u8,
            b5 == ((v >> 40u64) & 0xff) as u8,
            b6 == ((v >> 48u64) & 0xff) as u8,
            b7 == ((v >> 56u64) & 0xff) as u8,
    ;
}

/// Reading back the four bytes written for `v` gives `v`.
pub proof fn lemma_le32_roundtrip(v: u32, s: Seq<u8>, i: int)
    requires
        0 <= i,
        i + 4 <= s.len(),
        s.subrange(i, i + 4) == le32_bytes(v),
    ensures
        le32_at(s, i) == v,
{
    assert(s[i] == le32_bytes(v)[0]);
    assert(s[i + 1] == le32_bytes(v)[1]);
    assert(s[i + 2] == le32_bytes(v)[2]);
    assert(s[i + 3] == le32_bytes(v)[3]);
    let b0 = (v & 0xff) as u8;
    let b1 = ((v >> 8u32) & 0xff) as u8;
    let b2 = ((v >> 16u32) & 0xff) as u8;
    let b3 = ((v >> 24u32) & 0xff) as u8;
    assert(v as int == b0 as int + 256 * (b1 as int) + 65536 * (b2 as int) + 16777216 * (
    b3 as int)) by (bit_vector)
        requires
            b0 == (v & 0xff) as u8,
            b1 == ((v >> 8u32) & 0xff) as u8,
            b2 == ((v >> 16u32) & 0xff) as u8,
            b3 == ((v >> 24u32) & 0xff) as u8,
    ;
}

/// Reading back the two bytes written for `v` gives `v`.
pub proof fn lemma_le16_roundtrip(v: u16, s: Seq<u8>, i: int)
    requires
        0 <= i,
        i + 2 <= s.len(),
        s.subrange(i, i + 2) == le16_bytes(v),
    ensures
        le16_at(s, i) == v,
{
    assert(s[i] == le16_bytes(v)[0]);
    assert(s[i + 1] == le16_bytes(v)[1]);
    let b0 = (v & 0xff) as u8;
    let b1 = ((v >> 8u16) & 0xff) as u8;
    assert(v as int == b0 as int + 256 * (b1 as int)) by (bit_vector)
        requires
            b0 == (v & 0xff) as u8,
            b1 == ((v >> 8u16) & 0xff) as u8,
    ;
}

/// Appends the little-endian bytes of `v`.
pub fn push_le64(out: &mut Vec<u8>, v: u64)
    ensures
        final(out)@ == old(out)@ + le64_bytes(v),
{
    out.push((v & 0xff) as u8);
    out.push(((v >> 8) & 0xff) as u8);
    out.push(((v >> 16) & 0xff) as u8);
    out.push(((v >> 24) & 0xff) as u8);
    out.push(((v >> 32) & 0xff) as u8);
    out.push(((v >> 40) & 0xff) as u8);
    out.push(((v >> 48) & 0xff) as u8);
    out.push(((v >> 56) & 0xff) as u8);
    proof {
        assert(final(out)@ =~= old(out)@ + le64_bytes(v));
    }
}

/// Appends the little-endian bytes of `v`.
pub fn push_le32(out: &mut Vec<u8>, v: u32)
    ensures
        final(out)@ == old(out)@ + le32_bytes(v),
{
    out.push((v & 0xff) as u8);
    out.push(((v >> 8) & 0xff) as u8);
    out.push(((v >> 16) & 0xff) as u8);
    out.push(((v >> 24) & 0xff) as u8);
    proof {
        assert(final(out)@ =~= old(out)@ + le32_bytes(v));
    }
}

/// Appends the little-endian bytes of `v`.
pub fn push_le16(out: &mut Vec<u8>, v: u16)
    ensures
        final(out)@ == old(out)@ + le16_bytes(v),
{
    out.push((v & 0xff) as u8);
    out.push(((v >> 8) & 0xff) as u8);
    proof {
        assert(final(out)@ =~= old(out)@ + le16_bytes(v));
    }
}

/// Appends the bytes of a slice.
pub fn push_all(out: &mut Vec<u8>, src: &[u8])
    ensures
        final(out)@ == old(out)@ + src@,
{
    let mut i: usize = 0;
    while i < src.len()
        invariant
            i <= src@.len(),
            out@ == old(out)@ + src@.subrange(0, i as int),
        decreases src.len() - i,
    {
        out.push(src[i]);
        i += 1;
        proof {
            assert(out@ =~= old(out)@ + src@.subrange(0, i as int));
        }
    }
    proof {
        assert(src@.subrange(0, i as int) =~= src@);
    }
}

} // verus!
