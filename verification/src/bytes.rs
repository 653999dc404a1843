use vstd::prelude::*;

verus! {

/// Big-endian value of the two bytes at `i`.
pub open spec fn be16(s: Seq<u8>, i: int) -> int {
    s[i] as int * 0x100 + s[i + 1] as int
}

/// Big-endian value of the four bytes at `i`.
pub open spec fn be32(s: Seq<u8>, i: int) -> int {
    s[i] as int * 0x100_0000 + s[i + 1] as int * 0x1_0000 + s[i + 2] as int * 0x100 + s[i + 3] as int
}

/// Big-endian value of the eight bytes at `i`.
pub open spec fn be64(s: Seq<u8>, i: int) -> int {
    be32(s, i) * 0x1_0000_0000 + be32(s, i + 4)
}

/// Little-endian value of the four bytes at `i`.
pub open spec fn le32(s: Seq<u8>, i: int) -> int {
    s[i + 3] as int * 0x100_0000 + s[i + 2] as int * 0x1_0000 + s[i + 1] as int * 0x100 + s[i] as int
}

/// The big-endian encoding of a 16-bit value.
pub open spec fn be16_bytes(v: u16) -> Seq<u8> {
    seq![(v / 0x100) as u8, (v % 0x100) as u8]
}

/// The big-endian encoding of a 32-bit value.
pub open spec fn be32_bytes(v: u32) -> Seq<u8> {
    seq![(v / 0x100_0000) as u8, ((v / 0x1_0000) % 0x100) as u8, ((v / 0x100) % 0x100) as u8, (v % 0x100) as u8]
}

/// The big-endian encoding of a 64-bit value.
pub open spec fn be64_bytes(v: u64) -> Seq<u8> {
    be32_bytes((v / 0x1_0000_0000) as u32) + be32_bytes((v % 0x1_0000_0000) as u32)
}

/// The little-endian encoding of a 32-bit value.
pub open spec fn le32_bytes(v: u32) -> Seq<u8> {
    seq![(v % 0x100) as u8, ((v / 0x100) % 0x100) as u8, ((v / 0x1_0000) % 0x100) as u8, (v / 0x100_0000) as u8]
}

/// The four bytes at `i` spell `tag`.
pub open spec fn has_tag(s: Seq<u8>, i: int, tag: Seq<u8>) -> bool {
    0 <= i && i + 4 <= s.len() && s.subrange(i, i + 4) == tag
}

pub fn read_be16(s: &[u8], i: usize) -> (r: u16)
    requires
        i + 2 <= s@.len(),
    ensures
        r == be16(s@, i as int),
{
    (s[i] as u16) * 0x100 + (s[i + 1] as u16)
}

pub fn read_be32(s: &[u8], i: usize) -> (r: u32)
    requires
        i + 4 <= s@.len(),
    ensures
        r == be32(s@, i as int),
{
    (s[i] as u32) * 0x100_0000 + (s[i + 1] as u32) * 0x1_0000 + (s[i + 2] as u32) * 0x100 + (s[i + 3] as u32)
}

pub fn read_be64(s: &[u8], i: usize) -> (r: u64)
    requires
        i + 8 <= s@.len(),
    ensures
        r == be64(s@, i as int),
{
    let _n = s.len();
    let hi = read_be32(s, i);
    let lo = read_be32(s, i + 4);
    (hi as u64) * 0x1_0000_0000 + (lo as u64)
}

pub fn read_le32(s: &[u8], i: usize) -> (r: u32)
    requires
        i + 4 <= s@.len(),
    ensures
        r == le32(s@, i as int),
{
    let _n = s.len();
    (s[i + 3] as u32) * 0x100_0000 + (s[i + 2] as u32) * 0x1_0000 + (s[i + 1] as u32) * 0x100 + (s[i] as u32)
}

pub fn push_be16(out: &mut Vec<u8>, v: u16)
    ensures
        final(out)@ == old(out)@ + be16_bytes(v),
{
    out.push((v / 0x100) as u8);
    out.push((v % 0x100) as u8);
}

pub fn push_be32(out: &mut Vec<u8>, v: u32)
    ensures
        final(out)@ == old(out)@ + be32_bytes(v),
{
    out.push((v / 0x100_0000) as u8);
    out.push(((v / 0x1_0000) % 0x100) as u8);
    out.push(((v / 0x100) % 0x100) as u8);
    out.push((v % 0x100) as u8);
}

pub fn push_le32(out: &mut Vec<u8>, v: u32)
    ensures
        final(out)@ == old(out)@ + le32_bytes(v),
{
    out.push((v % 0x100) as u8);
    out.push(((v / 0x100) % 0x100) as u8);
    out.push(((v / 0x1_0000) % 0x100) as u8);
    out.push((v / 0x100_0000) as u8);
}

/// Appends `s[start..end]` to `out`.
pub fn push_range(out: &mut Vec<u8>, s: &[u8], start: usize, end: usize)
    requires
        start <= end <= s@.len(),
    ensures
        final(out)@ == old(out)@ + s@.subrange(start as int, end as int),
{
    let part = vstd::slice::slice_subrange(s, start, end);
    out.extend_from_slice(part);
    assert(out@ =~= old(out)@ + s@.subrange(start as int, end as int));
}

/// `p` is a prefix of `s`.
pub open spec fn starts_with(s: Seq<u8>, p: Seq<u8>) -> bool {
    p.len() <= s.len() && s.subrange(0, p.len() as int) == p
}

pub fn has_prefix(s: &[u8], p: &[u8]) -> (r: bool)
    ensures
        r == starts_with(s@, p@),
{
    if p.len() > s.len() {
        return false;
    }
    let mut i: usize = 0;
    while i < p.len()
        invariant
            p@.len() <= s@.len(),
            i <= p@.len(),
            forall|k: int| 0 <= k < i ==> s@[k] == p@[k],
        decreases p@.len() - i,
    {
        if s[i] != p[i] {
            assert(s@.subrange(0, p@.len() as int)[i as int] != p@[i as int]);
            return false;
        }
        i += 1;
    }
    assert(s@.subrange(0, p@.len() as int) =~= p@);
    true
}

/// Whether the four bytes at `i` equal `tag`.
pub fn tag_at(s: &[u8], i: usize, tag: [u8; 4]) -> (r: bool)
    ensures
        r == has_tag(s@, i as int, tag@),
{
    if i > s.len() || s.len() - i < 4 {
        return false;
    }
    let r = s[i] == tag[0] && s[i + 1] == tag[1] && s[i + 2] == tag[2] && s[i + 3] == tag[3];
    assert(r == (s@.subrange(i as int, i + 4) =~= tag@));
    r
}

/// Decoding the big-endian encoding of `v` gives `v` back.
pub proof fn lemma_be32_roundtrip(v: u32)
    ensures
        be32(be32_bytes(v), 0) == v,
{
    let b = be32_bytes(v);
    assert(b[0] as int * 0x100_0000 + b[1] as int * 0x1_0000 + b[2] as int * 0x100 + b[3] as int == v as int) by {
        assert(((v / 0x100_0000) as u8) as u32 * 0x100_0000 + (((v / 0x1_0000) % 0x100) as u8) as u32 * 0x1_0000
            + (((v / 0x100) % 0x100) as u8) as u32 * 0x100 + ((v % 0x100) as u8) as u32 == v) by (bit_vector);
    }
}

/// Decoding the little-endian encoding of `v` gives `v` back.
pub proof fn lemma_le32_roundtrip(v: u32)
    ensures
        le32(le32_bytes(v), 0) == v,
{
    let b = le32_bytes(v);
    assert(b[3] as int * 0x100_0000 + b[2] as int * 0x1_0000 + b[1] as int * 0x100 + b[0] as int == v as int) by {
        assert(((v / 0x100_0000) as u8) as u32 * 0x100_0000 + (((v / 0x1_0000) % 0x100) as u8) as u32 * 0x1_0000
            + (((v / 0x100) % 0x100) as u8) as u32 * 0x100 + ((v % 0x100) as u8) as u32 == v) by (bit_vector);
    }
}

/// Encoding the big-endian value of two bytes gives the bytes back.
pub proof fn lemma_be16_bytes_of(s: Seq<u8>, i: int)
    requires
        0 <= i,
        i + 2 <= s.len(),
    ensures
        be16_bytes(be16(s, i) as u16) == s.subrange(i, i + 2),
{
    let (a, b) = (s[i], s[i + 1]);
    assert((((a as u16) * 0x100 + (b as u16)) / 0x100) as u8 == a && (((a as u16) * 0x100 + (b as u16)) % 0x100) as u8
        == b) by (bit_vector);
    assert(be16_bytes(be16(s, i) as u16) =~= s.subrange(i, i + 2));
}

/// Encoding the big-endian value of four bytes gives the bytes back.
pub proof fn lemma_be32_bytes_of(s: Seq<u8>, i: int)
    requires
        0 <= i,
        i + 4 <= s.len(),
    ensures
        be32_bytes(be32(s, i) as u32) == s.subrange(i, i + 4),
{
    let (a, b, c, d) = (s[i], s[i + 1], s[i + 2], s[i + 3]);
    assert((((a as u32) * 0x100_0000 + (b as u32) * 0x1_0000 + (c as u32) * 0x100 + (d as u32)) / 0x100_0000) as u8 == a
        && ((((a as u32) * 0x100_0000 + (b as u32) * 0x1_0000 + (c as u32) * 0x100 + (d as u32)) / 0x1_0000) % 0x100) as u8 == b
        && ((((a as u32) * 0x100_0000 + (b as u32) * 0x1_0000 + (c as u32) * 0x100 + (d as u32)) / 0x100) % 0x100) as u8 == c
        && (((a as u32) * 0x100_0000 + (b as u32) * 0x1_0000 + (c as u32) * 0x100 + (d as u32)) % 0x100) as u8 == d)
        by (bit_vector);
    assert(be32_bytes(be32(s, i) as u32) =~= s.subrange(i, i + 4));
}

/// Reading the bytes at a position in a concatenation reads the right-hand part.
pub proof fn lemma_be32_shift(a: Seq<u8>, b: Seq<u8>, i: int)
    requires
        0 <= i,
        i + 4 <= b.len(),
    ensures
        be32(a + b, a.len() + i) == be32(b, i),
{
    assert((a + b)[a.len() + i] == b[i]);
    assert((a + b)[a.len() + i + 1] == b[i + 1]);
    assert((a + b)[a.len() + i + 2] == b[i + 2]);
    assert((a + b)[a.len() + i + 3] == b[i + 3]);
}

/// The little-endian encoding of the value read at `i` is the four bytes there.
pub proof fn lemma_le32_bytes_of(s: Seq<u8>, i: int)
    requires
        0 <= i,
        i + 4 <= s.len(),
    ensures
        le32_bytes(le32(s, i) as u32) == s.subrange(i, i + 4),
{
    let (a, b, c, d) = (s[i], s[i + 1], s[i + 2], s[i + 3]);
    assert((((d as u32) * 0x100_0000 + (c as u32) * 0x1_0000 + (b as u32) * 0x100 + (a as u32)) % 0x100) as u8 == a
        && ((((d as u32) * 0x100_0000 + (c as u32) * 0x1_0000 + (b as u32) * 0x100 + (a as u32)) / 0x100) % 0x100) as u8 == b
        && ((((d as u32) * 0x100_0000 + (c as u32) * 0x1_0000 + (b as u32) * 0x100 + (a as u32)) / 0x1_0000) % 0x100) as u8 == c
        && (((d as u32) * 0x100_0000 + (c as u32) * 0x1_0000 + (b as u32) * 0x100 + (a as u32)) / 0x100_0000) as u8 == d)
        by (bit_vector);
    assert(le32_bytes(le32(s, i) as u32) =~= s.subrange(i, i + 4));
}

} // verus!
