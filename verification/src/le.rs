//! Little-endian numbers inside byte buffers.
use vstd::prelude::*;

verus! {

/// The 16-bit number at `off`.
pub open spec fn u16_at(s: Seq<u8>, off: int) -> u16 {
    (s[off] + 0x100 * s[off + 1]) as u16
}

/// The 32-bit number at `off`.
pub open spec fn u32_at(s: Seq<u8>, off: int) -> u32 {
    (s[off] + 0x100 * s[off + 1] + 0x1_0000 * s[off + 2] + 0x100_0000 * s[off + 3]) as u32
}

/// The 64-bit number at `off`.
pub open spec fn u64_at(s: Seq<u8>, off: int) -> u64 {
    (u32_at(s, off) + 0x1_0000_0000 * u32_at(s, off + 4)) as u64
}

/// The two bytes of `v`.
pub open spec fn u16_bytes(v: u16) -> Seq<u8> {
    seq![(v % 0x100) as u8, (v / 0x100) as u8]
}

/// The four bytes of `v`.
pub open spec fn u32_bytes(v: u32) -> Seq<u8> {
    seq![
        (v % 0x100) as u8,
        (v / 0x100 % 0x100) as u8,
        (v / 0x1_0000 % 0x100) as u8,
        (v / 0x100_0000) as u8,
    ]
}

/// The eight bytes of `v`.
pub open spec fn u64_bytes(v: u64) -> Seq<u8> {
    u32_bytes((v % 0x1_0000_0000) as u32) + u32_bytes((v / 0x1_0000_0000) as u32)
}

/// The bytes of the numbers `hs`, one after the other.
pub open spec fn words(hs: Seq<u32>) -> Seq<u8> {
    Seq::new(4 * hs.len(), |j: int| u32_bytes(hs[j / 4])[j % 4])
}

/// `s` with the bytes from `off` on replaced by `part`.
pub open spec fn splice(s: Seq<u8>, off: int, part: Seq<u8>) -> Seq<u8> {
    Seq::new(
        s.len(),
        |i: int|
            if off <= i < off + part.len() {
                part[i - off]
            } else {
                s[i]
            },
    )
}

/// Reads the 16-bit number at `off`.
pub fn get_u16(s: &[u8], off: usize) -> (r: u16)
    requires
        off + 2 <= s@.len(),
    ensures
        r == u16_at(s@, off as int),
{
    s[off] as u16 + 0x100 * (s[off + 1] as u16)
}

/// Reads the 32-bit number at `off`.
pub fn get_u32(s: &[u8], off: usize) -> (r: u32)
    requires
        off + 4 <= s@.len(),
    ensures
        r == u32_at(s@, off as int),
{
    s[off] as u32 + 0x100 * (s[off + 1] as u32) + 0x1_0000 * (s[off + 2] as u32) + 0x100_0000 * (
    s[off + 3] as u32)
}

/// Reads the 64-bit number at `off`.
pub fn get_u64(s: &[u8], off: usize) -> (r: u64)
    requires
        off + 8 <= s@.len(),
    ensures
        r == u64_at(s@, off as int),
{
    let low = get_u32(s, off);
    assert(off + 8 <= s.len());
    let high = get_u32(s, off + 4);
    low as u64 + 0x1_0000_0000 * (high as u64)
}

/// Writes the 16-bit number `v` at `off`.
pub fn put_u16<const N: usize>(s: &mut [u8; N], off: usize, v: u16)
    requires
        off + 2 <= N,
    ensures
        final(s)@ == splice(old(s)@, off as int, u16_bytes(v)),
{
    s[off] = (v % 0x100) as u8;
    s[off + 1] = (v / 0x100) as u8;
    assert(s@ =~= splice(old(s)@, off as int, u16_bytes(v)));
}

/// Writes the 32-bit number `v` at `off`.
pub fn put_u32<const N: usize>(s: &mut [u8; N], off: usize, v: u32)
    requires
        off + 4 <= N,
    ensures
        final(s)@ == splice(old(s)@, off as int, u32_bytes(v)),
{
    s[off] = (v % 0x100) as u8;
    s[off + 1] = (v / 0x100 % 0x100) as u8;
    s[off + 2] = (v / 0x1_0000 % 0x100) as u8;
    s[off + 3] = (v / 0x100_0000) as u8;
    assert(s@ =~= splice(old(s)@, off as int, u32_bytes(v)));
}

/// Appends the 16-bit number `v`.
pub fn push_u16(s: &mut Vec<u8>, v: u16)
    ensures
        final(s)@ == old(s)@ + u16_bytes(v),
{
    s.push((v % 0x100) as u8);
    s.push((v / 0x100) as u8);
    assert(s@ =~= old(s)@ + u16_bytes(v));
}

/// Appends the 32-bit number `v`.
pub fn push_u32(s: &mut Vec<u8>, v: u32)
    ensures
        final(s)@ == old(s)@ + u32_bytes(v),
{
    s.push((v % 0x100) as u8);
    s.push((v / 0x100 % 0x100) as u8);
    s.push((v / 0x1_0000 % 0x100) as u8);
    s.push((v / 0x100_0000) as u8);
    assert(s@ =~= old(s)@ + u32_bytes(v));
}

/// Appends the 64-bit number `v`.
pub fn push_u64(s: &mut Vec<u8>, v: u64)
    ensures
        final(s)@ == old(s)@ + u64_bytes(v),
{
    push_u32(s, (v % 0x1_0000_0000) as u32);
    push_u32(s, (v / 0x1_0000_0000) as u32);
    assert(s@ =~= old(s)@ + u64_bytes(v));
}

/// Two pieces that lie side by side are one piece.
pub proof fn lemma_splice_append(s: Seq<u8>, off: int, p: Seq<u8>, q: Seq<u8>)
    requires
        0 <= off,
    ensures
        splice(splice(s, off, p), off + p.len(), q) == splice(s, off, p + q),
{
    assert(splice(splice(s, off, p), off + p.len(), q) =~= splice(s, off, p + q));
}

proof fn lemma_u16_value(v: u16)
    ensures
        u16_at(u16_bytes(v), 0) == v,
{
}

proof fn lemma_u32_value(v: u32)
    ensures
        u32_at(u32_bytes(v), 0) == v,
{
}

/// Where the bytes of `v` lie, `v` is read.
pub proof fn lemma_u16_at(s: Seq<u8>, off: int, v: u16)
    requires
        0 <= off,
        off + 2 <= s.len(),
        s.subrange(off, off + 2) == u16_bytes(v),
    ensures
        u16_at(s, off) == v,
{
    lemma_u16_value(v);
    let t = s.subrange(off, off + 2);
    assert(t[0] == s[off] && t[1] == s[off + 1]);
}

/// Where the bytes of `v` lie, `v` is read.
pub proof fn lemma_u32_at(s: Seq<u8>, off: int, v: u32)
    requires
        0 <= off,
        off + 4 <= s.len(),
        s.subrange(off, off + 4) == u32_bytes(v),
    ensures
        u32_at(s, off) == v,
{
    lemma_u32_value(v);
    let t = s.subrange(off, off + 4);
    assert(t[0] == s[off] && t[1] == s[off + 1] && t[2] == s[off + 2] && t[3] == s[off + 3]);
}

/// Where the bytes of the numbers `hs` lie, each of them is read.
pub proof fn lemma_words_at(s: Seq<u8>, off: int, hs: Seq<u32>, i: int)
    requires
        0 <= off,
        off + 4 * hs.len() <= s.len(),
        s.subrange(off, off + 4 * hs.len()) == words(hs),
        0 <= i < hs.len(),
    ensures
        u32_at(s, off + 4 * i) == hs[i],
{
    let t = s.subrange(off + 4 * i, off + 4 * i + 4);
    assert forall|j: int| 0 <= j < 4 implies t[j] == u32_bytes(hs[i])[j] by {
        assert(words(hs)[4 * i + j] == s.subrange(off, off + 4 * hs.len())[4 * i + j]);
        assert((4 * i + j) / 4 == i && (4 * i + j) % 4 == j);
    }
    assert(t =~= u32_bytes(hs[i]));
    lemma_u32_at(s, off + 4 * i, hs[i]);
}

/// Reading a 32-bit number back gives what was written.
pub proof fn lemma_u32_roundtrip(s: Seq<u8>, off: int, v: u32)
    requires
        0 <= off,
        off + 4 <= s.len(),
    ensures
        u32_at(splice(s, off, u32_bytes(v)), off) == v,
{
    assert(splice(s, off, u32_bytes(v)).subrange(off, off + 4) =~= u32_bytes(v));
    lemma_u32_at(splice(s, off, u32_bytes(v)), off, v);
}

} // verus!
