//! Integers in byte sequences: the ring is little-endian, SCSI is big-endian.
use vstd::prelude::*;

verus! {

/// The little-endian 32-bit integer at `at`.
pub open spec fn le32(s: Seq<u8>, at: int) -> int {
    s[at] + 0x100 * s[at + 1] + 0x1_0000 * s[at + 2] + 0x100_0000 * s[at + 3]
}

/// The little-endian 64-bit integer at `at`.
pub open spec fn le64(s: Seq<u8>, at: int) -> int {
    le32(s, at) + 0x1_0000_0000 * le32(s, at + 4)
}

/// The big-endian 16-bit integer at `at`.
pub open spec fn be16(s: Seq<u8>, at: int) -> int {
    0x100 * s[at] + s[at + 1]
}

/// The big-endian 32-bit integer at `at`.
pub open spec fn be32(s: Seq<u8>, at: int) -> int {
    0x1_0000 * be16(s, at) + be16(s, at + 2)
}

/// The big-endian 64-bit integer at `at`.
pub open spec fn be64(s: Seq<u8>, at: int) -> int {
    0x1_0000_0000 * be32(s, at) + be32(s, at + 4)
}

/// The four bytes of `v`, most significant first.
pub open spec fn be32_bytes(v: u32) -> Seq<u8> {
    seq![
        (v / 0x100_0000) as u8,
        (v / 0x1_0000 % 0x100) as u8,
        (v / 0x100 % 0x100) as u8,
        (v % 0x100) as u8,
    ]
}

/// The eight bytes of `v`, most significant first.
pub open spec fn be64_bytes(v: u64) -> Seq<u8> {
    be32_bytes((v / 0x1_0000_0000) as u32) + be32_bytes((v % 0x1_0000_0000) as u32)
}

/// Reads the little-endian 32-bit integer at `at`.
pub fn get_le32(s: &[u8], at: usize) -> (v: u32)
    requires
        at + 4 <= s.len(),
    ensures
        v == le32(s@, at as int),
{
    s[at] as u32 + 0x100 * (s[at + 1] as u32) + 0x1_0000 * (s[at + 2] as u32) + 0x100_0000 * (
    s[at + 3] as u32)
}

/// Reads the little-endian 64-bit integer at `at`.
pub fn get_le64(s: &[u8], at: usize) -> (v: u64)
    requires
        at + 8 <= s.len(),
    ensures
        v == le64(s@, at as int),
{
    get_le32(s, at) as u64 + 0x1_0000_0000 * (get_le32(s, at + 4) as u64)
}

/// Reads the big-endian 16-bit integer at `at`.
pub fn get_be16(s: &[u8], at: usize) -> (v: u16)
    requires
        at + 2 <= s.len(),
    ensures
        v == be16(s@, at as int),
{
    0x100 * (s[at] as u16) + s[at + 1] as u16
}

/// Reads the big-endian 32-bit integer at `at`.
pub fn get_be32(s: &[u8], at: usize) -> (v: u32)
    requires
        at + 4 <= s.len(),
    ensures
        v == be32(s@, at as int),
{
    0x1_0000 * (get_be16(s, at) as u32) + get_be16(s, at + 2) as u32
}

/// Reads the big-endian 64-bit integer at `at`.
pub fn get_be64(s: &[u8], at: usize) -> (v: u64)
    requires
        at + 8 <= s.len(),
    ensures
        v == be64(s@, at as int),
{
    0x1_0000_0000 * (get_be32(s, at) as u64) + get_be32(s, at + 4) as u64
}

/// Appends the four bytes of `v`, most significant first.
pub fn push_be32(out: &mut Vec<u8>, v: u32)
    ensures
        final(out)@ == old(out)@ + be32_bytes(v),
{
    out.push((v / 0x100_0000) as u8);
    out.push((v / 0x1_0000 % 0x100) as u8);
    out.push((v / 0x100 % 0x100) as u8);
    out.push((v % 0x100) as u8);
    assert(out@ =~= old(out)@ + be32_bytes(v));
}

/// Appends the eight bytes of `v`, most significant first.
pub fn push_be64(out: &mut Vec<u8>, v: u64)
    ensures
        final(out)@ == old(out)@ + be64_bytes(v),
{
    push_be32(out, (v / 0x1_0000_0000) as u32);
    push_be32(out, (v % 0x1_0000_0000) as u32);
    assert(out@ =~= old(out)@ + be64_bytes(v));
}

/// A big-endian 32-bit integer reads back as what was written.
pub proof fn lemma_be32_round_trip(v: u32)
    ensures
        be32_bytes(v).len() == 4,
        be32(be32_bytes(v), 0) == v,
{
}

/// A big-endian 64-bit integer reads back as what was written.
pub proof fn lemma_be64_round_trip(v: u64)
    ensures
        be64_bytes(v).len() == 8,
        be64(be64_bytes(v), 0) == v,
{
    lemma_be32_round_trip((v / 0x1_0000_0000) as u32);
    lemma_be32_round_trip((v % 0x1_0000_0000) as u32);
}

/// In a little-endian integer byte `k` has the weight 256 to the power of `k`.
pub proof fn lemma_le32_bytes(s: Seq<u8>, at: int)
    ensures
        0 <= le32(s, at) <= 0xffff_ffff,
        le32(s, at) % 0x100 == s[at],
        le32(s, at) / 0x100 % 0x100 == s[at + 1],
        le32(s, at) / 0x1_0000 % 0x100 == s[at + 2],
        le32(s, at) / 0x100_0000 == s[at + 3],
{
}

/// A little-endian 64-bit integer holds its low half in the first four bytes and its high half in
/// the next four.
pub proof fn lemma_le64_halves(s: Seq<u8>, at: int)
    ensures
        0 <= le64(s, at) <= 0xffff_ffff_ffff_ffff,
        le64(s, at) % 0x1_0000_0000 == le32(s, at),
        le64(s, at) / 0x1_0000_0000 == le32(s, at + 4),
{
    lemma_le32_bytes(s, at);
    lemma_le32_bytes(s, at + 4);
}

/// In a big-endian integer the last byte has the weight 1, and each byte before it 256 times that
/// of the next.
pub proof fn lemma_be32_bytes(s: Seq<u8>, at: int)
    ensures
        0 <= be16(s, at) <= 0xffff,
        be16(s, at) % 0x100 == s[at + 1],
        be16(s, at) / 0x100 == s[at],
        0 <= be32(s, at) <= 0xffff_ffff,
        be32(s, at) % 0x100 == s[at + 3],
        be32(s, at) / 0x100 % 0x100 == s[at + 2],
        be32(s, at) / 0x1_0000 % 0x100 == s[at + 1],
        be32(s, at) / 0x100_0000 == s[at],
{
}

/// A big-endian 64-bit integer holds its high half in the first four bytes and its low half in the
/// next four.
pub proof fn lemma_be64_halves(s: Seq<u8>, at: int)
    ensures
        0 <= be64(s, at) <= 0xffff_ffff_ffff_ffff,
        be64(s, at) % 0x1_0000_0000 == be32(s, at + 4),
        be64(s, at) / 0x1_0000_0000 == be32(s, at),
{
    lemma_be32_bytes(s, at);
    lemma_be32_bytes(s, at + 4);
}

} // verus!
