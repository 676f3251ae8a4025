use vstd::prelude::*;

verus! {

/// The bits of an entry's first word that hold its op code. The others hold its length.
pub const TCMU_OP_MASK: u32 = 7;

/// The op code in the first word of an entry.
pub open spec fn hdr_op(len_op: int) -> int {
    len_op % 8
}

/// The length in the first word of an entry.
pub open spec fn hdr_len(len_op: int) -> int {
    len_op - len_op % 8
}

/// The op code in the first word of an entry: its three lowest bits.
pub fn tcmu_hdr_get_op(len_op: u32) -> (op: u32)
    ensures
        op == hdr_op(len_op as int),
{
    assert(len_op & 7 == len_op % 8) by (bit_vector);
    len_op & TCMU_OP_MASK
}

/// The length in the first word of an entry: the word without its op code. It counts bytes and
/// is a multiple of eight.
pub fn tcmu_hdr_get_len(len_op: u32) -> (len: u32)
    ensures
        len == hdr_len(len_op as int),
{
    assert(len_op & !7u32 == len_op - len_op % 8) by (bit_vector);
    len_op & !TCMU_OP_MASK
}

/// The length is a multiple of eight, the op code is less than that, and together they are the
/// word.
pub proof fn lemma_header_word(len_op: u32)
    ensures
        0 <= hdr_op(len_op as int) < 8,
        hdr_len(len_op as int) % 8 == 0,
        hdr_len(len_op as int) + hdr_op(len_op as int) == len_op,
{
}

} // verus!
