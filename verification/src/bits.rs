//! Bit-level model of a storage chunk: which boolean each bit of a `u8`
//! stands for, and how the masking operations used by the container move
//! single bits around.

use vstd::prelude::*;

verus! {

/// The boolean stored at bit position `k` (0 = least significant) of chunk `c`.
pub open spec fn nth_bit(c: u8, k: u8) -> bool {
    c & (1u8 << k) != 0
}

/// A zero chunk stores `false` at every position.
pub proof fn lemma_nth_bit_zero(k: u8)
    by (bit_vector)
    ensures
        !nth_bit(0u8, k),
{
}

/// Setting bit `j` of a chunk turns position `j` to `true` and leaves every
/// other position unchanged.
pub proof fn lemma_nth_bit_or_mask(c: u8, j: u8, k: u8)
    by (bit_vector)
    requires
        j < 8,
        k < 8,
    ensures
        nth_bit(c | (1u8 << j), k) == (k == j || nth_bit(c, k)),
{
}

/// Clearing bit `j` of a chunk turns position `j` to `false` and leaves every
/// other position unchanged.
pub proof fn lemma_nth_bit_and_not_mask(c: u8, j: u8, k: u8)
    by (bit_vector)
    requires
        j < 8,
        k < 8,
    ensures
        nth_bit(c & !(1u8 << j), k) == (k != j && nth_bit(c, k)),
{
}

/// Masking a chunk with the complement of `0xff << j` clears every position at
/// or above `j` and keeps every position below `j`.
pub proof fn lemma_nth_bit_clear_from(c: u8, j: u8, k: u8)
    by (bit_vector)
    requires
        j < 8,
        k < 8,
    ensures
        nth_bit(c & !(0xffu8 << j), k) == (k < j && nth_bit(c, k)),
{
}

} // verus!
