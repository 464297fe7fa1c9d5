//! Set or clear an arbitrary, unaligned run of bits inside a region of
//! 128-bit storage sections.
//!
//! A run of bits is described by a starting bit offset and a length, both
//! measured in bits from the base of the region; bit 0 is the least
//! significant bit of the first section.  The run may start anywhere and may
//! span any number of sections.  [`set`] forces every bit of the run to 1,
//! [`clear`] forces every bit to 0, and both leave every bit outside the run
//! untouched.
//!
//! The region itself is a `Vec` of storage sections: section `i` holds bits
//! `[NUM_OF_BITS * i, NUM_OF_BITS * (i + 1))` of the region, counting from
//! the section's least significant bit.

use vstd::prelude::*;

pub mod bit_operation;
pub mod bit_string;

verus! {

use crate::bit_operation::{
    bit_operation, edits_range, lemma_apply_empty_mask, Operation, NUM_OF_BITS,
};
use crate::bit_string::{
    lemma_and_not_bit, lemma_or_bit, lemma_section_mask_bit, lemma_section_mask_empty, nth_bit,
    range_covers, section_mask, BitString,
};

/// Set `num_of_bits` bits from the `start_bit`th bit of the region `memory`.
///
/// `num_of_bits` may be more than the number of bits a section has.  Every
/// bit of the run becomes 1; every other bit of the region keeps its value.
pub fn set(memory: &mut Vec<u128>, start_bit: usize, num_of_bits: usize)
    requires
        start_bit + num_of_bits <= usize::MAX,
        start_bit + num_of_bits <= old(memory).len() * NUM_OF_BITS,
    ensures
        final(memory)@.len() == old(memory)@.len(),
        edits_range(Operation::SetBits, old(memory)@, final(memory)@, start_bit, num_of_bits),
        forall|i: int, j: usize|
            0 <= i < old(memory)@.len() && j < NUM_OF_BITS && range_covers(
                start_bit,
                num_of_bits,
                i * NUM_OF_BITS + j,
            ) ==> #[trigger] nth_bit(final(memory)@[i], j),
        forall|i: int, j: usize|
            0 <= i < old(memory)@.len() && j < NUM_OF_BITS && !range_covers(
                start_bit,
                num_of_bits,
                i * NUM_OF_BITS + j,
            ) ==> #[trigger] nth_bit(final(memory)@[i], j) == nth_bit(old(memory)@[i], j),
{
    bit_operation(memory, BitString::new(0, start_bit, num_of_bits), Operation::SetBits);
    proof {
        assert forall|i: int, j: usize|
            0 <= i < old(memory)@.len() && j < NUM_OF_BITS implies nth_bit(memory@[i], j) == (
        range_covers(start_bit, num_of_bits, i * NUM_OF_BITS + j) || nth_bit(
            old(memory)@[i],
            j,
        )) by {
            lemma_section_mask_bit(start_bit, num_of_bits, i, j);
            lemma_or_bit(old(memory)@[i], section_mask(start_bit, num_of_bits, i), j);
        }
    }
}

/// Clear `num_of_bits` bits from the `start_bit`th bit of the region
/// `memory`.
///
/// `num_of_bits` may be more than the number of bits a section has.  Every
/// bit of the run becomes 0; every other bit of the region keeps its value.
pub fn clear(memory: &mut Vec<u128>, start_bit: usize, num_of_bits: usize)
    requires
        start_bit + num_of_bits <= usize::MAX,
        start_bit + num_of_bits <= old(memory).len() * NUM_OF_BITS,
    ensures
        final(memory)@.len() == old(memory)@.len(),
        edits_range(Operation::Clear, old(memory)@, final(memory)@, start_bit, num_of_bits),
        forall|i: int, j: usize|
            0 <= i < old(memory)@.len() && j < NUM_OF_BITS && range_covers(
                start_bit,
                num_of_bits,
                i * NUM_OF_BITS + j,
            ) ==> !#[trigger] nth_bit(final(memory)@[i], j),
        forall|i: int, j: usize|
            0 <= i < old(memory)@.len() && j < NUM_OF_BITS && !range_covers(
                start_bit,
                num_of_bits,
                i * NUM_OF_BITS + j,
            ) ==> #[trigger] nth_bit(final(memory)@[i], j) == nth_bit(old(memory)@[i], j),
{
    bit_operation(memory, BitString::new(0, start_bit, num_of_bits), Operation::Clear);
    proof {
        assert forall|i: int, j: usize|
            0 <= i < old(memory)@.len() && j < NUM_OF_BITS implies nth_bit(memory@[i], j) == (
        !range_covers(start_bit, num_of_bits, i * NUM_OF_BITS + j) && nth_bit(
            old(memory)@[i],
            j,
        )) by {
            lemma_section_mask_bit(start_bit, num_of_bits, i, j);
            lemma_and_not_bit(old(memory)@[i], section_mask(start_bit, num_of_bits, i), j);
        }
    }
}

/// An empty run is a no-op: editing zero bits, with either operation, leaves
/// the region exactly as it was.
pub proof fn lemma_empty_run_is_noop(
    operation: Operation,
    pre: Seq<u128>,
    post: Seq<u128>,
    start_bit: usize,
)
    requires
        edits_range(operation, pre, post, start_bit, 0),
    ensures
        post == pre,
{
    assert forall|i: int| 0 <= i < pre.len() implies post[i] == pre[i] by {
        lemma_section_mask_empty(start_bit, i);
        lemma_apply_empty_mask(operation, pre[i]);
    }
    assert(post =~= pre);
}

/// Editing the same run twice with the same operation equals editing it
/// once: the second edit changes nothing.
pub proof fn lemma_edit_is_idempotent(
    operation: Operation,
    pre: Seq<u128>,
    mid: Seq<u128>,
    post: Seq<u128>,
    start_bit: usize,
    num_of_bits: usize,
)
    requires
        edits_range(operation, pre, mid, start_bit, num_of_bits),
        edits_range(operation, mid, post, start_bit, num_of_bits),
    ensures
        post == mid,
{
    assert forall|i: int| 0 <= i < pre.len() implies post[i] == mid[i] by {
        let m = section_mask(start_bit, num_of_bits, i);
        let v = pre[i];
        assert((v | m) | m == v | m) by (bit_vector);
        assert((v & !m) & !m == v & !m) by (bit_vector);
    }
    assert(post =~= mid);
}

/// Clearing a run directly after setting it clears the run outright: the
/// bits inside the run end at 0 whatever they held before the two calls, and
/// every bit outside the run holds exactly what it held before both calls.
pub proof fn lemma_clear_undoes_set(
    pre: Seq<u128>,
    mid: Seq<u128>,
    post: Seq<u128>,
    start_bit: usize,
    num_of_bits: usize,
)
    requires
        edits_range(Operation::SetBits, pre, mid, start_bit, num_of_bits),
        edits_range(Operation::Clear, mid, post, start_bit, num_of_bits),
    ensures
        edits_range(Operation::Clear, pre, post, start_bit, num_of_bits),
        forall|i: int, j: usize|
            0 <= i < pre.len() && j < NUM_OF_BITS && range_covers(
                start_bit,
                num_of_bits,
                i * NUM_OF_BITS + j,
            ) ==> !#[trigger] nth_bit(post[i], j),
        forall|i: int, j: usize|
            0 <= i < pre.len() && j < NUM_OF_BITS && !range_covers(
                start_bit,
                num_of_bits,
                i * NUM_OF_BITS + j,
            ) ==> #[trigger] nth_bit(post[i], j) == nth_bit(pre[i], j),
{
    assert forall|i: int| 0 <= i < pre.len() implies post[i] == Operation::Clear.apply(
        pre[i],
        section_mask(start_bit, num_of_bits, i),
    ) by {
        let m = section_mask(start_bit, num_of_bits, i);
        let v = pre[i];
        assert((v | m) & !m == v & !m) by (bit_vector);
    }
    assert forall|i: int, j: usize|
        0 <= i < pre.len() && j < NUM_OF_BITS implies nth_bit(post[i], j) == (!range_covers(
        start_bit,
        num_of_bits,
        i * NUM_OF_BITS + j,
    ) && nth_bit(pre[i], j)) by {
        lemma_section_mask_bit(start_bit, num_of_bits, i, j);
        lemma_and_not_bit(pre[i], section_mask(start_bit, num_of_bits, i), j);
    }
}

} // verus!
