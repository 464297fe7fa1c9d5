//! The masked edit engine: walks the storage sections a bit run overlaps and
//! applies a masked read-modify-write to each.

use vstd::prelude::*;

verus! {

use crate::bit_string::{
    lemma_run_geometry, lemma_section_mask_empty, lemma_section_mask_outside, section_mask,
    BitString,
};

/// The value of one storage section.
pub type SrcVal = u128;

/// The width of one storage section, in bits.
pub const NUM_OF_BITS: usize = 128;

/// What an edit does to the bits picked out by a mask.
pub enum Operation {
    SetBits,
    Clear,
}

impl Operation {
    /// The section value an edit leaves behind: masked bits are forced to 1
    /// (`SetBits`) or to 0 (`Clear`), all other bits keep their value.
    pub open spec fn apply(self, value: SrcVal, bit_mask: SrcVal) -> SrcVal {
        match self {
            Operation::SetBits => value | bit_mask,
            Operation::Clear => value & !bit_mask,
        }
    }

    fn edit(&self, dest: &mut SrcVal, bit_mask: SrcVal)
        ensures
            *final(dest) == self.apply(*old(dest), bit_mask),
    {
        match self {
            Self::SetBits => {
                *dest = *dest | bit_mask;
            },
            Self::Clear => {
                *dest = *dest & !bit_mask;
            },
        }
    }
}

/// Applying the all-zero mask changes nothing, whichever operation runs.
pub proof fn lemma_apply_empty_mask(operation: Operation, value: SrcVal)
    ensures
        operation.apply(value, 0) == value,
{
    assert(value | 0u128 == value) by (bit_vector);
    assert(value & !0u128 == value) by (bit_vector);
}

/// How an edit rewrites a region: in every section, `post` holds `pre` with
/// the run's mask for that section applied by the operation.  Sections the
/// run does not overlap get the all-zero mask, which the operation maps to
/// the unchanged value.
pub open spec fn edits_range(
    operation: Operation,
    pre: Seq<SrcVal>,
    post: Seq<SrcVal>,
    start_bit: usize,
    num_of_bits: usize,
) -> bool {
    &&& post.len() == pre.len()
    &&& forall|i: int|
        0 <= i < pre.len() ==> post[i] == operation.apply(
            pre[i],
            section_mask(start_bit, num_of_bits, i),
        )
}

/// Walk the sections the run overlaps, in ascending order, and apply the
/// operation to each through the mask the descriptor supplies.  `memory`
/// holds the storage sections of the region the descriptor speaks of:
/// `memory[i]` is the section `bit_string.get_address_of_section(i)` points
/// at.  Sections the run does not overlap are never touched.
pub fn bit_operation(memory: &mut Vec<u128>, bit_string: BitString, operation: Operation)
    requires
        bit_string.wf(),
        bit_string.start_bit + bit_string.num_of_bits <= old(memory).len() * NUM_OF_BITS,
    ensures
        final(memory)@.len() == old(memory)@.len(),
        edits_range(
            operation,
            old(memory)@,
            final(memory)@,
            bit_string.start_bit,
            bit_string.num_of_bits,
        ),
{
    let ghost pre = memory@;
    if bit_string.num_of_bits == 0 {
        proof {
            assert forall|k: int| 0 <= k < pre.len() implies memory@[k] == operation.apply(
                pre[k],
                section_mask(bit_string.start_bit, bit_string.num_of_bits, k),
            ) by {
                lemma_section_mask_empty(bit_string.start_bit, k);
                lemma_apply_empty_mask(operation, pre[k]);
            }
        }
        return ;
    }
    proof {
        lemma_run_geometry(bit_string.start_bit, bit_string.num_of_bits);
    }
    let head = bit_string.head_section_index();
    let tail = bit_string.tail_section_index();
    let mut i = head;
    while i <= tail
        invariant
            bit_string.wf(),
            bit_string.num_of_bits > 0,
            head == bit_string.head_index(),
            tail == bit_string.tail_index(),
            head <= i <= tail + 1,
            tail < memory@.len(),
            memory@.len() == pre.len(),
            forall|k: int| 0 <= k < head ==> memory@[k] == pre[k],
            forall|k: int|
                head <= k < i ==> memory@[k] == operation.apply(pre[k], bit_string.mask_for(k)),
            forall|k: int| i <= k < memory@.len() ==> memory@[k] == pre[k],
        decreases tail + 1 - i,
    {
        let bits = bit_string.bits_at_section(i);
        operation.edit(&mut memory[i], bits);
        i = i + 1;
    }
    proof {
        assert forall|k: int| 0 <= k < pre.len() implies memory@[k] == operation.apply(
            pre[k],
            section_mask(bit_string.start_bit, bit_string.num_of_bits, k),
        ) by {
            if k < head || k > tail {
                lemma_section_mask_outside(bit_string.start_bit, bit_string.num_of_bits, k);
                lemma_apply_empty_mask(operation, pre[k]);
            }
        }
    }
}

} // verus!
