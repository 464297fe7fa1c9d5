//! The bit-range descriptor: where a run of bits lies, which storage sections
//! it overlaps, and the bit mask it selects inside each one.

use vstd::prelude::*;

verus! {

use vstd::arithmetic::div_mod::{
    lemma_div_is_ordered, lemma_div_nonincreasing, lemma_div_pos_is_pos,
    lemma_fundamental_div_mod, lemma_fundamental_div_mod_converse,
    lemma_mod_division_less_than_divisor,
};

use crate::bit_operation::{SrcVal, NUM_OF_BITS};

/// A run of bits: `num_of_bits` bits starting at bit `start_bit` of the
/// region based at `start_address`.  Bit positions count from the least
/// significant bit of the first storage section.  The descriptor is pure
/// geometry; it never touches the memory it describes.
pub struct BitString {
    pub start_address: usize,
    pub start_bit: usize,
    pub num_of_bits: usize,
}

/// Whether the absolute bit position `pos` lies inside the run that starts at
/// bit `start_bit` and is `num_of_bits` bits long.
pub open spec fn range_covers(start_bit: usize, num_of_bits: usize, pos: int) -> bool {
    start_bit <= pos < start_bit + num_of_bits
}

/// Whether bit `j` of the section value `value` is 1.
pub open spec fn nth_bit(value: SrcVal, j: usize) -> bool {
    value & (1u128 << j) != 0
}

/// The section value whose bits `[0, width)` are 1 and whose other bits are
/// 0; all bits are 1 once `width` reaches the section width.
pub open spec fn low_mask(width: usize) -> SrcVal {
    ((1u128 << width) - 1) as SrcVal
}

/// `x` clamped to `[0, NUM_OF_BITS]`, the widths a single section can show.
pub open spec fn clamp_width(x: int) -> usize {
    if x <= 0 {
        0
    } else if x >= NUM_OF_BITS {
        NUM_OF_BITS
    } else {
        x as usize
    }
}

/// The mask that section `idx` contributes to the run `(start_bit,
/// num_of_bits)`: bit `j` of the mask is 1 exactly when the run covers the
/// absolute bit position `NUM_OF_BITS * idx + j`.  Sections the run does not
/// overlap get the all-zero mask.
pub open spec fn section_mask(start_bit: usize, num_of_bits: usize, idx: int) -> SrcVal {
    low_mask(clamp_width(start_bit + num_of_bits - idx * NUM_OF_BITS)) & !low_mask(
        clamp_width(start_bit - idx * NUM_OF_BITS),
    )
}

/// Bit `j` of `low_mask(width)` is 1 exactly for `j < width`.
pub proof fn lemma_low_mask_bit(width: usize, j: usize)
    requires
        width <= NUM_OF_BITS,
        j < NUM_OF_BITS,
    ensures
        nth_bit(low_mask(width), j) == (j < width),
{
    assert((((1u128 << width) - 1) as u128) & (1u128 << j) != 0 <==> j < width) by (bit_vector)
        requires
            width <= 128 && j < 128,
    ;
}

/// A bit of a bitwise OR is the disjunction of the operands' bits.
pub proof fn lemma_or_bit(a: SrcVal, b: SrcVal, j: usize)
    ensures
        nth_bit(a | b, j) == (nth_bit(a, j) || nth_bit(b, j)),
{
    assert((a | b) & (1u128 << j) != 0 <==> (a & (1u128 << j) != 0 || b & (1u128 << j) != 0))
        by (bit_vector);
}

/// A bit of `a & !b` is 1 exactly when the bit of `a` is 1 and the bit of
/// `b` is 0.
pub proof fn lemma_and_not_bit(a: SrcVal, b: SrcVal, j: usize)
    ensures
        nth_bit(a & !b, j) == (nth_bit(a, j) && !nth_bit(b, j)),
{
    assert((a & !b) & (1u128 << j) != 0 <==> (a & (1u128 << j) != 0 && !(b & (1u128 << j) != 0)))
        by (bit_vector);
}

/// How a non-empty run relates to the section grid: the head and tail
/// section indices bracket it, and the run starts `offset` bits into the
/// head section.
pub(crate) proof fn lemma_run_geometry(start_bit: usize, num_of_bits: usize)
    requires
        num_of_bits > 0,
    ensures
        ({
            let head = start_bit as int / NUM_OF_BITS as int;
            let tail = (start_bit + num_of_bits - 1) / NUM_OF_BITS as int;
            let offset = start_bit - head * NUM_OF_BITS;
            &&& 0 <= head <= tail
            &&& 0 <= offset < NUM_OF_BITS
            &&& offset == start_bit as int % NUM_OF_BITS as int
            &&& head * NUM_OF_BITS + offset == start_bit
            &&& tail * NUM_OF_BITS <= start_bit + num_of_bits - 1 < tail * NUM_OF_BITS + NUM_OF_BITS
            &&& (head == tail <==> offset + num_of_bits <= NUM_OF_BITS)
        }),
{
    let head = start_bit as int / NUM_OF_BITS as int;
    let offset = start_bit - head * NUM_OF_BITS;
    lemma_fundamental_div_mod(start_bit as int, NUM_OF_BITS as int);
    lemma_mod_division_less_than_divisor(start_bit as int, NUM_OF_BITS as int);
    lemma_div_pos_is_pos(start_bit as int, NUM_OF_BITS as int);
    lemma_fundamental_div_mod(start_bit + num_of_bits - 1, NUM_OF_BITS as int);
    lemma_mod_division_less_than_divisor(start_bit + num_of_bits - 1, NUM_OF_BITS as int);
    lemma_div_is_ordered(start_bit as int, start_bit + num_of_bits - 1, NUM_OF_BITS as int);
    if offset + num_of_bits <= NUM_OF_BITS {
        lemma_fundamental_div_mod_converse(
            start_bit + num_of_bits - 1,
            NUM_OF_BITS as int,
            head,
            offset + num_of_bits - 1,
        );
    }
}

/// An empty run selects no bits in any section.
pub proof fn lemma_section_mask_empty(start_bit: usize, idx: int)
    ensures
        section_mask(start_bit, 0, idx) == 0,
{
    let m = low_mask(clamp_width(start_bit - idx * NUM_OF_BITS));
    assert(m & !m == 0) by (bit_vector);
}

/// Sections before the head or after the tail of a run get the all-zero
/// mask.
pub proof fn lemma_section_mask_outside(start_bit: usize, num_of_bits: usize, idx: int)
    requires
        num_of_bits > 0,
        idx < start_bit as int / (NUM_OF_BITS as int) || idx > (start_bit + num_of_bits - 1) / (NUM_OF_BITS as int),
    ensures
        section_mask(start_bit, num_of_bits, idx) == 0,
{
    lemma_run_geometry(start_bit, num_of_bits);
    let head = start_bit as int / NUM_OF_BITS as int;
    if idx < head {
        assert(start_bit - idx * NUM_OF_BITS >= NUM_OF_BITS);
        let m = low_mask(NUM_OF_BITS);
        assert(m & !m == 0) by (bit_vector);
    } else {
        assert(start_bit + num_of_bits - idx * NUM_OF_BITS <= 0);
        let m = low_mask(clamp_width(start_bit - idx * NUM_OF_BITS));
        assert(low_mask(0) & !m == 0) by (bit_vector);
    }
}

/// Sections strictly between the head and the tail lie entirely inside the
/// run: their mask is all ones.
pub proof fn lemma_section_mask_body(start_bit: usize, num_of_bits: usize, idx: int)
    requires
        num_of_bits > 0,
        start_bit as int / (NUM_OF_BITS as int) < idx < (start_bit + num_of_bits - 1) / (NUM_OF_BITS as int),
    ensures
        section_mask(start_bit, num_of_bits, idx) == !0u128,
{
    lemma_run_geometry(start_bit, num_of_bits);
    assert(start_bit - idx * NUM_OF_BITS <= 0);
    assert(start_bit + num_of_bits - idx * NUM_OF_BITS >= NUM_OF_BITS);
    assert(low_mask(NUM_OF_BITS) & !low_mask(0) == !0u128) by (bit_vector);
}

/// The per-unit masks reassemble exactly the run: bit `j` of the mask for
/// section `idx` is 1 precisely when the run covers the absolute bit
/// position `NUM_OF_BITS * idx + j`.
pub proof fn lemma_section_mask_bit(start_bit: usize, num_of_bits: usize, idx: int, j: usize)
    requires
        j < NUM_OF_BITS,
    ensures
        nth_bit(section_mask(start_bit, num_of_bits, idx), j) == range_covers(
            start_bit,
            num_of_bits,
            idx * NUM_OF_BITS + j,
        ),
{
    let lo = clamp_width(start_bit - idx * NUM_OF_BITS);
    let hi = clamp_width(start_bit + num_of_bits - idx * NUM_OF_BITS);
    lemma_and_not_bit(low_mask(hi), low_mask(lo), j);
    lemma_low_mask_bit(hi, j);
    lemma_low_mask_bit(lo, j);
}

impl BitString {
    /// The run's geometry stays inside machine arithmetic.
    pub open spec fn wf(self) -> bool {
        self.start_bit + self.num_of_bits <= usize::MAX
    }

    /// The index of the first section the run overlaps.
    pub open spec fn head_index(self) -> int {
        self.start_bit as int / NUM_OF_BITS as int
    }

    /// The index of the last section the run overlaps (meaningful only when
    /// the run is not empty).
    pub open spec fn tail_index(self) -> int
        recommends
            self.num_of_bits > 0,
    {
        (self.start_bit + self.num_of_bits - 1) / NUM_OF_BITS as int
    }

    /// The mask this run selects inside section `idx`.
    pub open spec fn mask_for(self, idx: int) -> SrcVal {
        section_mask(self.start_bit, self.num_of_bits, idx)
    }

    pub fn new(start_address: usize, start_bit: usize, num_of_bits: usize) -> (r: Self)
        ensures
            r.start_address == start_address,
            r.start_bit == start_bit,
            r.num_of_bits == num_of_bits,
    {
        Self { start_address, start_bit, num_of_bits }
    }

    fn len_in_bit(&self) -> (r: usize)
        ensures
            r == self.num_of_bits,
    {
        self.num_of_bits
    }

    pub(crate) fn head_section_index(&self) -> (r: usize)
        ensures
            r == self.head_index(),
    {
        self.start_bit / NUM_OF_BITS
    }

    pub(crate) fn tail_section_index(&self) -> (r: usize)
        requires
            self.wf(),
            self.num_of_bits > 0,
        ensures
            r == self.tail_index(),
    {
        (self.start_bit + self.num_of_bits - 1) / NUM_OF_BITS
    }

    fn does_straddle_section_boundary(&self) -> (r: bool)
        requires
            self.wf(),
        ensures
            r == (self.num_of_bits > 0 && self.head_index() != self.tail_index()),
    {
        self.len_in_bit() != 0 && self.head_section_index() != self.tail_section_index()
    }

    /// How many sections the run overlaps: none when it is empty, otherwise
    /// one more than the distance from head to tail.
    pub fn num_of_sections(&self) -> (r: usize)
        requires
            self.wf(),
        ensures
            self.num_of_bits == 0 ==> r == 0,
            self.num_of_bits > 0 ==> r == self.tail_index() - self.head_index() + 1,
    {
        if self.num_of_bits == 0 {
            0
        } else {
            proof {
                lemma_run_geometry(self.start_bit, self.num_of_bits);
                lemma_div_nonincreasing(self.start_bit + self.num_of_bits - 1, NUM_OF_BITS as int);
            }
            self.tail_section_index() - self.head_section_index() + 1
        }
    }

    /// The mask of the head section: from the run's first bit to the
    /// section's top bit, or to the run's last bit if the run ends in the
    /// head section too.
    fn get_head_section(&self) -> (r: SrcVal)
        requires
            self.wf(),
        ensures
            r == self.mask_for(self.head_index()),
    {
        proof {
            lemma_fundamental_div_mod(self.start_bit as int, NUM_OF_BITS as int);
            lemma_mod_division_less_than_divisor(self.start_bit as int, NUM_OF_BITS as int);
            lemma_div_pos_is_pos(self.start_bit as int, NUM_OF_BITS as int);
            if self.num_of_bits > 0 {
                lemma_run_geometry(self.start_bit, self.num_of_bits);
            }
        }
        let offset = self.start_bit % NUM_OF_BITS;
        proof {
            assert((1u128 << offset) >= 1) by (bit_vector)
                requires
                    offset < 128,
            ;
        }
        let low = (1u128 << offset) - 1;
        if self.does_straddle_section_boundary() || offset + self.num_of_bits == NUM_OF_BITS {
            proof {
                assert(clamp_width(
                    self.start_bit + self.num_of_bits - self.head_index() * NUM_OF_BITS,
                ) == NUM_OF_BITS);
                assert(clamp_width(self.start_bit - self.head_index() * NUM_OF_BITS) == offset);
                assert(!0u128 >= (1u128 << offset) - 1 && !0u128 - ((1u128 << offset) - 1)
                    == low_mask(NUM_OF_BITS) & !low_mask(offset)) by (bit_vector)
                    requires
                        offset < 128,
                ;
            }
            !0u128 - low
        } else {
            let width = offset + self.num_of_bits;
            proof {
                assert(clamp_width(
                    self.start_bit + self.num_of_bits - self.head_index() * NUM_OF_BITS,
                ) == width);
                assert(clamp_width(self.start_bit - self.head_index() * NUM_OF_BITS) == offset);
                assert((1u128 << width) >= 1 && ((1u128 << width) - 1) >= ((1u128 << offset) - 1)
                    && ((1u128 << width) - 1) - ((1u128 << offset) - 1) == low_mask(width)
                    & !low_mask(offset)) by (bit_vector)
                    requires
                        offset <= width && width < 128,
                ;
            }
            ((1u128 << width) - 1) - low
        }
    }

    /// The mask of the tail section of a run that straddles a section
    /// boundary: the low bits up to where the run ends, or the whole section
    /// when the run ends exactly on a boundary.
    fn get_tail_section(&self) -> (r: SrcVal)
        requires
            self.wf(),
            self.num_of_bits > 0,
            self.head_index() != self.tail_index(),
        ensures
            r == self.mask_for(self.tail_index()),
    {
        proof {
            lemma_run_geometry(self.start_bit, self.num_of_bits);
            lemma_fundamental_div_mod((self.start_bit + self.num_of_bits) as int, NUM_OF_BITS as int);
            lemma_mod_division_less_than_divisor(
                (self.start_bit + self.num_of_bits) as int,
                NUM_OF_BITS as int,
            );
        }
        let rem = (self.start_bit + self.num_of_bits) % NUM_OF_BITS;
        proof {
            let quot = (self.start_bit + self.num_of_bits) as int / NUM_OF_BITS as int;
            if rem == 0 {
                lemma_fundamental_div_mod_converse(
                    self.start_bit + self.num_of_bits - 1,
                    NUM_OF_BITS as int,
                    quot - 1,
                    NUM_OF_BITS - 1,
                );
            } else {
                lemma_fundamental_div_mod_converse(
                    self.start_bit + self.num_of_bits - 1,
                    NUM_OF_BITS as int,
                    quot,
                    rem - 1,
                );
            }
            assert((1u128 << rem) >= 1) by (bit_vector)
                requires
                    rem < 128,
            ;
        }
        let bits_in_section: SrcVal = (1u128 << rem) - 1;
        proof {
            assert(clamp_width(self.start_bit - self.tail_index() * NUM_OF_BITS) == 0);
            assert((1u128 << rem) - 1 == 0 <==> rem == 0) by (bit_vector)
                requires
                    rem < 128,
            ;
        }
        if bits_in_section == 0 {
            proof {
                assert(clamp_width(
                    self.start_bit + self.num_of_bits - self.tail_index() * NUM_OF_BITS,
                ) == NUM_OF_BITS);
                assert(!0u128 == low_mask(NUM_OF_BITS) & !low_mask(0)) by (bit_vector);
            }
            !0
        } else {
            proof {
                assert(clamp_width(
                    self.start_bit + self.num_of_bits - self.tail_index() * NUM_OF_BITS,
                ) == rem);
                assert((1u128 << rem) - 1 == low_mask(rem) & !low_mask(0)) by (bit_vector)
                    requires
                        0 < rem < 128,
                ;
            }
            bits_in_section
        }
    }

    /// The mask the run selects inside section `idx`: the head shape, the
    /// tail shape, all ones for a section wholly inside the run, and all
    /// zeros for a section the run does not overlap.
    ///
    /// ```text
    /// 00000000__00011111__11111111__11111111__11000000
    /// ^         ^^^^^^^^  ^^^^^^^^^^^^^^^^^   ^^^^^^^^
    ///  start     head           body           tail
    ///  bit       sec            sec            sec
    /// ```
    ///
    /// If the run fits in a section there are no body and tail sections;
    /// only the head section exists.
    ///
    /// ```text
    /// 00000000__00111000__00000000
    ///           ^^^^^^^^
    ///             head
    ///             sec
    /// ```
    pub fn bits_at_section(&self, idx: usize) -> (r: SrcVal)
        requires
            self.wf(),
        ensures
            r == self.mask_for(idx as int),
    {
        if self.num_of_bits == 0 {
            proof {
                lemma_section_mask_empty(self.start_bit, idx as int);
            }
            0
        } else if idx == self.head_section_index() {
            self.get_head_section()
        } else if idx == self.tail_section_index() {
            self.get_tail_section()
        } else if idx > self.head_section_index() && idx < self.tail_section_index() {
            proof {
                lemma_section_mask_body(self.start_bit, self.num_of_bits, idx as int);
            }
            !0
        } else {
            proof {
                lemma_section_mask_outside(self.start_bit, self.num_of_bits, idx as int);
            }
            0
        }
    }

    /// The address of section `idx` of the region: the base address plus the
    /// section's byte offset.  A pure arithmetic projection; nothing here
    /// reads or writes that address.
    pub fn get_address_of_section(&self, idx: usize) -> (r: usize)
        requires
            idx * NUM_OF_BITS <= usize::MAX,
            self.start_address + idx * NUM_OF_BITS / 8 <= usize::MAX,
        ensures
            r == self.start_address + idx * NUM_OF_BITS / 8,
    {
        self.start_address + idx * NUM_OF_BITS / 8
    }
}

} // verus!
