//! End-to-end runs of `set` and `clear` over a region of four sections.

use set_bits::bit_operation::{bit_operation, Operation};
use set_bits::bit_string::BitString;

fn test_set(start_bit: usize, num_of_bits: usize, index: usize, correct_value: u128) {
    let mut region: Vec<u128> = vec![0; 4];
    set_bits::set(&mut region, start_bit, num_of_bits);
    assert_eq!(region[index], correct_value);
}

fn test_clear(start_bit: usize, num_of_bits: usize, index: usize, correct_value: u128) {
    let mut region: Vec<u128> = vec![!0; 4];
    set_bits::clear(&mut region, start_bit, num_of_bits);
    assert_eq!(region[index], correct_value);
}

#[test]
fn within_a_section_1() {
    test_set(3, 2, 0, 0b11000);
}

#[test]
fn within_a_section_2() {
    test_set(1, 4, 0, 0b11110);
}

#[test]
fn all_bits_of_a_section_1() {
    test_set(0, 128, 0, !0);
}

#[test]
fn all_bits_of_a_section_2() {
    test_set(128, 128, 1, !0);
}

#[test]
fn no_bits_1() {
    test_set(0, 0, 0, 0);
}

#[test]
fn more_than_a_section_1() {
    test_set(3, 256, 0, 0xFFFFFFFFFFFFFFFFFFFFFFFFFFFFFFF8);
}

#[test]
fn more_than_a_section_2() {
    test_set(6, 400, 0, 0xFFFFFFFFFFFFFFFFFFFFFFFFFFFFFFC0);
}

#[test]
fn no_bits_2() {
    test_set(128, 0, 0, 0);
}

#[test]
fn start_bit_more_than_127_1() {
    test_set(138, 3, 1, 0b11100_00000000);
}

#[test]
fn start_bit_more_than_127_2() {
    test_set(154, 5, 1, 0b01111100_00000000_00000000_00000000);
}

#[test]
fn integration_test_index_over_range() {
    test_set(0, 128, 1, 0);
}

#[test]
fn integration_test_index_below_range() {
    test_set(128, 128, 0, 0);
}

#[test]
fn integration_test_within_a_section_1() {
    test_clear(2, 3, 0, 0xFFFFFFFFFFFFFFFFFFFFFFFFFFFFFFE3);
}

#[test]
fn integration_test_within_a_section_2() {
    test_clear(1, 4, 0, 0xFFFFFFFFFFFFFFFFFFFFFFFFFFFFFFE1);
}

#[test]
fn integration_test_more_than_a_section_1() {
    test_clear(64, 256, 0, 0xFFFFFFFFFFFFFFFF);
}

#[test]
fn integration_test_more_than_a_section_2() {
    test_clear(192, 256, 1, 0xFFFFFFFFFFFFFFFF);
}

#[test]
fn all_bits_within_a_section() {
    test_clear(0, 128, 0, 0);
}

#[test]
fn no_bits() {
    test_clear(0, 0, 0, !0);
}

#[test]
fn set_and_clear_within_a_byte() {
    let mut region: Vec<u128> = vec![0];

    set_bits::set(&mut region, 5, 3);
    set_bits::set(&mut region, 0, 3);
    set_bits::set(&mut region, 3, 2);
    assert_eq!(region[0], 0b11111111);

    set_bits::clear(&mut region, 5, 3);
    set_bits::clear(&mut region, 0, 3);
    set_bits::clear(&mut region, 3, 2);
    assert_eq!(region[0], 0);
}

#[test]
fn set_and_clear_more_than_a_byte() {
    let mut region: Vec<u128> = vec![0];

    set_bits::set(&mut region, 0, 10);
    set_bits::set(&mut region, 10, 10);
    set_bits::set(&mut region, 20, 12);
    assert_eq!(region[0], u32::MAX as u128);

    set_bits::clear(&mut region, 0, 10);
    set_bits::clear(&mut region, 10, 10);
    set_bits::clear(&mut region, 20, 12);
    assert_eq!(region[0], 0);
}

#[test]
fn set_full_byte() {
    test_set(0, 8, 0, 0b11111111);
}

#[test]
fn set_bits_ten_through_twelve() {
    test_set(10, 3, 0, 0b1110000000000);
}

#[test]
fn set_straddles_three_sections() {
    let mut region: Vec<u128> = vec![0; 3];
    set_bits::set(&mut region, 3, 260);
    assert_eq!(region[0], !0u128 - 0b111);
    assert_eq!(region[1], !0);
    assert_eq!(region[2], 0b1111111);
}

#[test]
fn set_twice_equals_once() {
    let pattern_0: u128 = 0xF0F0_F0F0_F0F0_F0F0_F0F0_F0F0_F0F0_F0F0;
    let pattern_1: u128 = 0x0123_4567_89AB_CDEF_0123_4567_89AB_CDEF;

    let mut once: Vec<u128> = vec![pattern_0, pattern_1];
    set_bits::set(&mut once, 100, 40);

    let mut twice: Vec<u128> = vec![pattern_0, pattern_1];
    set_bits::set(&mut twice, 100, 40);
    set_bits::set(&mut twice, 100, 40);

    assert_eq!(twice, once);
}

#[test]
fn clear_twice_equals_once() {
    let pattern_0: u128 = 0xF0F0_F0F0_F0F0_F0F0_F0F0_F0F0_F0F0_F0F0;
    let pattern_1: u128 = 0x0123_4567_89AB_CDEF_0123_4567_89AB_CDEF;

    let mut once: Vec<u128> = vec![pattern_0, pattern_1];
    set_bits::clear(&mut once, 100, 40);

    let mut twice: Vec<u128> = vec![pattern_0, pattern_1];
    set_bits::clear(&mut twice, 100, 40);
    set_bits::clear(&mut twice, 100, 40);

    assert_eq!(twice, once);
}

#[test]
fn clear_after_set_restores_outside_and_zeroes_inside() {
    let pattern_0: u128 = 0xF0F0_F0F0_F0F0_F0F0_F0F0_F0F0_F0F0_F0F0;
    let pattern_1: u128 = 0x0123_4567_89AB_CDEF_0123_4567_89AB_CDEF;

    let mut region: Vec<u128> = vec![pattern_0, pattern_1];
    set_bits::set(&mut region, 120, 16);
    set_bits::clear(&mut region, 120, 16);

    let mask_0: u128 = 0xFFu128 << 120;
    let mask_1: u128 = 0xFF;
    assert_eq!(region[0], pattern_0 & !mask_0);
    assert_eq!(region[1], pattern_1 & !mask_1);
}

#[test]
fn engine_sets_through_the_descriptor() {
    let mut region: Vec<u128> = vec![0; 2];
    bit_operation(&mut region, BitString::new(0, 130, 3), Operation::SetBits);
    assert_eq!(region[0], 0);
    assert_eq!(region[1], 0b11100);
}

#[test]
fn engine_clears_through_the_descriptor() {
    let mut region: Vec<u128> = vec![!0; 2];
    bit_operation(&mut region, BitString::new(0, 130, 3), Operation::Clear);
    assert_eq!(region[0], !0);
    assert_eq!(region[1], !0b11100u128);
}
