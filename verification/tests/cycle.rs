//! The steps of an update cycle, and the bit operations under them.

use shift_chain::bits::{assign_bit, test_bit};
use shift_chain::cycle::{Cursor, Mode, Step};

/// Every step that a cursor hands out for the buffer, in order.
fn steps<const N: usize>(mode: Mode, buffer: &[u8; N]) -> Vec<Step> {
    let mut cursor = Cursor::start(mode);
    let mut steps = Vec::new();
    while let Some(step) = cursor.next(buffer) {
        steps.push(step);
    }
    steps
}

/// The steps of one clock pulse of an output cycle.
fn pulse(level: bool) -> Vec<Step> {
    vec![Step::Clock(false), Step::Data(level), Step::Clock(true)]
}

#[test]
fn test_bit_reads_each_bit_of_a5() {
    let expected = [true, false, true, false, false, true, false, true];
    for index in 0..8u8 {
        assert_eq!(test_bit(0xA5, index), expected[index as usize]);
    }
}

#[test]
fn assign_bit_sets_and_clears() {
    assert_eq!(assign_bit(0x00, 0, true), 0x01);
    assert_eq!(assign_bit(0x00, 7, true), 0x80);
    assert_eq!(assign_bit(0xFF, 3, false), 0xF7);
    assert_eq!(assign_bit(0xA5, 0, true), 0xA5);
    assert_eq!(assign_bit(0xA5, 1, false), 0xA5);
    assert_eq!(assign_bit(0xA5, 1, true), 0xA7);
    assert_eq!(assign_bit(0xA5, 7, false), 0x25);
}

#[test]
fn assign_bit_leaves_other_bits() {
    for byte in [0x00u8, 0x5A, 0xA5, 0xFF] {
        for index in 0..8u8 {
            for level in [false, true] {
                let next = assign_bit(byte, index, level);
                for other in 0..8u8 {
                    let expected = if other == index { level } else { test_bit(byte, other) };
                    assert_eq!(test_bit(next, other), expected);
                }
            }
        }
    }
}

#[test]
fn output_cycle_of_one_byte() {
    let mut expected = vec![Step::Latch(false)];
    for level in [true, false, true, false, false, true, false, true] {
        expected.extend(pulse(level));
    }
    expected.push(Step::Latch(true));
    assert_eq!(steps(Mode::Output, &[0xA5]), expected);
}

#[test]
fn output_cycle_shifts_byte_zero_first() {
    let taken = steps(Mode::Output, &[0x80, 0x01]);
    assert_eq!(taken.len(), 2 + 2 * 24);
    let data: Vec<bool> = taken
        .iter()
        .filter_map(|step| match step {
            Step::Data(level) => Some(*level),
            _ => None,
        })
        .collect();
    let mut expected = vec![false; 16];
    expected[0] = true;
    expected[15] = true;
    assert_eq!(data, expected);
}

#[test]
fn input_cycle_of_one_byte() {
    let mut expected = vec![Step::Latch(true)];
    for bit in [7u8, 6, 5, 4, 3, 2, 1, 0] {
        expected.push(Step::Clock(false));
        expected.push(Step::Sample { byte: 0, bit });
        expected.push(Step::Clock(true));
    }
    expected.push(Step::Latch(false));
    assert_eq!(steps(Mode::Input, &[0x00]), expected);
    assert_eq!(steps(Mode::Input, &[0xFF]), expected);
}

#[test]
fn input_cycle_names_each_byte() {
    let taken = steps(Mode::Input, &[0, 0, 0]);
    assert_eq!(taken.len(), 2 + 3 * 24);
    let named: Vec<(usize, u8)> = taken
        .iter()
        .filter_map(|step| match step {
            Step::Sample { byte, bit } => Some((*byte, *bit)),
            _ => None,
        })
        .collect();
    let mut expected = Vec::new();
    for byte in 0..3usize {
        for bit in [7u8, 6, 5, 4, 3, 2, 1, 0] {
            expected.push((byte, bit));
        }
    }
    assert_eq!(named, expected);
}

#[test]
fn dual_cycle_of_one_byte() {
    let mut expected = vec![Step::Latch(true)];
    let levels = [false, true, false, true, true, false, true, false];
    for (place, bit) in [7u8, 6, 5, 4, 3, 2, 1, 0].into_iter().enumerate() {
        expected.push(Step::Clock(false));
        expected.push(Step::Sample { byte: 0, bit });
        expected.push(Step::Data(levels[place]));
        expected.push(Step::Clock(true));
    }
    expected.push(Step::Latch(false));
    expected.push(Step::Latch(true));
    expected.push(Step::Latch(false));
    assert_eq!(steps(Mode::Dual, &[0x5A]), expected);
}

#[test]
fn cycle_of_no_chip_opens_and_closes() {
    let none: [u8; 0] = [];
    assert_eq!(steps(Mode::Input, &none), vec![Step::Latch(true), Step::Latch(false)]);
    assert_eq!(steps(Mode::Output, &none), vec![Step::Latch(false), Step::Latch(true)]);
    assert_eq!(
        steps(Mode::Dual, &none),
        vec![Step::Latch(true), Step::Latch(false), Step::Latch(true), Step::Latch(false)]
    );
}

#[test]
fn cursor_stays_at_the_end() {
    let buffer = [0x12u8];
    let mut cursor = Cursor::start(Mode::Output);
    let mut count = 0;
    while cursor.next(&buffer).is_some() {
        count += 1;
    }
    assert_eq!(count, 26);
    assert_eq!(cursor.next(&buffer), None);
    assert_eq!(cursor.next(&buffer), None);
}

#[test]
fn cursor_past_a_shorter_buffer_is_over() {
    let long = [0u8; 3];
    let short = [0u8; 1];
    let mut cursor = Cursor::start(Mode::Output);
    for _ in 0..(1 + 2 * 24 + 5) {
        assert!(cursor.next(&long).is_some());
    }
    assert_eq!(cursor.next(&short), None);
    assert!(cursor.next(&long).is_some());
}
