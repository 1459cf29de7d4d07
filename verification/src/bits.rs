//! Single bits of a buffer byte.

use vstd::prelude::*;

verus! {

/// Whether bit `index` of `byte` is set; bit 0 is the least significant.
pub open spec fn bit_set(byte: u8, index: u8) -> bool {
    byte & (1u8 << index) != 0
}

/// `byte` with bit `index` set to `level` and every other bit as it was.
pub open spec fn with_bit(byte: u8, index: u8, level: bool) -> u8 {
    if level {
        byte | (1u8 << index)
    } else {
        byte & !(1u8 << index)
    }
}

/// Reads bit `index` of `byte`.
pub fn test_bit(byte: u8, index: u8) -> (level: bool)
    requires
        index < 8,
    ensures
        level == bit_set(byte, index),
{
    (byte & (1u8 << index)) != 0
}

/// Returns `byte` with bit `index` set to `level`.
pub fn assign_bit(byte: u8, index: u8, level: bool) -> (next: u8)
    requires
        index < 8,
    ensures
        next == with_bit(byte, index, level),
{
    if level {
        byte | (1u8 << index)
    } else {
        byte & !(1u8 << index)
    }
}

/// Writing a bit changes that bit and no other.
pub proof fn lemma_with_bit(byte: u8, index: u8, level: bool, other: u8)
    requires
        index < 8,
        other < 8,
    ensures
        bit_set(with_bit(byte, index, level), other) == (if other == index {
            level
        } else {
            bit_set(byte, other)
        }),
{
    assert(bit_set(with_bit(byte, index, true), other) == (if other == index {
        true
    } else {
        bit_set(byte, other)
    })) by (bit_vector)
        requires
            index < 8,
            other < 8,
    ;
    assert(bit_set(with_bit(byte, index, false), other) == (if other == index {
        false
    } else {
        bit_set(byte, other)
    })) by (bit_vector)
        requires
            index < 8,
            other < 8,
    ;
}

/// A byte is fixed by its eight bits.
pub proof fn lemma_bits_fix_byte(a: u8, b: u8)
    requires
        forall|index: u8| index < 8 ==> bit_set(a, index) == bit_set(b, index),
    ensures
        a == b,
{
    assert(bit_set(a, 0) == bit_set(b, 0));
    assert(bit_set(a, 1) == bit_set(b, 1));
    assert(bit_set(a, 2) == bit_set(b, 2));
    assert(bit_set(a, 3) == bit_set(b, 3));
    assert(bit_set(a, 4) == bit_set(b, 4));
    assert(bit_set(a, 5) == bit_set(b, 5));
    assert(bit_set(a, 6) == bit_set(b, 6));
    assert(bit_set(a, 7) == bit_set(b, 7));
    assert(a == b) by (bit_vector)
        requires
            bit_set(a, 0) == bit_set(b, 0),
            bit_set(a, 1) == bit_set(b, 1),
            bit_set(a, 2) == bit_set(b, 2),
            bit_set(a, 3) == bit_set(b, 3),
            bit_set(a, 4) == bit_set(b, 4),
            bit_set(a, 5) == bit_set(b, 5),
            bit_set(a, 6) == bit_set(b, 6),
            bit_set(a, 7) == bit_set(b, 7),
    ;
}

} // verus!
