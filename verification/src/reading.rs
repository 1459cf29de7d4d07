//! What a cycle that reads leaves in the buffer.
//!
//! The registers hand their levels over one per clock pulse, chip 0 first and
//! of each chip pin 7 first. Each step that reads names the bit of the buffer
//! that its level belongs to; [`absorbed`] is the buffer after a sequence of
//! steps, given the levels that were read.

use vstd::prelude::*;

use crate::bits::{bit_set, lemma_with_bit};
use crate::cycle::{
    bit_steps, byte_steps, closing, cycle, high_bits_steps, opening, shifting, Mode, Step,
};
use crate::input::{levels, stored};

verus! {

/// The levels of the pins of a chain in the order in which its registers
/// shift them out: chip 0 first, and of each chip pin 7 first. Applied to
/// levels in that order, it gives them pin by pin.
pub open spec fn serial(levels: Seq<bool>) -> Seq<bool> {
    Seq::new(levels.len(), |place: int| levels[place + 7 - 2 * (place % 8)])
}

/// Number of steps that read.
pub open spec fn reads(steps: Seq<Step>) -> nat
    decreases steps.len(),
{
    if steps.len() == 0 {
        0
    } else {
        reads(steps.drop_last()) + (if steps.last() is Sample {
            1nat
        } else {
            0nat
        })
    }
}

/// The buffer after the steps, in order, when the steps that read have read
/// `readings`, in order: each of them stores its level in the bit that it
/// names.
pub open spec fn absorbed(buffer: Seq<u8>, steps: Seq<Step>, readings: Seq<bool>) -> Seq<u8>
    decreases steps.len(),
{
    if steps.len() == 0 {
        buffer
    } else {
        match steps.last() {
            Step::Sample { byte, bit } => stored(
                absorbed(buffer, steps.drop_last(), readings.drop_last()),
                byte as int,
                bit,
                readings.last(),
            ),
            _ => absorbed(buffer, steps.drop_last(), readings),
        }
    }
}

/// Putting the serial order in serial order gives the first order back.
pub proof fn lemma_serial_twice(levels: Seq<bool>)
    requires
        levels.len() % 8 == 0,
    ensures
        serial(serial(levels)) == levels,
{
    assert(serial(serial(levels)) =~= levels);
}

/// One more step.
pub proof fn lemma_push(buffer: Seq<u8>, steps: Seq<Step>, step: Step, readings: Seq<bool>)
    ensures
        reads(steps.push(step)) == reads(steps) + (if step is Sample {
            1nat
        } else {
            0nat
        }),
        absorbed(buffer, steps.push(step), readings) == (match step {
            Step::Sample { byte, bit } => stored(
                absorbed(buffer, steps, readings.drop_last()),
                byte as int,
                bit,
                readings.last(),
            ),
            _ => absorbed(buffer, steps, readings),
        }),
{
    assert(steps.push(step).drop_last() =~= steps);
}

/// Two sequences of steps one after the other: the second takes the last
/// readings, the first the ones before.
pub proof fn lemma_concat(
    buffer: Seq<u8>,
    first: Seq<Step>,
    second: Seq<Step>,
    readings: Seq<bool>,
)
    requires
        readings.len() >= reads(second),
    ensures
        reads(first + second) == reads(first) + reads(second),
        absorbed(buffer, first + second, readings) == absorbed(
            absorbed(buffer, first, readings.take(readings.len() - reads(second))),
            second,
            readings.skip(readings.len() - reads(second)),
        ),
    decreases second.len(),
{
    let split = readings.len() - reads(second);
    if second.len() == 0 {
        assert(first + second =~= first);
        assert(readings.take(split) =~= readings);
    } else {
        let fewer = second.drop_last();
        assert((first + second).drop_last() =~= first + fewer);
        if second.last() is Sample {
            lemma_concat(buffer, first, fewer, readings.drop_last());
            assert(readings.drop_last().take(split) =~= readings.take(split));
            assert(readings.drop_last().skip(split) =~= readings.skip(split).drop_last());
        } else {
            lemma_concat(buffer, first, fewer, readings);
        }
    }
}

/// One pulse of a cycle that reads stores one reading in the bit that the
/// pulse moves.
pub proof fn lemma_pulse(
    buffer: Seq<u8>,
    mode: Mode,
    index: usize,
    byte: u8,
    bit: u8,
    readings: Seq<bool>,
)
    requires
        mode != Mode::Output,
        readings.len() == 1,
    ensures
        reads(bit_steps(mode, index, byte, bit)) == 1,
        absorbed(buffer, bit_steps(mode, index, byte, bit), readings) == stored(
            buffer,
            index as int,
            bit,
            readings[0],
        ),
{
    let steps = bit_steps(mode, index, byte, bit);
    let none = Seq::<Step>::empty();
    let one = none.push(steps[0]);
    let two = one.push(steps[1]);
    let three = two.push(steps[2]);
    let nothing = readings.drop_last();
    lemma_push(buffer, none, steps[0], nothing);
    lemma_push(buffer, one, steps[1], readings);
    lemma_push(buffer, two, steps[2], readings);
    if mode == Mode::Input {
        assert(steps =~= three);
    } else {
        lemma_push(buffer, three, steps[3], readings);
        assert(steps =~= three.push(steps[3]));
    }
}

/// `after` is `before` with the `count` highest bits of byte `index` taken
/// from `readings`, the most significant bit from the first.
pub open spec fn took_bits(
    before: Seq<u8>,
    after: Seq<u8>,
    index: int,
    count: nat,
    readings: Seq<bool>,
) -> bool {
    &&& after.len() == before.len()
    &&& forall|other: int|
        0 <= other < before.len() && other != index ==> #[trigger] after[other] == before[other]
    &&& forall|bit: u8|
        bit < 8 ==> #[trigger] bit_set(after[index], bit) == (if bit >= 8 - count {
            readings[7 - bit]
        } else {
            bit_set(before[index], bit)
        })
}

/// `after` is `before` with the first `count` bytes taken from `readings`,
/// eight to a byte and the most significant bit first.
pub open spec fn took_bytes(
    before: Seq<u8>,
    after: Seq<u8>,
    count: nat,
    readings: Seq<bool>,
) -> bool {
    &&& after.len() == before.len()
    &&& forall|other: int|
        count <= other < before.len() ==> #[trigger] after[other] == before[other]
    &&& forall|index: int, bit: u8|
        0 <= index < count && bit < 8 ==> #[trigger] bit_set(after[index], bit) == readings[8
            * index + 7 - bit]
}

/// The pulses of the highest bits of a byte store one reading in each of
/// those bits.
pub proof fn lemma_high_bits(
    buffer: Seq<u8>,
    mode: Mode,
    index: usize,
    byte: u8,
    count: nat,
    readings: Seq<bool>,
)
    requires
        mode != Mode::Output,
        count <= 8,
        readings.len() == count,
        index < buffer.len(),
    ensures
        reads(high_bits_steps(mode, index, byte, count)) == count,
        took_bits(
            buffer,
            absorbed(buffer, high_bits_steps(mode, index, byte, count), readings),
            index as int,
            count,
            readings,
        ),
    decreases count,
{
    if count > 0 {
        let fewer = (count - 1) as nat;
        let bit = (8 - count) as u8;
        let head = high_bits_steps(mode, index, byte, fewer);
        let pulse = bit_steps(mode, index, byte, bit);
        let earlier = readings.take(fewer as int);
        let bytes = absorbed(buffer, head, earlier);
        lemma_pulse(bytes, mode, index, byte, bit, readings.skip(fewer as int));
        lemma_concat(buffer, head, pulse, readings);
        lemma_high_bits(buffer, mode, index, byte, fewer, earlier);
        let after = absorbed(buffer, high_bits_steps(mode, index, byte, count), readings);
        assert(after == stored(bytes, index as int, bit, readings[fewer as int]));
        assert forall|other: u8| other < 8 implies #[trigger] bit_set(after[index as int], other)
            == (if other >= 8 - count {
            readings[7 - other]
        } else {
            bit_set(buffer[index as int], other)
        }) by {
            lemma_with_bit(bytes[index as int], bit, readings[fewer as int], other);
        }
    }
}

/// The pulses of a buffer store eight readings in each byte.
pub proof fn lemma_shifted(buffer: Seq<u8>, mode: Mode, bytes: Seq<u8>, readings: Seq<bool>)
    requires
        mode != Mode::Output,
        bytes.len() <= buffer.len() <= usize::MAX,
        readings.len() == 8 * bytes.len(),
    ensures
        reads(shifting(mode, bytes)) == 8 * bytes.len(),
        took_bytes(
            buffer,
            absorbed(buffer, shifting(mode, bytes), readings),
            bytes.len(),
            readings,
        ),
    decreases bytes.len(),
{
    if bytes.len() > 0 {
        let fewer = bytes.drop_last();
        let index = (bytes.len() - 1) as usize;
        let head = shifting(mode, fewer);
        let tail = byte_steps(mode, index, bytes.last());
        let earlier = readings.take(8 * fewer.len() as int);
        let later = readings.skip(8 * fewer.len() as int);
        let partly = absorbed(buffer, head, earlier);
        lemma_shifted(buffer, mode, fewer, earlier);
        lemma_high_bits(partly, mode, index, bytes.last(), 8, later);
        lemma_concat(buffer, head, tail, readings);
    }
}

/// A cycle that reads reads one level for each pin.
pub proof fn lemma_reads(mode: Mode, bytes: Seq<u8>)
    requires
        mode != Mode::Output,
        bytes.len() <= usize::MAX,
    ensures
        reads(cycle(mode, bytes)) == 8 * bytes.len(),
{
    lemma_absorbed(bytes, mode, bytes, Seq::new(8 * bytes.len(), |place: int| false));
}

/// A whole cycle that reads leaves in the buffer, pin by pin, the levels
/// that it read.
pub proof fn lemma_absorbed(buffer: Seq<u8>, mode: Mode, bytes: Seq<u8>, readings: Seq<bool>)
    requires
        mode != Mode::Output,
        bytes.len() == buffer.len(),
        buffer.len() <= usize::MAX,
        readings.len() == 8 * buffer.len(),
    ensures
        reads(cycle(mode, bytes)) == 8 * buffer.len(),
        levels(absorbed(buffer, cycle(mode, bytes), readings)) == serial(readings),
{
    let open = opening(mode);
    let shift = shifting(mode, bytes);
    let close = closing(mode);
    let none = Seq::<Step>::empty();
    let nothing = Seq::<bool>::empty();
    lemma_shifted(buffer, mode, bytes, readings);
    let got = absorbed(buffer, shift, readings);
    assert(reads(close) == 0 && absorbed(got, close, nothing) == got) by {
        lemma_push(got, none, close[0], nothing);
        if mode == Mode::Input {
            assert(close =~= none.push(close[0]));
        } else {
            lemma_push(got, none.push(close[0]), close[1], nothing);
            lemma_push(got, none.push(close[0]).push(close[1]), close[2], nothing);
            assert(close =~= none.push(close[0]).push(close[1]).push(close[2]));
        }
    }
    assert(reads(open) == 0 && absorbed(buffer, open, nothing) == buffer) by {
        lemma_push(buffer, none, open[0], nothing);
        assert(open =~= none.push(open[0]));
    }
    lemma_concat(buffer, open, shift, readings);
    assert(readings.take(0) =~= nothing);
    assert(readings.skip(0) =~= readings);
    lemma_concat(buffer, open + shift, close, readings);
    assert(readings.take(readings.len() as int) =~= readings);
    assert(readings.skip(readings.len() as int) =~= nothing);
    let end = absorbed(buffer, cycle(mode, bytes), readings);
    assert(end == got);
    assert forall|pin: int| 0 <= pin < 8 * buffer.len() implies levels(end)[pin] == serial(
        readings,
    )[pin] by {
        assert(bit_set(end[pin / 8], (pin % 8) as u8) == readings[8 * (pin / 8) + 7 - pin % 8]);
    }
    assert(levels(end) =~= serial(readings));
}

} // verus!
