//! What a chain of parallel-in/serial-out registers shows to the steps of a
//! cycle.
//!
//! The model is that of the 74HC165: while the latch line is low the shift
//! register follows the input pins; while it is high a rising clock edge moves
//! every stage one place towards the data line. The data line shows the stage
//! next to it. Of each chip pin 7 comes out first, and the chip next to the
//! data line is chip 0.

use vstd::prelude::*;

use crate::cycle::{
    bit_steps, byte_steps, closing, cycle, high_bits_steps, opening, shifting, Mode, Step,
};
use crate::input::levels;
use crate::reading::{absorbed, lemma_absorbed, lemma_serial_twice, serial};

verus! {

/// The state of a chain of input registers and of the lines that drive it.
pub struct Piso {
    /// Level of the clock line.
    pub clock: bool,
    /// Level of the latch line.
    pub latch: bool,
    /// The levels at the input pins, pin 0 first.
    pub inputs: Seq<bool>,
    /// The levels still to come out of the shift register, the next one
    /// first.
    pub stages: Seq<bool>,
}

impl Piso {
    /// The latch line is low and the shift register holds the input pins.
    pub open spec fn loaded(self) -> bool {
        !self.latch && self.stages == serial(self.inputs)
    }

    /// The level that the data line shows.
    pub open spec fn line(self) -> bool {
        self.stages[0]
    }

    /// The state after one step.
    pub open spec fn after(self, step: Step) -> Piso {
        match step {
            Step::Latch(level) => Piso {
                latch: level,
                stages: if level {
                    self.stages
                } else {
                    serial(self.inputs)
                },
                ..self
            },
            Step::Clock(level) => Piso {
                clock: level,
                stages: if level && !self.clock && self.latch && self.stages.len() > 0 {
                    self.stages.drop_first()
                } else {
                    self.stages
                },
                ..self
            },
            _ => self,
        }
    }

    /// The state after the steps, in order.
    pub open spec fn run(self, steps: Seq<Step>) -> Piso
        decreases steps.len(),
    {
        if steps.len() == 0 {
            self
        } else {
            self.run(steps.drop_last()).after(steps.last())
        }
    }

    /// The levels that the steps that read find on the data line, in order.
    pub open spec fn shown(self, steps: Seq<Step>) -> Seq<bool>
        decreases steps.len(),
    {
        if steps.len() == 0 {
            Seq::empty()
        } else {
            let before = self.shown(steps.drop_last());
            if steps.last() is Sample {
                before.push(self.run(steps.drop_last()).line())
            } else {
                before
            }
        }
    }
}

/// Two sequences of steps one after the other.
pub proof fn lemma_concat(chip: Piso, first: Seq<Step>, second: Seq<Step>)
    ensures
        chip.run(first + second) == chip.run(first).run(second),
        chip.shown(first + second) == chip.shown(first) + chip.run(first).shown(second),
    decreases second.len(),
{
    if second.len() == 0 {
        assert(first + second =~= first);
        assert(chip.shown(first) + chip.run(first).shown(second) =~= chip.shown(first));
    } else {
        let fewer = second.drop_last();
        lemma_concat(chip, first, fewer);
        assert((first + second).drop_last() =~= first + fewer);
        let before = chip.shown(first) + chip.run(first).shown(fewer);
        assert(before.push(chip.run(first + fewer).line()) =~= chip.shown(first) + chip.run(
            first,
        ).shown(fewer).push(chip.run(first).run(fewer).line()));
    }
}

/// One more step.
pub proof fn lemma_push(chip: Piso, steps: Seq<Step>, step: Step)
    ensures
        chip.run(steps.push(step)) == chip.run(steps).after(step),
        chip.shown(steps.push(step)) == (if step is Sample {
            chip.shown(steps).push(chip.run(steps).line())
        } else {
            chip.shown(steps)
        }),
{
    assert(steps.push(step).drop_last() =~= steps);
}

/// One pulse of a cycle that reads shows the level next to the data line
/// and moves the shift register one place on.
pub proof fn lemma_pulse(chip: Piso, mode: Mode, index: usize, byte: u8, bit: u8)
    requires
        mode != Mode::Output,
        chip.latch,
        chip.stages.len() > 0,
    ensures
        chip.run(bit_steps(mode, index, byte, bit)) == (Piso {
            clock: true,
            stages: chip.stages.drop_first(),
            ..chip
        }),
        chip.shown(bit_steps(mode, index, byte, bit)) == seq![chip.line()],
{
    let steps = bit_steps(mode, index, byte, bit);
    let none = Seq::<Step>::empty();
    let one = none.push(steps[0]);
    let two = one.push(steps[1]);
    let three = two.push(steps[2]);
    lemma_push(chip, none, steps[0]);
    lemma_push(chip, one, steps[1]);
    lemma_push(chip, two, steps[2]);
    if mode == Mode::Input {
        assert(steps =~= three);
    } else {
        lemma_push(chip, three, steps[3]);
        assert(steps =~= three.push(steps[3]));
    }
    assert(chip.shown(steps) =~= seq![chip.line()]);
}

/// The pulses of the highest bits of a byte show the levels next to the data
/// line, one after the other, and move the shift register past them.
pub proof fn lemma_high_bits(chip: Piso, mode: Mode, index: usize, byte: u8, count: nat)
    requires
        mode != Mode::Output,
        chip.latch,
        count <= 8,
        chip.stages.len() >= count,
    ensures
        ({
            let steps = high_bits_steps(mode, index, byte, count);
            let end = chip.run(steps);
            &&& end.latch
            &&& end.inputs == chip.inputs
            &&& end.stages == chip.stages.skip(count as int)
            &&& chip.shown(steps) == chip.stages.take(count as int)
        }),
    decreases count,
{
    let steps = high_bits_steps(mode, index, byte, count);
    let end = chip.run(steps);
    if count == 0 {
        assert(end.stages =~= chip.stages.skip(0));
        assert(chip.shown(steps) =~= chip.stages.take(0));
    } else {
        let fewer = (count - 1) as nat;
        let bit = (8 - count) as u8;
        let head = high_bits_steps(mode, index, byte, fewer);
        let before = chip.run(head);
        lemma_high_bits(chip, mode, index, byte, fewer);
        lemma_concat(chip, head, bit_steps(mode, index, byte, bit));
        lemma_pulse(before, mode, index, byte, bit);
        assert(end.stages =~= chip.stages.skip(count as int));
        assert(chip.shown(steps) =~= chip.stages.take(count as int));
    }
}

/// The pulses of a buffer show the levels next to the data line, one after
/// the other, and move the shift register past them.
pub proof fn lemma_shifted(chip: Piso, mode: Mode, bytes: Seq<u8>)
    requires
        mode != Mode::Output,
        chip.latch,
        chip.stages.len() >= 8 * bytes.len(),
    ensures
        ({
            let steps = shifting(mode, bytes);
            let end = chip.run(steps);
            &&& end.latch
            &&& end.inputs == chip.inputs
            &&& end.stages == chip.stages.skip(8 * bytes.len() as int)
            &&& chip.shown(steps) == chip.stages.take(8 * bytes.len() as int)
        }),
    decreases bytes.len(),
{
    let steps = shifting(mode, bytes);
    let end = chip.run(steps);
    if bytes.len() == 0 {
        assert(end.stages =~= chip.stages.skip(0));
        assert(chip.shown(steps) =~= chip.stages.take(0));
    } else {
        let fewer = bytes.drop_last();
        let index: usize = #[verifier::truncate]
        ((bytes.len() - 1) as usize);
        let head = shifting(mode, fewer);
        let before = chip.run(head);
        lemma_shifted(chip, mode, fewer);
        lemma_concat(chip, head, byte_steps(mode, index, bytes.last()));
        lemma_high_bits(before, mode, index, bytes.last(), 8);
        assert(end.stages =~= chip.stages.skip(8 * bytes.len() as int));
        assert(chip.shown(steps) =~= chip.stages.take(8 * bytes.len() as int));
    }
}

/// A cycle that reads finds the level of every input pin on the data line,
/// in serial order.
///
/// The registers must be loaded when the cycle begins: the latch line low, as
/// every cycle leaves it, and one chip for each byte of the buffer that the
/// steps are taken from. The cycle leaves the registers loaded again.
pub proof fn lemma_shows_inputs(chip: Piso, mode: Mode, bytes: Seq<u8>)
    requires
        mode != Mode::Output,
        chip.loaded(),
        chip.inputs.len() == 8 * bytes.len(),
    ensures
        chip.shown(cycle(mode, bytes)) == serial(chip.inputs),
        chip.run(cycle(mode, bytes)).loaded(),
        chip.run(cycle(mode, bytes)).inputs == chip.inputs,
{
    let open = opening(mode);
    let shift = shifting(mode, bytes);
    let close = closing(mode);
    let none = Seq::<Step>::empty();
    assert(open =~= none.push(open[0]));
    lemma_push(chip, none, open[0]);
    let opened = chip.run(open);
    lemma_concat(chip, open, shift);
    lemma_shifted(opened, mode, bytes);
    let moved = chip.run(open + shift);
    lemma_concat(chip, open + shift, close);
    lemma_push(moved, none, close[0]);
    if mode == Mode::Input {
        assert(close =~= none.push(close[0]));
    } else {
        lemma_push(moved, none.push(close[0]), close[1]);
        lemma_push(moved, none.push(close[0]).push(close[1]), close[2]);
        assert(close =~= none.push(close[0]).push(close[1]).push(close[2]));
    }
    assert(chip.shown(cycle(mode, bytes)) =~= serial(chip.inputs));
}

/// An update reads the input pins: when the data line shows what the
/// registers shift out, the buffer holds after the cycle the level of every
/// input pin.
pub proof fn lemma_update_reads_inputs(chip: Piso, buffer: Seq<u8>, mode: Mode, bytes: Seq<u8>)
    requires
        mode != Mode::Output,
        chip.loaded(),
        chip.inputs.len() == 8 * buffer.len(),
        bytes.len() == buffer.len(),
        buffer.len() <= usize::MAX,
    ensures
        levels(absorbed(buffer, cycle(mode, bytes), chip.shown(cycle(mode, bytes))))
            == chip.inputs,
{
    lemma_shows_inputs(chip, mode, bytes);
    lemma_absorbed(buffer, mode, bytes, serial(chip.inputs));
    lemma_serial_twice(chip.inputs);
}

} // verus!
