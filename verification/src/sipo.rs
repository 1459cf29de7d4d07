//! What a chain of serial-in/parallel-out registers does with the steps of a
//! cycle.
//!
//! The model is that of the 74HC595: a rising clock edge moves every stage of
//! the shift register one place away from the data line and takes the level
//! of the data line into stage 0; a rising latch edge copies the stages to the
//! output pins. Stage `8 * c + q` belongs to pin `q` of chip `c`, chip 0 being
//! the one next to the data line.

use vstd::prelude::*;

use crate::bits::bit_set;
use crate::cycle::{
    bit_steps, byte_steps, closing, cycle, high_bits_steps, opening, shifting, Mode, Step,
};
use crate::output::{lemma_written, levels, written};

verus! {

/// The state of a chain of output registers and of the lines that drive it.
pub struct Sipo {
    /// Level of the clock line.
    pub clock: bool,
    /// Level of the latch line.
    pub latch: bool,
    /// Level of the data line.
    pub data: bool,
    /// The shift register, the stage next to the data line first.
    pub stages: Seq<bool>,
    /// The levels at the output pins, pin 0 first.
    pub outputs: Seq<bool>,
}

/// The stages after a rising clock edge that takes `level` in.
pub open spec fn pushed(stages: Seq<bool>, level: bool) -> Seq<bool> {
    Seq::new(
        stages.len(),
        |place: int|
            if place == 0 {
                level
            } else {
                stages[place - 1]
            },
    )
}

impl Sipo {
    /// The state after one step.
    pub open spec fn after(self, step: Step) -> Sipo {
        match step {
            Step::Data(level) => Sipo { data: level, ..self },
            Step::Clock(level) => Sipo {
                clock: level,
                stages: if level && !self.clock {
                    pushed(self.stages, self.data)
                } else {
                    self.stages
                },
                ..self
            },
            Step::Latch(level) => Sipo {
                latch: level,
                outputs: if level && !self.latch {
                    self.stages
                } else {
                    self.outputs
                },
                ..self
            },
            Step::Sample { .. } => self,
        }
    }

    /// The state after the steps, in order.
    pub open spec fn run(self, steps: Seq<Step>) -> Sipo
        decreases steps.len(),
    {
        if steps.len() == 0 {
            self
        } else {
            self.run(steps.drop_last()).after(steps.last())
        }
    }
}

/// Running two sequences of steps one after the other is running their
/// concatenation.
pub proof fn lemma_run_concat(chip: Sipo, first: Seq<Step>, second: Seq<Step>)
    ensures
        chip.run(first + second) == chip.run(first).run(second),
    decreases second.len(),
{
    if second.len() == 0 {
        assert(first + second =~= first);
    } else {
        lemma_run_concat(chip, first, second.drop_last());
        assert((first + second).drop_last() =~= first + second.drop_last());
    }
}

/// One pulse of a cycle that writes takes one bit into the shift register and
/// leaves the output pins alone.
pub proof fn lemma_pulse(chip: Sipo, mode: Mode, index: usize, byte: u8, bit: u8)
    requires
        mode != Mode::Input,
    ensures
        chip.run(bit_steps(mode, index, byte, bit)) == (Sipo {
            clock: true,
            data: bit_set(byte, bit),
            stages: pushed(chip.stages, bit_set(byte, bit)),
            ..chip
        }),
{
    let steps = bit_steps(mode, index, byte, bit);
    reveal_with_fuel(Sipo::run, 5);
    if mode == Mode::Output {
        assert(steps.drop_last() =~= seq![steps[0], steps[1]]);
        assert(steps.drop_last().drop_last() =~= seq![steps[0]]);
        assert(steps.drop_last().drop_last().drop_last() =~= Seq::<Step>::empty());
    } else {
        assert(steps.drop_last() =~= seq![steps[0], steps[1], steps[2]]);
        assert(steps.drop_last().drop_last() =~= seq![steps[0], steps[1]]);
        assert(steps.drop_last().drop_last().drop_last() =~= seq![steps[0]]);
        assert(steps.drop_last().drop_last().drop_last().drop_last() =~= Seq::<Step>::empty());
    }
}

/// The highest bits of a byte, shifted in most significant bit first, end in
/// the first stages in the order of their bit numbers.
pub proof fn lemma_high_bits(chip: Sipo, mode: Mode, index: usize, byte: u8, count: nat)
    requires
        mode != Mode::Input,
        count <= 8,
    ensures
        ({
            let end = chip.run(high_bits_steps(mode, index, byte, count));
            &&& end.latch == chip.latch
            &&& end.outputs == chip.outputs
            &&& end.stages == Seq::new(
                chip.stages.len(),
                |place: int|
                    if place < count {
                        bit_set(byte, (8 - count + place) as u8)
                    } else {
                        chip.stages[place - count]
                    },
            )
        }),
    decreases count,
{
    let end = chip.run(high_bits_steps(mode, index, byte, count));
    let goal = Seq::new(
        chip.stages.len(),
        |place: int|
            if place < count {
                bit_set(byte, (8 - count + place) as u8)
            } else {
                chip.stages[place - count]
            },
    );
    if count == 0 {
        assert(end.stages =~= goal);
    } else {
        let fewer = (count - 1) as nat;
        let bit = (8 - count) as u8;
        let before = chip.run(high_bits_steps(mode, index, byte, fewer));
        lemma_high_bits(chip, mode, index, byte, fewer);
        lemma_run_concat(
            chip,
            high_bits_steps(mode, index, byte, fewer),
            bit_steps(mode, index, byte, bit),
        );
        lemma_pulse(before, mode, index, byte, bit);
        assert(end.stages =~= goal);
    }
}

/// A buffer, shifted out byte 0 first, ends in the stages pin by pin.
pub proof fn lemma_shifted(chip: Sipo, mode: Mode, buffer: Seq<u8>)
    requires
        mode != Mode::Input,
    ensures
        ({
            let end = chip.run(shifting(mode, buffer));
            &&& end.latch == chip.latch
            &&& end.outputs == chip.outputs
            &&& end.stages == Seq::new(
                chip.stages.len(),
                |pin: int|
                    if pin < 8 * buffer.len() {
                        levels(buffer)[pin]
                    } else {
                        chip.stages[pin - 8 * buffer.len()]
                    },
            )
        }),
    decreases buffer.len(),
{
    let end = chip.run(shifting(mode, buffer));
    let goal = Seq::new(
        chip.stages.len(),
        |pin: int|
            if pin < 8 * buffer.len() {
                levels(buffer)[pin]
            } else {
                chip.stages[pin - 8 * buffer.len()]
            },
    );
    if buffer.len() == 0 {
        assert(end.stages =~= goal);
    } else {
        let head = buffer.drop_last();
        let index = (buffer.len() - 1) as usize;
        let before = chip.run(shifting(mode, head));
        lemma_shifted(chip, mode, head);
        lemma_run_concat(chip, shifting(mode, head), byte_steps(mode, index, buffer.last()));
        lemma_high_bits(before, mode, index, buffer.last(), 8);
        assert(end.stages =~= goal);
    }
}

/// No step of the sequence drives the latch line.
pub open spec fn quiet(steps: Seq<Step>) -> bool {
    forall|at: int| 0 <= at < steps.len() ==> !(#[trigger] steps[at] is Latch)
}

/// Steps that leave the latch line alone leave the output pins alone.
pub proof fn lemma_quiet(chip: Sipo, steps: Seq<Step>)
    requires
        quiet(steps),
    ensures
        chip.run(steps).outputs == chip.outputs,
        chip.run(steps).latch == chip.latch,
    decreases steps.len(),
{
    if steps.len() > 0 {
        lemma_quiet(chip, steps.drop_last());
    }
}

/// While a buffer moves, nothing drives the latch line.
pub proof fn lemma_shifting_quiet(mode: Mode, buffer: Seq<u8>)
    ensures
        quiet(shifting(mode, buffer)),
    decreases buffer.len(),
{
    if buffer.len() > 0 {
        lemma_shifting_quiet(mode, buffer.drop_last());
        lemma_high_bits_quiet(mode, (buffer.len() - 1) as usize, buffer.last(), 8);
    }
}

/// While the bits of a byte move, nothing drives the latch line.
pub proof fn lemma_high_bits_quiet(mode: Mode, index: usize, byte: u8, count: nat)
    ensures
        quiet(high_bits_steps(mode, index, byte, count)),
    decreases count,
{
    if count > 0 {
        lemma_high_bits_quiet(mode, index, byte, (count - 1) as nat);
    }
}

/// Number of steps of a cycle up to the rising latch edge that hands the
/// shifted bits to the output pins, that edge included.
pub open spec fn handover(mode: Mode, buffer: Seq<u8>) -> int {
    cycle(mode, buffer).len() - trailing(mode)
}

/// Number of closing steps that follow the rising latch edge.
pub open spec fn trailing(mode: Mode) -> int {
    if mode == Mode::Dual {
        1
    } else {
        0
    }
}

/// Running one more step.
pub proof fn lemma_run_push(chip: Sipo, steps: Seq<Step>, step: Step)
    ensures
        chip.run(steps.push(step)) == chip.run(steps).after(step),
{
    assert(steps.push(step).drop_last() =~= steps);
}

/// The closing steps hand the stages to the output pins at the rising latch
/// edge, and not before.
pub proof fn lemma_closing(chip: Sipo, mode: Mode, taken: int)
    requires
        mode != Mode::Input,
        chip.latch == (mode == Mode::Dual),
        0 <= taken <= closing(mode).len(),
    ensures
        chip.run(closing(mode).take(taken)).outputs == (if taken >= closing(mode).len()
            - trailing(mode) {
            chip.stages
        } else {
            chip.outputs
        }),
{
    let close = closing(mode);
    let none = Seq::<Step>::empty();
    if taken == 0 {
        assert(close.take(taken) =~= none);
    } else if taken == 1 {
        assert(close.take(taken) =~= none.push(close[0]));
        lemma_run_push(chip, none, close[0]);
    } else if taken == 2 {
        assert(close.take(taken) =~= none.push(close[0]).push(close[1]));
        lemma_run_push(chip, none, close[0]);
        lemma_run_push(chip, none.push(close[0]), close[1]);
    } else {
        assert(close.take(taken) =~= none.push(close[0]).push(close[1]).push(close[2]));
        lemma_run_push(chip, none, close[0]);
        lemma_run_push(chip, none.push(close[0]), close[1]);
        lemma_run_push(chip, none.push(close[0]).push(close[1]), close[2]);
    }
}

/// The output pins change at the handover and show the buffer from then on.
///
/// Whatever number of steps of a cycle that writes has been taken: before
/// the handover the pins show what they showed when the cycle began, or, on a
/// shared latch line, what the stages held then; from the handover on they
/// show the level buffered for each pin. They never show a buffer that is
/// partly shifted.
pub proof fn lemma_outputs(chip: Sipo, mode: Mode, buffer: Seq<u8>, taken: int)
    requires
        mode != Mode::Input,
        chip.stages.len() == 8 * buffer.len(),
        0 <= taken <= cycle(mode, buffer).len(),
    ensures
        ({
            let seen = chip.run(cycle(mode, buffer).take(taken)).outputs;
            if taken < handover(mode, buffer) {
                seen == chip.outputs || (mode == Mode::Dual && seen == chip.stages)
            } else {
                seen == levels(buffer)
            }
        }),
{
    let steps = cycle(mode, buffer);
    let open = opening(mode);
    let shift = shifting(mode, buffer);
    let close = closing(mode);
    let none = Seq::<Step>::empty();
    let opened = chip.after(open[0]);
    assert(open =~= none.push(open[0]));
    lemma_run_push(chip, none, open[0]);
    if taken == 0 {
        assert(steps.take(taken) =~= none);
    } else if taken <= 1 + shift.len() {
        let part = shift.take(taken - 1);
        assert(steps.take(taken) =~= open + part);
        lemma_run_concat(chip, open, part);
        lemma_shifting_quiet(mode, buffer);
        lemma_quiet(opened, part);
    } else {
        let part = close.take(taken - 1 - shift.len());
        assert(steps.take(taken) =~= (open + shift) + part);
        lemma_run_concat(chip, open + shift, part);
        lemma_run_concat(chip, open, shift);
        lemma_shifted(opened, mode, buffer);
        let moved = opened.run(shift);
        assert(moved.stages =~= levels(buffer));
        lemma_closing(moved, mode, taken - 1 - shift.len());
    }
}

/// After a whole cycle that writes, every output pin shows the level buffered
/// for it.
pub proof fn lemma_update_shows_buffer(chip: Sipo, mode: Mode, buffer: Seq<u8>)
    requires
        mode != Mode::Input,
        chip.stages.len() == 8 * buffer.len(),
    ensures
        chip.run(cycle(mode, buffer)).outputs == levels(buffer),
{
    let steps = cycle(mode, buffer);
    lemma_outputs(chip, mode, buffer, steps.len() as int);
    assert(steps.take(steps.len() as int) =~= steps);
}

/// Setting one pin and then updating changes that pin, and no other, at the
/// registers: the pin shows the level set, every other pin the level that was
/// buffered for it before.
pub proof fn lemma_set_then_update(
    chip: Sipo,
    mode: Mode,
    buffer: Seq<u8>,
    pin: int,
    level: bool,
)
    requires
        mode != Mode::Input,
        chip.stages.len() == 8 * buffer.len(),
        0 <= pin < 8 * buffer.len(),
    ensures
        chip.run(cycle(mode, written(buffer, pin, level))).outputs == levels(buffer).update(
            pin,
            level,
        ),
{
    lemma_written(buffer, pin, level);
    lemma_update_shows_buffer(chip, mode, written(buffer, pin, level));
}

} // verus!
