//! The update cycle: the line operations of one update, in order.
//!
//! The three kinds of chain share one shape. A cycle opens with one latch
//! operation, moves every bit of the buffer with one clock pulse each, and
//! closes with the latch operations that end the transfer. [`cycle`] states the
//! whole sequence; a [`Cursor`] hands it out one step at a time.

use vstd::prelude::*;

use crate::bits::{bit_set, test_bit};

verus! {

/// One operation on the lines of a chain.
#[derive(Debug, Clone, Copy, PartialEq, Eq)]
pub enum Step {
    /// Drive the latch line to the level.
    Latch(bool),
    /// Drive the clock line to the level.
    Clock(bool),
    /// Drive the outgoing data line to the level.
    Data(bool),
    /// Read the incoming data line: the level read is bit `bit` of buffer
    /// byte `byte`.
    Sample { byte: usize, bit: u8 },
}

/// The kind of chain that a cycle serves.
#[derive(Debug, Clone, Copy, PartialEq, Eq)]
pub enum Mode {
    /// Parallel-in/serial-out registers: the cycle reads.
    Input,
    /// Serial-in/parallel-out registers: the cycle writes.
    Output,
    /// Both kinds on one clock and one latch line: the cycle reads and writes.
    Dual,
}

/// Number of steps that move one bit.
pub open spec fn slots(mode: Mode) -> int {
    match mode {
        Mode::Dual => 4,
        _ => 3,
    }
}

/// Number of steps that move one byte.
pub open spec fn ticks(mode: Mode) -> int {
    8 * slots(mode)
}

/// The step that opens a cycle. Input registers shift while the latch line is
/// high, output registers while it is low.
pub open spec fn opening(mode: Mode) -> Seq<Step> {
    match mode {
        Mode::Output => seq![Step::Latch(false)],
        _ => seq![Step::Latch(true)],
    }
}

/// The steps that close a cycle. Output registers take the shifted bits over
/// on a rising latch edge. On a shared latch line the falling edge that ends
/// the read is followed by one more pulse, which gives the output registers
/// that edge.
pub open spec fn closing(mode: Mode) -> Seq<Step> {
    match mode {
        Mode::Input => seq![Step::Latch(false)],
        Mode::Output => seq![Step::Latch(true)],
        Mode::Dual => seq![Step::Latch(false), Step::Latch(true), Step::Latch(false)],
    }
}

/// The steps of one clock pulse, which moves bit `bit` of buffer byte `index`,
/// whose value is `byte`: clock low, the data lines, clock high.
pub open spec fn bit_steps(mode: Mode, index: usize, byte: u8, bit: u8) -> Seq<Step> {
    let sample = Step::Sample { byte: index, bit };
    let data = Step::Data(bit_set(byte, bit));
    match mode {
        Mode::Input => seq![Step::Clock(false), sample, Step::Clock(true)],
        Mode::Output => seq![Step::Clock(false), data, Step::Clock(true)],
        Mode::Dual => seq![Step::Clock(false), sample, data, Step::Clock(true)],
    }
}

/// The steps that move the `count` highest bits of a byte, most significant
/// bit first.
pub open spec fn high_bits_steps(mode: Mode, index: usize, byte: u8, count: nat) -> Seq<Step>
    decreases count,
{
    if count == 0 {
        Seq::empty()
    } else {
        high_bits_steps(mode, index, byte, (count - 1) as nat) + bit_steps(
            mode,
            index,
            byte,
            (8 - count) as u8,
        )
    }
}

/// The steps that move one byte, most significant bit first.
pub open spec fn byte_steps(mode: Mode, index: usize, byte: u8) -> Seq<Step> {
    high_bits_steps(mode, index, byte, 8)
}

/// The steps that move a whole buffer, byte 0 first.
pub open spec fn shifting(mode: Mode, buffer: Seq<u8>) -> Seq<Step>
    decreases buffer.len(),
{
    if buffer.len() == 0 {
        Seq::empty()
    } else {
        shifting(mode, buffer.drop_last()) + byte_steps(
            mode,
            (buffer.len() - 1) as usize,
            buffer.last(),
        )
    }
}

/// Every step of one update of a chain with the given buffer, in order.
pub open spec fn cycle(mode: Mode, buffer: Seq<u8>) -> Seq<Step> {
    opening(mode) + shifting(mode, buffer) + closing(mode)
}

/// The levels that the steps drive the clock line to, in order.
pub open spec fn clock_levels(steps: Seq<Step>) -> Seq<bool>
    decreases steps.len(),
{
    if steps.len() == 0 {
        Seq::empty()
    } else {
        match steps.last() {
            Step::Clock(level) => clock_levels(steps.drop_last()).push(level),
            _ => clock_levels(steps.drop_last()),
        }
    }
}

/// The levels that the steps drive the latch line to, in order.
pub open spec fn latch_levels(steps: Seq<Step>) -> Seq<bool>
    decreases steps.len(),
{
    if steps.len() == 0 {
        Seq::empty()
    } else {
        match steps.last() {
            Step::Latch(level) => latch_levels(steps.drop_last()).push(level),
            _ => latch_levels(steps.drop_last()),
        }
    }
}

/// The levels that the steps drive the outgoing data line to, in order.
pub open spec fn data_levels(steps: Seq<Step>) -> Seq<bool>
    decreases steps.len(),
{
    if steps.len() == 0 {
        Seq::empty()
    } else {
        match steps.last() {
            Step::Data(level) => data_levels(steps.drop_last()).push(level),
            _ => data_levels(steps.drop_last()),
        }
    }
}

/// One more step gives one more level to the line that it drives, and none
/// to the others.
pub proof fn lemma_levels_push(steps: Seq<Step>, step: Step)
    ensures
        clock_levels(steps.push(step)) == (match step {
            Step::Clock(level) => clock_levels(steps).push(level),
            _ => clock_levels(steps),
        }),
        latch_levels(steps.push(step)) == (match step {
            Step::Latch(level) => latch_levels(steps).push(level),
            _ => latch_levels(steps),
        }),
        data_levels(steps.push(step)) == (match step {
            Step::Data(level) => data_levels(steps).push(level),
            _ => data_levels(steps),
        }),
{
    assert(steps.push(step).drop_last() =~= steps);
}

/// The step at position `index` of a cycle, if the cycle is that long.
pub open spec fn step_at(mode: Mode, buffer: Seq<u8>, index: int) -> Option<Step> {
    if 0 <= index < cycle(mode, buffer).len() {
        Some(cycle(mode, buffer)[index])
    } else {
        None
    }
}

/// Position `tick` among the steps of the highest bits of a byte belongs to
/// the pulse of bit `7 - tick / slots`.
pub proof fn lemma_high_bits_steps(mode: Mode, index: usize, byte: u8, count: nat, tick: int)
    requires
        count <= 8,
        0 <= tick < slots(mode) * count,
    ensures
        high_bits_steps(mode, index, byte, count).len() == slots(mode) * count,
        high_bits_steps(mode, index, byte, count)[tick] == bit_steps(
            mode,
            index,
            byte,
            (7 - tick / slots(mode)) as u8,
        )[tick % slots(mode)],
    decreases count,
{
    lemma_high_bits_len(mode, index, byte, count);
    let fewer = (count - 1) as nat;
    lemma_high_bits_len(mode, index, byte, fewer);
    if tick < slots(mode) * fewer {
        lemma_high_bits_steps(mode, index, byte, fewer, tick);
    } else {
        let per_bit = slots(mode);
        assert(tick / per_bit == fewer && tick % per_bit == tick - per_bit * fewer)
            by (nonlinear_arith)
            requires
                per_bit * fewer <= tick < per_bit * fewer + per_bit,
                per_bit == 3 || per_bit == 4,
        ;
    }
}

/// Every bit takes the steps of one pulse.
pub proof fn lemma_high_bits_len(mode: Mode, index: usize, byte: u8, count: nat)
    ensures
        high_bits_steps(mode, index, byte, count).len() == slots(mode) * count,
    decreases count,
{
    if count > 0 {
        lemma_high_bits_len(mode, index, byte, (count - 1) as nat);
    }
}

/// Position `tick` among the steps of a byte belongs to the pulse of bit
/// `7 - tick / slots`.
pub proof fn lemma_byte_steps(mode: Mode, index: usize, byte: u8, tick: int)
    requires
        0 <= tick < ticks(mode),
    ensures
        byte_steps(mode, index, byte).len() == ticks(mode),
        byte_steps(mode, index, byte)[tick] == bit_steps(
            mode,
            index,
            byte,
            (7 - tick / slots(mode)) as u8,
        )[tick % slots(mode)],
{
    lemma_high_bits_steps(mode, index, byte, 8, tick);
}

/// The steps of a buffer are those of its bytes, one after the other.
pub proof fn lemma_shifting(mode: Mode, buffer: Seq<u8>, row: int, tick: int)
    requires
        0 <= row < buffer.len(),
        buffer.len() <= usize::MAX,
        0 <= tick < ticks(mode),
    ensures
        shifting(mode, buffer).len() == ticks(mode) * buffer.len(),
        shifting(mode, buffer)[row * ticks(mode) + tick] == byte_steps(
            mode,
            row as usize,
            buffer[row],
        )[tick],
    decreases buffer.len(),
{
    lemma_shifting_len(mode, buffer);
    let head = buffer.drop_last();
    lemma_shifting_len(mode, head);
    lemma_byte_steps(mode, (buffer.len() - 1) as usize, buffer.last(), tick);
    if row < head.len() {
        lemma_shifting(mode, head, row, tick);
        assert(row * ticks(mode) + tick < ticks(mode) * head.len()) by (nonlinear_arith)
            requires
                0 <= row < head.len(),
                0 <= tick < ticks(mode),
        ;
    } else {
        assert(row * ticks(mode) == ticks(mode) * head.len()) by (nonlinear_arith)
            requires
                row == head.len(),
        ;
    }
}

/// A buffer takes as many steps as it has bits, times the steps of one pulse.
pub proof fn lemma_shifting_len(mode: Mode, buffer: Seq<u8>)
    ensures
        shifting(mode, buffer).len() == ticks(mode) * buffer.len(),
    decreases buffer.len(),
{
    if buffer.len() > 0 {
        lemma_shifting_len(mode, buffer.drop_last());
        lemma_byte_steps(mode, (buffer.len() - 1) as usize, buffer.last(), 0);
        assert(ticks(mode) * (buffer.len() - 1) + ticks(mode) == ticks(mode) * buffer.len())
            by (nonlinear_arith);
    }
}

/// The steps of a cycle that only reads depend on the length of the buffer
/// and not on what it holds.
pub proof fn lemma_input_cycle(first: Seq<u8>, second: Seq<u8>)
    requires
        first.len() == second.len(),
    ensures
        shifting(Mode::Input, first) == shifting(Mode::Input, second),
        cycle(Mode::Input, first) == cycle(Mode::Input, second),
    decreases first.len(),
{
    if first.len() > 0 {
        let index: usize = #[verifier::truncate]
        ((first.len() - 1) as usize);
        lemma_input_cycle(first.drop_last(), second.drop_last());
        lemma_input_bits(index, first.last(), second.last(), 8);
    }
}

/// The steps that read the bits of a byte do not depend on the byte.
pub proof fn lemma_input_bits(index: usize, first: u8, second: u8, count: nat)
    ensures
        high_bits_steps(Mode::Input, index, first, count) == high_bits_steps(
            Mode::Input,
            index,
            second,
            count,
        ),
    decreases count,
{
    if count > 0 {
        lemma_input_bits(index, first, second, (count - 1) as nat);
    }
}

/// A step that reads while a byte moves names a bit of that byte. No such
/// step reads in a cycle that only writes, or drives the data line in one
/// that only reads.
pub proof fn lemma_byte_samples(mode: Mode, index: usize, byte: u8, tick: int)
    requires
        0 <= tick < ticks(mode),
    ensures
        byte_steps(mode, index, byte)[tick] matches Step::Sample { byte: place, bit } ==> place
            == index && bit < 8,
        mode == Mode::Output ==> !(byte_steps(mode, index, byte)[tick] is Sample),
        mode == Mode::Input ==> !(byte_steps(mode, index, byte)[tick] is Data),
{
    lemma_byte_steps(mode, index, byte, tick);
}

/// A step that reads names a bit of the buffer. A cycle that only writes
/// has no step that reads, and a cycle that only reads has no step that
/// drives the data line.
pub proof fn lemma_samples(mode: Mode, buffer: Seq<u8>, index: int)
    requires
        0 <= index < cycle(mode, buffer).len(),
        buffer.len() <= usize::MAX,
    ensures
        cycle(mode, buffer)[index] matches Step::Sample { byte, bit } ==> byte < buffer.len()
            && bit < 8,
        mode == Mode::Output ==> !(cycle(mode, buffer)[index] is Sample),
        mode == Mode::Input ==> !(cycle(mode, buffer)[index] is Data),
{
    lemma_shifting_len(mode, buffer);
    let width = ticks(mode);
    if 1 <= index < 1 + width * buffer.len() {
        let row = (index - 1) / width;
        let tick = (index - 1) % width;
        assert(0 <= row < buffer.len() && index - 1 == row * width + tick && 0 <= tick < width)
            by (nonlinear_arith)
            requires
                0 <= index - 1 < width * buffer.len(),
                row == (index - 1) / width,
                tick == (index - 1) % width,
                width == 24 || width == 32,
        ;
        lemma_shifting(mode, buffer, row, tick);
        lemma_byte_samples(mode, row as usize, buffer[row], tick);
        assert(cycle(mode, buffer)[index] == shifting(mode, buffer)[index - 1]);
    }
}

/// A position in a cycle. It starts before the first step, and `next` hands
/// out the step it stands before and moves past it.
pub struct Cursor {
    mode: Mode,
    opened: bool,
    row: usize,
    tick: u8,
}

impl Cursor {
    #[verifier::type_invariant]
    spec fn well_formed(self) -> bool {
        &&& self.tick < ticks(self.mode)
        &&& !self.opened ==> self.row == 0 && self.tick == 0
    }

    /// The kind of cycle that the cursor walks.
    pub closed spec fn mode(self) -> Mode {
        self.mode
    }

    /// Number of steps handed out so far.
    pub closed spec fn index(self) -> int {
        if self.opened {
            1 + self.row * ticks(self.mode) + self.tick
        } else {
            0
        }
    }

    /// A cursor before the first step of a cycle of the given kind.
    pub fn start(mode: Mode) -> (cursor: Cursor)
        ensures
            cursor.mode() == mode,
            cursor.index() == 0,
    {
        Cursor { mode, opened: false, row: 0, tick: 0 }
    }

    /// Hands out the next step of the cycle of a chain with the given buffer,
    /// or `None` once the cycle is over.
    pub fn next<const CHAIN_LENGTH: usize>(&mut self, buffer: &[u8; CHAIN_LENGTH]) -> (step:
        Option<Step>)
        ensures
            step == step_at(old(self).mode(), buffer@, old(self).index()),
            final(self).mode() == old(self).mode(),
            final(self).index() == old(self).index() + (if step is Some {
                1int
            } else {
                0int
            }),
    {
        proof {
            use_type_invariant(&*self);
            lemma_shifting_len(self.mode, buffer@);
        }
        let mode = self.mode;
        let per_bit: u8 = match mode {
            Mode::Dual => 4,
            _ => 3,
        };
        if !self.opened {
            self.opened = true;
            let step = match mode {
                Mode::Output => Step::Latch(false),
                _ => Step::Latch(true),
            };
            return Some(step);
        }
        let ghost at = self.index();
        let ghost width = ticks(mode);
        if self.row < CHAIN_LENGTH {
            let byte: u8 = buffer[self.row];
            let bit: u8 = 7 - self.tick / per_bit;
            let slot: u8 = self.tick % per_bit;
            proof {
                lemma_shifting(mode, buffer@, self.row as int, self.tick as int);
                lemma_byte_steps(mode, self.row, byte, self.tick as int);
                assert(at - 1 < width * CHAIN_LENGTH) by (nonlinear_arith)
                    requires
                        at - 1 == self.row * width + self.tick,
                        self.row < CHAIN_LENGTH,
                        self.tick < width,
                ;
                assert(cycle(mode, buffer@)[at] == shifting(mode, buffer@)[at - 1]);
            }
            let step = pulse_step(mode, self.row, byte, bit, slot);
            if self.tick + 1 < 8 * per_bit {
                self.tick = self.tick + 1;
            } else {
                self.tick = 0;
                self.row = self.row + 1;
                assert((self.row - 1) * width + width == self.row * width) by (nonlinear_arith);
            }
            Some(step)
        } else if self.row == CHAIN_LENGTH && self.tick < closing_len(mode) {
            let step = closing_step(mode, self.tick);
            proof {
                assert(self.row * width == width * CHAIN_LENGTH) by (nonlinear_arith)
                    requires
                        self.row == CHAIN_LENGTH,
                ;
                assert(cycle(mode, buffer@)[at] == closing(mode)[self.tick as int]);
            }
            self.tick = self.tick + 1;
            Some(step)
        } else {
            assert(at >= cycle(mode, buffer@).len()) by (nonlinear_arith)
                requires
                    at == 1 + self.row * width + self.tick,
                    self.row > CHAIN_LENGTH || (self.row == CHAIN_LENGTH && self.tick >= closing(
                        mode,
                    ).len()),
                    closing(mode).len() < width,
                    cycle(mode, buffer@).len() == 1 + width * CHAIN_LENGTH + closing(mode).len(),
            ;
            None
        }
    }
}

/// Number of steps that close a cycle.
fn closing_len(mode: Mode) -> (count: u8)
    ensures
        count == closing(mode).len(),
        count < ticks(mode),
{
    match mode {
        Mode::Dual => 3,
        _ => 1,
    }
}

/// The closing step at position `at`.
fn closing_step(mode: Mode, at: u8) -> (step: Step)
    requires
        at < closing(mode).len(),
    ensures
        step == closing(mode)[at as int],
{
    match mode {
        Mode::Input => Step::Latch(false),
        Mode::Output => Step::Latch(true),
        Mode::Dual => Step::Latch(at == 1),
    }
}

/// The step at position `slot` of the pulse that moves bit `bit`.
fn pulse_step(mode: Mode, index: usize, byte: u8, bit: u8, slot: u8) -> (step: Step)
    requires
        bit < 8,
        slot < slots(mode),
    ensures
        step == bit_steps(mode, index, byte, bit)[slot as int],
{
    let last: u8 = match mode {
        Mode::Dual => 3,
        _ => 2,
    };
    if slot == 0 {
        Step::Clock(false)
    } else if slot == last {
        Step::Clock(true)
    } else {
        match mode {
            Mode::Input => Step::Sample { byte: index, bit },
            Mode::Output => Step::Data(test_bit(byte, bit)),
            Mode::Dual => if slot == 1 {
                Step::Sample { byte: index, bit }
            } else {
                Step::Data(test_bit(byte, bit))
            },
        }
    }
}

} // verus!
