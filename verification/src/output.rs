//! Single chain of 8-bit SIPO shift registers (e.g. 74HC595) for digital output

use core::marker::PhantomData;
use vstd::prelude::*;

use crate::bits::{assign_bit, bit_set, lemma_bits_fix_byte, lemma_with_bit, with_bit};
use crate::cycle::{
    clock_levels, cycle, data_levels, latch_levels, lemma_levels_push, lemma_samples, Cursor, Mode,
    Step,
};
use crate::line::{drive, OutputLine};
use crate::{Error, Length};

verus! {

/// The level that a buffer holds for each output pin, pin 0 first. Byte 0 of
/// the buffer is shifted out first and so ends in the last chip: the pins of
/// chip `c` are the bits of byte `len - 1 - c`.
pub open spec fn levels(buffer: Seq<u8>) -> Seq<bool> {
    Seq::new(
        8 * buffer.len(),
        |pin: int| bit_set(buffer[buffer.len() - 1 - pin / 8], (pin % 8) as u8),
    )
}

/// The buffer after `level` is written for `pin`.
pub open spec fn written(buffer: Seq<u8>, pin: int, level: bool) -> Seq<u8> {
    let index = buffer.len() - 1 - pin / 8;
    buffer.update(index, with_bit(buffer[index], (pin % 8) as u8, level))
}

/// Writing a pin changes the level of that pin and of no other.
pub proof fn lemma_written(buffer: Seq<u8>, pin: int, level: bool)
    requires
        0 <= pin < 8 * buffer.len(),
    ensures
        levels(written(buffer, pin, level)) == levels(buffer).update(pin, level),
{
    let after = written(buffer, pin, level);
    assert forall|other: int| 0 <= other < 8 * buffer.len() implies levels(after)[other]
        == levels(buffer).update(pin, level)[other] by {
        let index = buffer.len() - 1 - pin / 8;
        if other / 8 == pin / 8 {
            lemma_with_bit(buffer[index], (pin % 8) as u8, level, (other % 8) as u8);
        }
    }
    assert(levels(after) =~= levels(buffer).update(pin, level));
}

/// Two buffers that hold the same level for every pin are the same buffer.
pub proof fn lemma_levels_fix_buffer(first: Seq<u8>, second: Seq<u8>)
    requires
        levels(first) == levels(second),
    ensures
        first == second,
{
    assert(8 * first.len() == levels(first).len() == levels(second).len() == 8 * second.len());
    assert forall|index: int| 0 <= index < first.len() implies first[index] == second[index] by {
        assert forall|bit: u8| bit < 8 implies bit_set(first[index], bit) == bit_set(
            second[index],
            bit,
        ) by {
            let pin = 8 * (first.len() - 1 - index) + bit;
            assert(levels(first)[pin] == bit_set(first[index], bit));
            assert(levels(second)[pin] == bit_set(second[index], bit));
        }
        lemma_bits_fix_byte(first[index], second[index]);
    }
    assert(first =~= second);
}

/// Trait to be implemented by chains that provide output pins.
pub trait SetOutput: Length + Sized {
    /// The level buffered for each output pin, pin 0 first.
    spec fn outputs(&self) -> Seq<bool>;

    /// A chain has eight output pins per chip.
    proof fn lemma_outputs_len(&self)
        ensures
            self.outputs().len() == 8 * self.chips(),
    ;

    /// Sets the output state for a pin.
    fn set_output(&mut self, pin: usize, state: bool) -> (result: Result<(), Error>)
        ensures
            pin < old(self).outputs().len() ==> result is Ok,
            result is Ok ==> final(self).outputs() == old(self).outputs().update(
                pin as int,
                state,
            ),
            result is Ok ==> final(self).chips() == old(self).chips(),
            pin >= old(self).outputs().len() ==> result == Err::<(), Error>(
                Error::PinOutOfRange,
            ),
            result is Err ==> *final(self) == *old(self),
    ;

    /// Sets the output state for a pin without pin boundary checks.
    fn set_output_unchecked(&mut self, pin: usize, state: bool)
        requires
            pin < old(self).outputs().len(),
        ensures
            final(self).outputs() == old(self).outputs().update(pin as int, state),
            final(self).chips() == old(self).chips(),
    ;
}

/// Chain of SIPO shift registers.
pub struct Chain<ClockPin, LatchPin, DataPin, const CHAIN_LENGTH: usize> {
    /// Pin for the clock output signal.
    clock_pin: ClockPin,
    /// Pin for the latch output signal.
    latch_pin: LatchPin,
    /// Pin for the data output signal.
    data_pin: DataPin,
    /// Buffer storing the data to output.
    data_buffer: [u8; CHAIN_LENGTH],
    /// Every step applied to the pins so far.
    journal: Ghost<Seq<Step>>,
}

impl<ClockPin, LatchPin, DataPin, const CHAIN_LENGTH: usize> View for Chain<
    ClockPin,
    LatchPin,
    DataPin,
    CHAIN_LENGTH,
> {
    type V = Seq<u8>;

    /// The buffer: one byte per chip, in the order in which they are shifted
    /// out.
    closed spec fn view(&self) -> Seq<u8> {
        self.data_buffer@
    }
}

impl<ClockPin, LatchPin, DataPin, const CHAIN_LENGTH: usize> Chain<
    ClockPin,
    LatchPin,
    DataPin,
    CHAIN_LENGTH,
> {
    /// The clock, latch and data pins that the chain owns.
    pub closed spec fn pins(&self) -> (ClockPin, LatchPin, DataPin) {
        (self.clock_pin, self.latch_pin, self.data_pin)
    }

    /// Every step that the chain has applied to its pins, the first one
    /// first. Each pin has its own record of what was done with it; the
    /// journal adds the order of the steps across the pins. The chain keeps
    /// it itself: it notes each step as it hands it to a pin.
    pub closed spec fn journal(&self) -> Seq<Step> {
        self.journal@
    }

    /// The buffer holds one byte per chip.
    pub proof fn lemma_len(&self)
        ensures
            self@.len() == CHAIN_LENGTH,
    {
    }
}

impl<ClockPin, LatchPin, DataPin, const CHAIN_LENGTH: usize> Chain<
    ClockPin,
    LatchPin,
    DataPin,
    CHAIN_LENGTH,
> where ClockPin: OutputLine, LatchPin: OutputLine, DataPin: OutputLine {
    /// Creates a new chain by consuming the pins.
    pub fn new(clock_pin: ClockPin, latch_pin: LatchPin, data_pin: DataPin) -> (chain: Self)
        ensures
            chain.pins() == (clock_pin, latch_pin, data_pin),
            chain@ == Seq::new(CHAIN_LENGTH as nat, |index: int| 0u8),
            chain.journal() == Seq::<Step>::empty(),
    {
        Self {
            clock_pin,
            latch_pin,
            data_pin,
            data_buffer: [0;CHAIN_LENGTH],
            journal: Ghost(Seq::empty()),
        }
    }

    /// Frees the chain and returns the pins.
    pub fn free(self) -> (pins: (ClockPin, LatchPin, DataPin))
        ensures
            pins == self.pins(),
    {
        (self.clock_pin, self.latch_pin, self.data_pin)
    }

    /// The buffer, one byte per chip.
    pub fn buffer(&self) -> (bytes: &[u8; CHAIN_LENGTH])
        ensures
            bytes@ == self@,
    {
        &self.data_buffer
    }

    /// Applies one step to the pin that it names and notes it in the journal.
    /// An output cycle has no step that reads.
    fn apply(&mut self, step: Step)
        requires
            !(step is Sample),
        ensures
            final(self)@ == old(self)@,
            final(self).journal() == old(self).journal().push(step),
            final(self).pins().0.driven() == (match step {
                Step::Clock(level) => old(self).pins().0.driven().push(level),
                _ => old(self).pins().0.driven(),
            }),
            final(self).pins().1.driven() == (match step {
                Step::Latch(level) => old(self).pins().1.driven().push(level),
                _ => old(self).pins().1.driven(),
            }),
            final(self).pins().2.driven() == (match step {
                Step::Data(level) => old(self).pins().2.driven().push(level),
                _ => old(self).pins().2.driven(),
            }),
    {
        match step {
            Step::Latch(level) => drive(&mut self.latch_pin, level),
            Step::Clock(level) => drive(&mut self.clock_pin, level),
            Step::Data(level) => drive(&mut self.data_pin, level),
            Step::Sample { .. } => {},
        }
        self.journal = Ghost(self.journal@.push(step));
    }

    /// Updates the chain by shifting the data from the buffer into the chips.
    ///
    /// The steps applied to the pins are those of [`cycle`] for
    /// [`Mode::Output`], in order: each pin is driven to the levels of its
    /// steps, and to no others. The buffer stays as it is.
    pub fn update(&mut self)
        ensures
            final(self)@ == old(self)@,
            final(self).journal() == old(self).journal() + cycle(Mode::Output, old(self)@),
            final(self).pins().0.driven() == old(self).pins().0.driven() + clock_levels(
                cycle(Mode::Output, old(self)@),
            ),
            final(self).pins().1.driven() == old(self).pins().1.driven() + latch_levels(
                cycle(Mode::Output, old(self)@),
            ),
            final(self).pins().2.driven() == old(self).pins().2.driven() + data_levels(
                cycle(Mode::Output, old(self)@),
            ),
    {
        let ghost steps = cycle(Mode::Output, self@);
        let mut cursor = Cursor::start(Mode::Output);
        proof {
            assert(steps.take(0) =~= Seq::<Step>::empty());
            assert(self.journal() + steps.take(0) =~= self.journal());
            assert(self.pins().0.driven() + clock_levels(steps.take(0)) =~= self.pins().0.driven());
            assert(self.pins().1.driven() + latch_levels(steps.take(0)) =~= self.pins().1.driven());
            assert(self.pins().2.driven() + data_levels(steps.take(0)) =~= self.pins().2.driven());
        }
        loop
            invariant
                cursor.mode() == Mode::Output,
                0 <= cursor.index() <= steps.len(),
                self@ == old(self)@,
                steps == cycle(Mode::Output, self@),
                self.journal() == old(self).journal() + steps.take(cursor.index()),
                self.pins().0.driven() == old(self).pins().0.driven() + clock_levels(
                    steps.take(cursor.index()),
                ),
                self.pins().1.driven() == old(self).pins().1.driven() + latch_levels(
                    steps.take(cursor.index()),
                ),
                self.pins().2.driven() == old(self).pins().2.driven() + data_levels(
                    steps.take(cursor.index()),
                ),
            ensures
                self@ == old(self)@,
                self.journal() == old(self).journal() + steps,
                self.pins().0.driven() == old(self).pins().0.driven() + clock_levels(steps),
                self.pins().1.driven() == old(self).pins().1.driven() + latch_levels(steps),
                self.pins().2.driven() == old(self).pins().2.driven() + data_levels(steps),
            decreases steps.len() - cursor.index(),
        {
            let ghost taken = cursor.index();
            let ghost before = steps.take(taken);
            proof {
                if taken < steps.len() {
                    lemma_samples(Mode::Output, self@, taken);
                }
            }
            match cursor.next(&self.data_buffer) {
                Some(step) => {
                    self.apply(step);
                    proof {
                        assert(steps.take(taken + 1) =~= before.push(step));
                        lemma_levels_push(before, step);
                        assert(self.journal() =~= old(self).journal() + before.push(step));
                        assert(self.pins().0.driven() =~= old(self).pins().0.driven()
                            + clock_levels(before.push(step)));
                        assert(self.pins().1.driven() =~= old(self).pins().1.driven()
                            + latch_levels(before.push(step)));
                        assert(self.pins().2.driven() =~= old(self).pins().2.driven()
                            + data_levels(before.push(step)));
                    }
                },
                None => {
                    assert(before =~= steps);
                    break ;
                },
            }
        }
    }
}

impl<ClockPin, LatchPin, DataPin, const CHAIN_LENGTH: usize> SetOutput for Chain<
    ClockPin,
    LatchPin,
    DataPin,
    CHAIN_LENGTH,
> {
    open spec fn outputs(&self) -> Seq<bool> {
        levels(self@)
    }

    proof fn lemma_outputs_len(&self) {
    }

    /// Sets the output state for a pin.
    ///
    /// The output state is buffered and not set immediately because the bits
    /// have to be shifted out by calling `update()` first.
    fn set_output(&mut self, pin: usize, state: bool) -> (result: Result<(), Error>)
        ensures
            result is Ok <==> pin < 8 * CHAIN_LENGTH,
            result is Ok ==> final(self)@ == written(old(self)@, pin as int, state),
            final(self).pins() == old(self).pins(),
            final(self).journal() == old(self).journal(),
    {
        if pin / 8 >= CHAIN_LENGTH {
            return Err(Error::PinOutOfRange);
        }
        self.set_output_unchecked(pin, state);

        Ok(())
    }

    /// Sets the output state for a pin without pin boundary checks.
    ///
    /// The output state is buffered and not set immediately because the bits
    /// have to be shifted out by calling `update()` first.
    fn set_output_unchecked(&mut self, pin: usize, state: bool)
        ensures
            final(self)@ == written(old(self)@, pin as int, state),
            final(self).pins() == old(self).pins(),
            final(self).journal() == old(self).journal(),
    {
        // Calculate index and bit position within buffer array
        let index: usize = CHAIN_LENGTH - (pin / 8) - 1;
        let bit: u8 = (pin % 8) as u8;

        self.data_buffer[index] = assign_bit(self.data_buffer[index], bit, state);
        proof {
            lemma_written(old(self)@, pin as int, state);
        }
    }
}

impl<ClockPin, LatchPin, DataPin, const CHAIN_LENGTH: usize> Length for Chain<
    ClockPin,
    LatchPin,
    DataPin,
    CHAIN_LENGTH,
> {
    open spec fn chips(&self) -> nat {
        CHAIN_LENGTH as nat
    }

    /// Returns the chain length.
    fn len(&self) -> (count: usize) {
        CHAIN_LENGTH
    }
}

/// Output pin of a chip in the chain.
///
/// The handle holds the pin number and no reference: each operation takes
/// the chain, so any number of handles can serve one chain.
pub struct Pin<Chain> {
    /// Pin number of the output in the chain.
    pin: usize,
    chain: PhantomData<Chain>,
}

impl<Chain> Pin<Chain> where Chain: SetOutput + Length {
    /// Pin number of the output in the chain.
    pub closed spec fn index(&self) -> usize {
        self.pin
    }

    /// Creates a new output pin.
    pub fn new(chain: &Chain, pin: usize) -> (result: Result<Self, Error>)
        ensures
            match result {
                Ok(handle) => pin < 8 * chain.chips() && handle.index() == pin,
                Err(error) => pin >= 8 * chain.chips() && error == Error::PinOutOfRange,
            },
    {
        if pin / 8 >= chain.len() {
            return Err(Error::PinOutOfRange);
        }
        Ok(Self { pin, chain: PhantomData })
    }

    /// Buffers a low level for the pin in `chain`.
    pub fn set_low(&self, chain: &mut Chain) -> (result: Result<(), Error>)
        ensures
            self.index() < old(chain).outputs().len() ==> result is Ok,
            result is Ok ==> final(chain).outputs() == old(chain).outputs().update(
                self.index() as int,
                false,
            ),
            result is Ok ==> final(chain).chips() == old(chain).chips(),
            self.index() >= old(chain).outputs().len() ==> result == Err::<(), Error>(
                Error::PinOutOfRange,
            ),
            result is Err ==> *final(chain) == *old(chain),
    {
        chain.set_output(self.pin, false)
    }

    /// Buffers a high level for the pin in `chain`.
    pub fn set_high(&self, chain: &mut Chain) -> (result: Result<(), Error>)
        ensures
            self.index() < old(chain).outputs().len() ==> result is Ok,
            result is Ok ==> final(chain).outputs() == old(chain).outputs().update(
                self.index() as int,
                true,
            ),
            result is Ok ==> final(chain).chips() == old(chain).chips(),
            self.index() >= old(chain).outputs().len() ==> result == Err::<(), Error>(
                Error::PinOutOfRange,
            ),
            result is Err ==> *final(chain) == *old(chain),
    {
        chain.set_output(self.pin, true)
    }
}

} // verus!
