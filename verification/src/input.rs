//! Single chain of 8-bit PISO shift registers (e.g. 74HC165) for digital input

use core::marker::PhantomData;
use vstd::prelude::*;

use crate::bits::{assign_bit, bit_set, lemma_bits_fix_byte, test_bit, with_bit};
use crate::cycle::{
    clock_levels, cycle, latch_levels, lemma_input_cycle, lemma_levels_push, lemma_samples,
    Cursor, Mode, Step,
};
use crate::line::{drive, InputLine, OutputLine};
use crate::reading::{absorbed, lemma_absorbed, lemma_push, lemma_reads, reads, serial};
use crate::{Error, Length};

verus! {

/// The level that a buffer holds for each input pin, pin 0 first: the pins of
/// chip `c` are the bits of byte `c`.
pub open spec fn levels(buffer: Seq<u8>) -> Seq<bool> {
    Seq::new(8 * buffer.len(), |pin: int| bit_set(buffer[pin / 8], (pin % 8) as u8))
}

/// The buffer after `level` is stored as bit `bit` of byte `byte`.
pub open spec fn stored(buffer: Seq<u8>, byte: int, bit: u8, level: bool) -> Seq<u8> {
    buffer.update(byte, with_bit(buffer[byte], bit, level))
}

/// Two buffers that hold the same level for every pin are the same buffer.
pub proof fn lemma_levels_fix_buffer(first: Seq<u8>, second: Seq<u8>)
    requires
        levels(first) == levels(second),
    ensures
        first == second,
{
    assert(8 * first.len() == levels(first).len() == levels(second).len() == 8 * second.len());
    assert forall|index: int| 0 <= index < first.len() implies first[index] == second[index] by {
        assert forall|bit: u8| bit < 8 implies bit_set(first[index], bit) == bit_set(
            second[index],
            bit,
        ) by {
            let pin = 8 * index + bit;
            assert(levels(first)[pin] == bit_set(first[index], bit));
            assert(levels(second)[pin] == bit_set(second[index], bit));
        }
        lemma_bits_fix_byte(first[index], second[index]);
    }
    assert(first =~= second);
}

/// Trait to be implemented by chains that provide input pins.
pub trait GetInput: Length {
    /// The level buffered for each input pin, pin 0 first.
    spec fn inputs(&self) -> Seq<bool>;

    /// A chain has eight input pins per chip.
    proof fn lemma_inputs_len(&self)
        ensures
            self.inputs().len() == 8 * self.chips(),
    ;

    /// Returns the input state for a pin.
    fn get_input(&self, pin: usize) -> (result: Result<bool, Error>)
        ensures
            result == (if pin < self.inputs().len() {
                Ok::<bool, Error>(self.inputs()[pin as int])
            } else {
                Err::<bool, Error>(Error::PinOutOfRange)
            }),
    ;

    /// Returns the input state for a pin without pin boundary checks.
    fn get_input_unchecked(&self, pin: usize) -> (level: bool)
        requires
            pin < self.inputs().len(),
        ensures
            level == self.inputs()[pin as int],
    ;
}

/// Chain of PISO shift registers.
pub struct Chain<ClockPin, LatchPin, DataPin, const CHAIN_LENGTH: usize> {
    /// Pin for the clock output signal.
    clock_pin: ClockPin,
    /// Pin for the latch output signal.
    latch_pin: LatchPin,
    /// Pin for the data input signal.
    data_pin: DataPin,
    /// Buffer storing the data read from pins.
    data_buffer: [u8; CHAIN_LENGTH],
    /// Every step applied to the pins so far.
    journal: Ghost<Seq<Step>>,
}

impl<ClockPin, LatchPin, DataPin, const CHAIN_LENGTH: usize> View for Chain<
    ClockPin,
    LatchPin,
    DataPin,
    CHAIN_LENGTH,
> {
    type V = Seq<u8>;

    /// The buffer: one byte per chip, in the order in which they are shifted
    /// in.
    closed spec fn view(&self) -> Seq<u8> {
        self.data_buffer@
    }
}

impl<ClockPin, LatchPin, DataPin, const CHAIN_LENGTH: usize> Chain<
    ClockPin,
    LatchPin,
    DataPin,
    CHAIN_LENGTH,
> {
    /// The clock, latch and data pins that the chain owns.
    pub closed spec fn pins(&self) -> (ClockPin, LatchPin, DataPin) {
        (self.clock_pin, self.latch_pin, self.data_pin)
    }

    /// Every step that the chain has applied to its pins, the first one
    /// first. Each pin has its own record of what was done with it; the
    /// journal adds the order of the steps across the pins. The chain keeps
    /// it itself: it notes each step as it hands it to a pin.
    pub closed spec fn journal(&self) -> Seq<Step> {
        self.journal@
    }

    /// The buffer holds one byte per chip.
    pub proof fn lemma_len(&self)
        ensures
            self@.len() == CHAIN_LENGTH,
    {
    }
}

impl<ClockPin, LatchPin, DataPin, const CHAIN_LENGTH: usize> Chain<
    ClockPin,
    LatchPin,
    DataPin,
    CHAIN_LENGTH,
> where ClockPin: OutputLine, LatchPin: OutputLine, DataPin: InputLine {
    /// Every level that has been read from the data pin, the first one
    /// first.
    pub open spec fn readings(&self) -> Seq<bool> {
        self.pins().2.sampled()
    }

    /// Creates a new chain by consuming the pins.
    pub fn new(clock_pin: ClockPin, latch_pin: LatchPin, data_pin: DataPin) -> (chain: Self)
        ensures
            chain.pins() == (clock_pin, latch_pin, data_pin),
            chain@ == Seq::new(CHAIN_LENGTH as nat, |index: int| 0u8),
            chain.journal() == Seq::<Step>::empty(),
    {
        Self {
            clock_pin,
            latch_pin,
            data_pin,
            data_buffer: [0;CHAIN_LENGTH],
            journal: Ghost(Seq::empty()),
        }
    }

    /// Frees the chain and returns the pins.
    pub fn free(self) -> (pins: (ClockPin, LatchPin, DataPin))
        ensures
            pins == self.pins(),
    {
        (self.clock_pin, self.latch_pin, self.data_pin)
    }

    /// The buffer, one byte per chip.
    pub fn buffer(&self) -> (bytes: &[u8; CHAIN_LENGTH])
        ensures
            bytes@ == self@,
    {
        &self.data_buffer
    }

    /// Applies one step to the pin that it names and notes it in the
    /// journal. A step that reads stores the level of the data pin in the bit
    /// that it names. An input cycle has no step that drives the data line.
    fn apply(&mut self, step: Step)
        requires
            !(step is Data),
            step matches Step::Sample { byte, bit } ==> byte < CHAIN_LENGTH && bit < 8,
        ensures
            final(self).journal() == old(self).journal().push(step),
            final(self).pins().0.driven() == (match step {
                Step::Clock(level) => old(self).pins().0.driven().push(level),
                _ => old(self).pins().0.driven(),
            }),
            final(self).pins().1.driven() == (match step {
                Step::Latch(level) => old(self).pins().1.driven().push(level),
                _ => old(self).pins().1.driven(),
            }),
            match step {
                Step::Sample { byte, bit } => {
                    &&& final(self).readings().len() == old(self).readings().len() + 1
                    &&& final(self).readings().drop_last() == old(self).readings()
                    &&& final(self)@ == stored(
                        old(self)@,
                        byte as int,
                        bit,
                        final(self).readings().last(),
                    )
                },
                _ => final(self).readings() == old(self).readings() && final(self)@ == old(
                    self,
                )@,
            },
    {
        match step {
            Step::Latch(level) => drive(&mut self.latch_pin, level),
            Step::Clock(level) => drive(&mut self.clock_pin, level),
            Step::Sample { byte, bit } => {
                let level = self.data_pin.is_high();
                self.data_buffer[byte] = assign_bit(self.data_buffer[byte], bit, level);
                assert(self.readings().drop_last() =~= old(self).readings());
            },
            Step::Data(_) => {},
        }
        self.journal = Ghost(self.journal@.push(step));
    }

    /// Updates the chain by shifting the data from the chips into the buffer.
    ///
    /// The steps applied to the pins are those of [`cycle`] for
    /// [`Mode::Input`], in order: the clock and the latch pin are driven to
    /// the levels of their steps, and to no others, and the data pin is read
    /// once for each pin of the chain. The buffer then holds for each pin the
    /// level read for it: the levels arrive in the order that [`serial`]
    /// describes.
    pub fn update(&mut self)
        ensures
            final(self).journal() == old(self).journal() + cycle(Mode::Input, old(self)@),
            final(self).pins().0.driven() == old(self).pins().0.driven() + clock_levels(
                cycle(Mode::Input, old(self)@),
            ),
            final(self).pins().1.driven() == old(self).pins().1.driven() + latch_levels(
                cycle(Mode::Input, old(self)@),
            ),
            final(self).readings().len() == old(self).readings().len() + 8 * CHAIN_LENGTH,
            final(self).readings().take(old(self).readings().len() as int) == old(
                self,
            ).readings(),
            levels(final(self)@) == serial(
                final(self).readings().skip(old(self).readings().len() as int),
            ),
    {
        let ghost steps = cycle(Mode::Input, self@);
        let ghost start = self.readings().len() as int;
        let mut cursor = Cursor::start(Mode::Input);
        proof {
            assert(steps.take(0) =~= Seq::<Step>::empty());
            assert(self.journal() + steps.take(0) =~= self.journal());
            assert(self.pins().0.driven() + clock_levels(steps.take(0)) =~= self.pins().0.driven());
            assert(self.pins().1.driven() + latch_levels(steps.take(0)) =~= self.pins().1.driven());
            assert(self.readings().take(start) =~= self.readings());
            assert(self.readings().skip(start) =~= Seq::<bool>::empty());
        }
        loop
            invariant
                cursor.mode() == Mode::Input,
                0 <= cursor.index() <= steps.len(),
                steps == cycle(Mode::Input, old(self)@),
                start == old(self).readings().len(),
                self.journal() == old(self).journal() + steps.take(cursor.index()),
                self.pins().0.driven() == old(self).pins().0.driven() + clock_levels(
                    steps.take(cursor.index()),
                ),
                self.pins().1.driven() == old(self).pins().1.driven() + latch_levels(
                    steps.take(cursor.index()),
                ),
                self.readings().len() == start + reads(steps.take(cursor.index())),
                self.readings().take(start) == old(self).readings(),
                self@ == absorbed(
                    old(self)@,
                    steps.take(cursor.index()),
                    self.readings().skip(start),
                ),
            ensures
                self.journal() == old(self).journal() + steps,
                self.pins().0.driven() == old(self).pins().0.driven() + clock_levels(steps),
                self.pins().1.driven() == old(self).pins().1.driven() + latch_levels(steps),
                self.readings().len() == start + reads(steps),
                self.readings().take(start) == old(self).readings(),
                self@ == absorbed(old(self)@, steps, self.readings().skip(start)),
            decreases steps.len() - cursor.index(),
        {
            let ghost taken = cursor.index();
            let ghost before = steps.take(taken);
            let ghost earlier = self.readings().skip(start);
            proof {
                lemma_input_cycle(self@, old(self)@);
                if taken < steps.len() {
                    lemma_samples(Mode::Input, old(self)@, taken);
                }
            }
            match cursor.next(&self.data_buffer) {
                Some(step) => {
                    self.apply(step);
                    proof {
                        let later = self.readings().skip(start);
                        assert(steps.take(taken + 1) =~= before.push(step));
                        lemma_levels_push(before, step);
                        lemma_push(old(self)@, before, step, later);
                        assert(self.journal() =~= old(self).journal() + before.push(step));
                        assert(self.pins().0.driven() =~= old(self).pins().0.driven()
                            + clock_levels(before.push(step)));
                        assert(self.pins().1.driven() =~= old(self).pins().1.driven()
                            + latch_levels(before.push(step)));
                        assert(self.readings().take(start) =~= old(self).readings());
                        if step is Sample {
                            assert(later.drop_last() =~= earlier);
                        } else {
                            assert(later =~= earlier);
                        }
                    }
                },
                None => {
                    assert(before =~= steps);
                    break ;
                },
            }
        }
        proof {
            lemma_reads(Mode::Input, old(self)@);
            lemma_absorbed(old(self)@, Mode::Input, old(self)@, self.readings().skip(start));
        }
    }
}

impl<ClockPin, LatchPin, DataPin, const CHAIN_LENGTH: usize> GetInput for Chain<
    ClockPin,
    LatchPin,
    DataPin,
    CHAIN_LENGTH,
> {
    open spec fn inputs(&self) -> Seq<bool> {
        levels(self@)
    }

    proof fn lemma_inputs_len(&self) {
    }

    /// Returns the input state for a pin.
    ///
    /// The state is buffered and not read immediately because the bits
    /// have to be shifted in by calling `update()` first.
    fn get_input(&self, pin: usize) -> (result: Result<bool, Error>)
        ensures
            result is Ok <==> pin < 8 * CHAIN_LENGTH,
    {
        if pin / 8 >= CHAIN_LENGTH {
            return Err(Error::PinOutOfRange);
        }
        Ok(self.get_input_unchecked(pin))
    }

    /// Returns the input state for a pin without pin boundary checks.
    ///
    /// The state is buffered and not read immediately because the bits
    /// have to be shifted in by calling `update()` first.
    fn get_input_unchecked(&self, pin: usize) -> (level: bool) {
        // Calculate index and bit position within buffer array
        let index: usize = pin / 8;
        let bit: u8 = (pin % 8) as u8;

        test_bit(self.data_buffer[index], bit)
    }
}

impl<ClockPin, LatchPin, DataPin, const CHAIN_LENGTH: usize> Length for Chain<
    ClockPin,
    LatchPin,
    DataPin,
    CHAIN_LENGTH,
> {
    open spec fn chips(&self) -> nat {
        CHAIN_LENGTH as nat
    }

    /// Returns the chain length.
    fn len(&self) -> (count: usize) {
        CHAIN_LENGTH
    }
}

/// Input pin of a chip in the chain.
///
/// The handle holds the pin number and no reference: each operation takes
/// the chain, so any number of handles can serve one chain.
pub struct Pin<Chain> {
    /// Pin number of the input in the chain.
    pin: usize,
    chain: PhantomData<Chain>,
}

impl<Chain> Pin<Chain> where Chain: GetInput + Length {
    /// Pin number of the input in the chain.
    pub closed spec fn index(&self) -> usize {
        self.pin
    }

    /// Creates a new input pin.
    pub fn new(chain: &Chain, pin: usize) -> (result: Result<Self, Error>)
        ensures
            match result {
                Ok(handle) => pin < 8 * chain.chips() && handle.index() == pin,
                Err(error) => pin >= 8 * chain.chips() && error == Error::PinOutOfRange,
            },
    {
        if pin / 8 >= chain.len() {
            return Err(Error::PinOutOfRange);
        }
        Ok(Self { pin, chain: PhantomData })
    }

    /// Whether the level buffered for the pin in `chain` is high.
    pub fn is_high(&self, chain: &Chain) -> (result: Result<bool, Error>)
        ensures
            result == (if self.index() < chain.inputs().len() {
                Ok::<bool, Error>(chain.inputs()[self.index() as int])
            } else {
                Err::<bool, Error>(Error::PinOutOfRange)
            }),
    {
        chain.get_input(self.pin)
    }

    /// Whether the level buffered for the pin in `chain` is low.
    pub fn is_low(&self, chain: &Chain) -> (result: Result<bool, Error>)
        ensures
            result == (if self.index() < chain.inputs().len() {
                Ok::<bool, Error>(!chain.inputs()[self.index() as int])
            } else {
                Err::<bool, Error>(Error::PinOutOfRange)
            }),
    {
        match chain.get_input(self.pin) {
            Ok(level) => Ok(!level),
            Err(error) => Err(error),
        }
    }
}

} // verus!
