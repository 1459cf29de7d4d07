//! Dual chain of 8-bit PISO & SIPO shift registers (e.g. 74HC165/74HC595) for digital input
//! and output on one clock and one latch line

use vstd::prelude::*;

use crate::bits::{assign_bit, test_bit};
use crate::cycle::{
    clock_levels, cycle, data_levels, latch_levels, lemma_levels_push, lemma_samples, Cursor, Mode,
    Step,
};
use crate::input::{stored, GetInput};
use crate::line::{drive, InputLine, OutputLine};
use crate::reading::{absorbed, lemma_absorbed, lemma_push, lemma_reads, reads, serial};
use crate::output::{lemma_written, written, SetOutput};
use crate::{Error, Length};

verus! {

/// Dual chain of SIPO/PISO shift registers.
pub struct DualChain<ClockPin, LatchPin, DataInPin, DataOutPin, const CHAIN_LENGTH: usize> {
    /// Pin for the clock output signal.
    clock_pin: ClockPin,
    /// Pin for the latch output signal.
    latch_pin: LatchPin,
    /// Pin for the data input signal.
    data_in_pin: DataInPin,
    /// Pin for the data output signal.
    data_out_pin: DataOutPin,
    /// Buffer storing the data read from pins.
    data_in_buffer: [u8; CHAIN_LENGTH],
    /// Buffer storing the data to output.
    data_out_buffer: [u8; CHAIN_LENGTH],
    /// Every step applied to the pins so far.
    journal: Ghost<Seq<Step>>,
}

impl<ClockPin, LatchPin, DataInPin, DataOutPin, const CHAIN_LENGTH: usize> DualChain<
    ClockPin,
    LatchPin,
    DataInPin,
    DataOutPin,
    CHAIN_LENGTH,
> {
    /// The clock, latch, data-in and data-out pins that the chain owns.
    pub closed spec fn pins(&self) -> (ClockPin, LatchPin, DataInPin, DataOutPin) {
        (self.clock_pin, self.latch_pin, self.data_in_pin, self.data_out_pin)
    }

    /// The input buffer: one byte per chip, in the order in which they are
    /// shifted in.
    pub closed spec fn in_bytes(&self) -> Seq<u8> {
        self.data_in_buffer@
    }

    /// The output buffer: one byte per chip, in the order in which they are
    /// shifted out.
    pub closed spec fn out_bytes(&self) -> Seq<u8> {
        self.data_out_buffer@
    }

    /// Every step that the chain has applied to its pins, the first one
    /// first. Each pin has its own record of what was done with it; the
    /// journal adds the order of the steps across the pins. The chain keeps
    /// it itself: it notes each step as it hands it to a pin.
    pub closed spec fn journal(&self) -> Seq<Step> {
        self.journal@
    }

    /// Each buffer holds one byte per chip.
    pub proof fn lemma_len(&self)
        ensures
            self.in_bytes().len() == CHAIN_LENGTH,
            self.out_bytes().len() == CHAIN_LENGTH,
    {
    }
}

impl<ClockPin, LatchPin, DataInPin, DataOutPin, const CHAIN_LENGTH: usize> DualChain<
    ClockPin,
    LatchPin,
    DataInPin,
    DataOutPin,
    CHAIN_LENGTH,
> where ClockPin: OutputLine, LatchPin: OutputLine, DataInPin: InputLine, DataOutPin: OutputLine {
    /// Every level that has been read from the data-in pin, the first one
    /// first.
    pub open spec fn readings(&self) -> Seq<bool> {
        self.pins().2.sampled()
    }

    /// Creates a new chain by consuming the pins.
    pub fn new(
        clock_pin: ClockPin,
        latch_pin: LatchPin,
        data_in_pin: DataInPin,
        data_out_pin: DataOutPin,
    ) -> (chain: Self)
        ensures
            chain.pins() == (clock_pin, latch_pin, data_in_pin, data_out_pin),
            chain.in_bytes() == Seq::new(CHAIN_LENGTH as nat, |index: int| 0u8),
            chain.out_bytes() == Seq::new(CHAIN_LENGTH as nat, |index: int| 0u8),
            chain.journal() == Seq::<Step>::empty(),
    {
        Self {
            clock_pin,
            latch_pin,
            data_in_pin,
            data_out_pin,
            data_in_buffer: [0;CHAIN_LENGTH],
            data_out_buffer: [0;CHAIN_LENGTH],
            journal: Ghost(Seq::empty()),
        }
    }

    /// Frees the chain and returns the pins.
    pub fn free(self) -> (pins: (ClockPin, LatchPin, DataInPin, DataOutPin))
        ensures
            pins == self.pins(),
    {
        (self.clock_pin, self.latch_pin, self.data_in_pin, self.data_out_pin)
    }

    /// The input buffer, one byte per chip.
    pub fn input_buffer(&self) -> (bytes: &[u8; CHAIN_LENGTH])
        ensures
            bytes@ == self.in_bytes(),
    {
        &self.data_in_buffer
    }

    /// The output buffer, one byte per chip.
    pub fn output_buffer(&self) -> (bytes: &[u8; CHAIN_LENGTH])
        ensures
            bytes@ == self.out_bytes(),
    {
        &self.data_out_buffer
    }

    /// Applies one step to the pin that it names and notes it in the
    /// journal. A step that reads stores the level of the data-in pin in the
    /// bit of the input buffer that it names.
    fn apply(&mut self, step: Step)
        requires
            step matches Step::Sample { byte, bit } ==> byte < CHAIN_LENGTH && bit < 8,
        ensures
            final(self).journal() == old(self).journal().push(step),
            final(self).out_bytes() == old(self).out_bytes(),
            final(self).pins().0.driven() == (match step {
                Step::Clock(level) => old(self).pins().0.driven().push(level),
                _ => old(self).pins().0.driven(),
            }),
            final(self).pins().1.driven() == (match step {
                Step::Latch(level) => old(self).pins().1.driven().push(level),
                _ => old(self).pins().1.driven(),
            }),
            final(self).pins().3.driven() == (match step {
                Step::Data(level) => old(self).pins().3.driven().push(level),
                _ => old(self).pins().3.driven(),
            }),
            match step {
                Step::Sample { byte, bit } => {
                    &&& final(self).readings().len() == old(self).readings().len() + 1
                    &&& final(self).readings().drop_last() == old(self).readings()
                    &&& final(self).in_bytes() == stored(
                        old(self).in_bytes(),
                        byte as int,
                        bit,
                        final(self).readings().last(),
                    )
                },
                _ => final(self).readings() == old(self).readings() && final(self).in_bytes()
                    == old(self).in_bytes(),
            },
    {
        match step {
            Step::Latch(level) => drive(&mut self.latch_pin, level),
            Step::Clock(level) => drive(&mut self.clock_pin, level),
            Step::Sample { byte, bit } => {
                let level = self.data_in_pin.is_high();
                self.data_in_buffer[byte] = assign_bit(self.data_in_buffer[byte], bit, level);
                assert(self.readings().drop_last() =~= old(self).readings());
            },
            Step::Data(level) => drive(&mut self.data_out_pin, level),
        }
        self.journal = Ghost(self.journal@.push(step));
    }

    /// Updates the chain inputs and outputs simultaneously by shifting
    /// the data from and to the buffers.
    ///
    /// The steps applied to the pins are those of [`cycle`] for
    /// [`Mode::Dual`] and the output buffer, in order: the clock, the latch
    /// and the data-out pin are driven to the levels of their steps, and to
    /// no others, and the data-in pin is read once for each input pin. The
    /// output buffer stays as it is. The input buffer then holds for each
    /// pin the level read for it: the levels arrive in the order that
    /// [`serial`] describes.
    pub fn update(&mut self)
        ensures
            final(self).out_bytes() == old(self).out_bytes(),
            final(self).journal() == old(self).journal() + cycle(
                Mode::Dual,
                old(self).out_bytes(),
            ),
            final(self).pins().0.driven() == old(self).pins().0.driven() + clock_levels(
                cycle(Mode::Dual, old(self).out_bytes()),
            ),
            final(self).pins().1.driven() == old(self).pins().1.driven() + latch_levels(
                cycle(Mode::Dual, old(self).out_bytes()),
            ),
            final(self).pins().3.driven() == old(self).pins().3.driven() + data_levels(
                cycle(Mode::Dual, old(self).out_bytes()),
            ),
            final(self).readings().len() == old(self).readings().len() + 8 * CHAIN_LENGTH,
            final(self).readings().take(old(self).readings().len() as int) == old(
                self,
            ).readings(),
            crate::input::levels(final(self).in_bytes()) == serial(
                final(self).readings().skip(old(self).readings().len() as int),
            ),
    {
        let ghost steps = cycle(Mode::Dual, self.out_bytes());
        let ghost start = self.readings().len() as int;
        let mut cursor = Cursor::start(Mode::Dual);
        proof {
            assert(steps.take(0) =~= Seq::<Step>::empty());
            assert(self.journal() + steps.take(0) =~= self.journal());
            assert(self.pins().0.driven() + clock_levels(steps.take(0)) =~= self.pins().0.driven());
            assert(self.pins().1.driven() + latch_levels(steps.take(0)) =~= self.pins().1.driven());
            assert(self.pins().3.driven() + data_levels(steps.take(0)) =~= self.pins().3.driven());
            assert(self.readings().take(start) =~= self.readings());
            assert(self.readings().skip(start) =~= Seq::<bool>::empty());
        }
        loop
            invariant
                cursor.mode() == Mode::Dual,
                0 <= cursor.index() <= steps.len(),
                steps == cycle(Mode::Dual, old(self).out_bytes()),
                start == old(self).readings().len(),
                self.out_bytes() == old(self).out_bytes(),
                self.journal() == old(self).journal() + steps.take(cursor.index()),
                self.pins().0.driven() == old(self).pins().0.driven() + clock_levels(
                    steps.take(cursor.index()),
                ),
                self.pins().1.driven() == old(self).pins().1.driven() + latch_levels(
                    steps.take(cursor.index()),
                ),
                self.pins().3.driven() == old(self).pins().3.driven() + data_levels(
                    steps.take(cursor.index()),
                ),
                self.readings().len() == start + reads(steps.take(cursor.index())),
                self.readings().take(start) == old(self).readings(),
                self.in_bytes() == absorbed(
                    old(self).in_bytes(),
                    steps.take(cursor.index()),
                    self.readings().skip(start),
                ),
            ensures
                self.out_bytes() == old(self).out_bytes(),
                self.journal() == old(self).journal() + steps,
                self.pins().0.driven() == old(self).pins().0.driven() + clock_levels(steps),
                self.pins().1.driven() == old(self).pins().1.driven() + latch_levels(steps),
                self.pins().3.driven() == old(self).pins().3.driven() + data_levels(steps),
                self.readings().len() == start + reads(steps),
                self.readings().take(start) == old(self).readings(),
                self.in_bytes() == absorbed(
                    old(self).in_bytes(),
                    steps,
                    self.readings().skip(start),
                ),
            decreases steps.len() - cursor.index(),
        {
            let ghost taken = cursor.index();
            let ghost before = steps.take(taken);
            let ghost earlier = self.readings().skip(start);
            proof {
                if taken < steps.len() {
                    lemma_samples(Mode::Dual, self.out_bytes(), taken);
                }
            }
            match cursor.next(&self.data_out_buffer) {
                Some(step) => {
                    self.apply(step);
                    proof {
                        let later = self.readings().skip(start);
                        assert(steps.take(taken + 1) =~= before.push(step));
                        lemma_levels_push(before, step);
                        lemma_push(old(self).in_bytes(), before, step, later);
                        assert(self.journal() =~= old(self).journal() + before.push(step));
                        assert(self.pins().0.driven() =~= old(self).pins().0.driven()
                            + clock_levels(before.push(step)));
                        assert(self.pins().1.driven() =~= old(self).pins().1.driven()
                            + latch_levels(before.push(step)));
                        assert(self.pins().3.driven() =~= old(self).pins().3.driven()
                            + data_levels(before.push(step)));
                        assert(self.readings().take(start) =~= old(self).readings());
                        if step is Sample {
                            assert(later.drop_last() =~= earlier);
                        } else {
                            assert(later =~= earlier);
                        }
                    }
                },
                None => {
                    assert(before =~= steps);
                    break ;
                },
            }
        }
        proof {
            lemma_reads(Mode::Dual, old(self).out_bytes());
            lemma_absorbed(
                old(self).in_bytes(),
                Mode::Dual,
                old(self).out_bytes(),
                self.readings().skip(start),
            );
        }
    }
}

impl<ClockPin, LatchPin, DataInPin, DataOutPin, const CHAIN_LENGTH: usize> GetInput for DualChain<
    ClockPin,
    LatchPin,
    DataInPin,
    DataOutPin,
    CHAIN_LENGTH,
> {
    open spec fn inputs(&self) -> Seq<bool> {
        crate::input::levels(self.in_bytes())
    }

    proof fn lemma_inputs_len(&self) {
    }

    /// Returns the input state for a pin.
    ///
    /// The state is buffered and not read immediately because the bits
    /// have to be shifted in by calling `update()` first.
    fn get_input(&self, pin: usize) -> (result: Result<bool, Error>)
        ensures
            result is Ok <==> pin < 8 * CHAIN_LENGTH,
    {
        if pin / 8 >= CHAIN_LENGTH {
            return Err(Error::PinOutOfRange);
        }
        Ok(self.get_input_unchecked(pin))
    }

    /// Return the input state for a pin without pin boundary checks.
    ///
    /// The state is buffered and not read immediately because the bits
    /// have to be shifted in by calling `update()` first.
    fn get_input_unchecked(&self, pin: usize) -> (level: bool) {
        // Calculate index and bit position within buffer array
        let index: usize = pin / 8;
        let bit: u8 = (pin % 8) as u8;

        test_bit(self.data_in_buffer[index], bit)
    }
}

impl<ClockPin, LatchPin, DataInPin, DataOutPin, const CHAIN_LENGTH: usize> SetOutput for DualChain<
    ClockPin,
    LatchPin,
    DataInPin,
    DataOutPin,
    CHAIN_LENGTH,
> {
    open spec fn outputs(&self) -> Seq<bool> {
        crate::output::levels(self.out_bytes())
    }

    proof fn lemma_outputs_len(&self) {
    }

    /// Sets the output state for a pin.
    ///
    /// The output state is buffered and not set immediately because the bits
    /// have to be shifted out by calling `update()` first.
    fn set_output(&mut self, pin: usize, state: bool) -> (result: Result<(), Error>)
        ensures
            result is Ok <==> pin < 8 * CHAIN_LENGTH,
            result is Ok ==> final(self).out_bytes() == written(
                old(self).out_bytes(),
                pin as int,
                state,
            ),
            final(self).in_bytes() == old(self).in_bytes(),
            final(self).pins() == old(self).pins(),
            final(self).journal() == old(self).journal(),
    {
        if pin / 8 >= CHAIN_LENGTH {
            return Err(Error::PinOutOfRange);
        }
        self.set_output_unchecked(pin, state);

        Ok(())
    }

    /// Sets the output state for a pin without pin boundary checks.
    ///
    /// The output state is buffered and not set immediately because the bits
    /// have to be shifted out by calling `update()` first.
    fn set_output_unchecked(&mut self, pin: usize, state: bool)
        ensures
            final(self).out_bytes() == written(old(self).out_bytes(), pin as int, state),
            final(self).in_bytes() == old(self).in_bytes(),
            final(self).pins() == old(self).pins(),
            final(self).journal() == old(self).journal(),
    {
        // Calculate index and bit position within buffer array
        let index: usize = CHAIN_LENGTH - (pin / 8) - 1;
        let bit: u8 = (pin % 8) as u8;

        self.data_out_buffer[index] = assign_bit(self.data_out_buffer[index], bit, state);
        proof {
            lemma_written(old(self).out_bytes(), pin as int, state);
        }
    }
}

impl<ClockPin, LatchPin, DataInPin, DataOutPin, const CHAIN_LENGTH: usize> Length for DualChain<
    ClockPin,
    LatchPin,
    DataInPin,
    DataOutPin,
    CHAIN_LENGTH,
> {
    open spec fn chips(&self) -> nat {
        CHAIN_LENGTH as nat
    }

    /// Returns the chain length.
    fn len(&self) -> (count: usize) {
        CHAIN_LENGTH
    }
}

} // verus!
