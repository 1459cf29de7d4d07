//! The chains against simulated registers on simulated lines.

use std::cell::RefCell;
use std::rc::Rc;

use shift_chain::inout::DualChain;
use shift_chain::input::{Chain as InputChain, GetInput, Pin as InputPin};
use shift_chain::line::{InputLine, OutputLine};
use shift_chain::output::{Chain as OutputChain, Pin as OutputPin, SetOutput};
use shift_chain::{Error, Length};

/// One operation seen on the lines.
#[derive(Debug, Clone, Copy, PartialEq, Eq)]
enum Event {
    Clock(bool),
    Latch(bool),
    Data(bool),
    Read(bool),
}

/// Simulated registers: a chain of 74HC595 on the outgoing data line and a
/// chain of 74HC165 on the incoming one, both on one clock and one latch
/// line.
struct Board {
    clock: bool,
    latch: bool,
    data: bool,
    /// Shift register of the output chips, the stage next to the data line
    /// first.
    stages: Vec<bool>,
    /// Output pins, pin 0 of the chip next to the data line first.
    outputs: Vec<bool>,
    /// Input pins, pin 0 of the chip next to the data line first.
    inputs: Vec<bool>,
    /// Shift register of the input chips, the level on the data line first.
    shift: Vec<bool>,
    events: Vec<Event>,
    /// The output pins after each operation, whenever they changed.
    shown: Vec<Vec<bool>>,
}

impl Board {
    fn new(chips: usize, latch: bool) -> Rc<RefCell<Board>> {
        let mut board = Board {
            clock: false,
            latch,
            data: false,
            stages: vec![false; 8 * chips],
            outputs: vec![false; 8 * chips],
            inputs: vec![false; 8 * chips],
            shift: vec![false; 8 * chips],
            events: Vec::new(),
            shown: Vec::new(),
        };
        board.load();
        Rc::new(RefCell::new(board))
    }

    /// While the latch line is low the input registers follow their pins.
    fn load(&mut self) {
        if !self.latch {
            let chips = self.inputs.len() / 8;
            self.shift.clear();
            for chip in 0..chips {
                for pin in (0..8).rev() {
                    self.shift.push(self.inputs[8 * chip + pin]);
                }
            }
        }
    }

    fn set_inputs(&mut self, inputs: &[bool]) {
        self.inputs = inputs.to_vec();
        self.load();
    }

    fn set_clock(&mut self, level: bool) {
        self.events.push(Event::Clock(level));
        if level && !self.clock {
            if !self.stages.is_empty() {
                self.stages.pop();
                self.stages.insert(0, self.data);
            }
            if self.latch && !self.shift.is_empty() {
                self.shift.remove(0);
                self.shift.push(false);
            }
        }
        self.clock = level;
    }

    fn set_latch(&mut self, level: bool) {
        self.events.push(Event::Latch(level));
        if level && !self.latch && self.outputs != self.stages {
            self.outputs = self.stages.clone();
            self.shown.push(self.outputs.clone());
        }
        self.latch = level;
        self.load();
    }

    fn set_data(&mut self, level: bool) {
        self.events.push(Event::Data(level));
        self.data = level;
    }

    fn read(&mut self) -> bool {
        let level = self.shift.first().copied().unwrap_or(false);
        self.events.push(Event::Read(level));
        level
    }

    /// The levels on the outgoing data line at each rising clock edge.
    fn clocked_in(&self) -> Vec<bool> {
        let mut clock = false;
        let mut data = false;
        let mut taken = Vec::new();
        for event in &self.events {
            match *event {
                Event::Data(level) => data = level,
                Event::Clock(level) => {
                    if level && !clock {
                        taken.push(data);
                    }
                    clock = level;
                }
                _ => {}
            }
        }
        taken
    }

    fn latch_levels(&self) -> Vec<bool> {
        self.events
            .iter()
            .filter_map(|event| match event {
                Event::Latch(level) => Some(*level),
                _ => None,
            })
            .collect()
    }
}

struct ClockLine(Rc<RefCell<Board>>, u32);

struct LatchLine(Rc<RefCell<Board>>, u32);

struct DataOutLine(Rc<RefCell<Board>>, u32);

struct DataInLine(Rc<RefCell<Board>>, u32);

impl OutputLine for ClockLine {
    fn set_low(&mut self) {
        self.0.borrow_mut().set_clock(false);
    }

    fn set_high(&mut self) {
        self.0.borrow_mut().set_clock(true);
    }
}

impl OutputLine for LatchLine {
    fn set_low(&mut self) {
        self.0.borrow_mut().set_latch(false);
    }

    fn set_high(&mut self) {
        self.0.borrow_mut().set_latch(true);
    }
}

impl OutputLine for DataOutLine {
    fn set_low(&mut self) {
        self.0.borrow_mut().set_data(false);
    }

    fn set_high(&mut self) {
        self.0.borrow_mut().set_data(true);
    }
}

impl InputLine for DataInLine {
    fn is_high(&mut self) -> bool {
        self.0.borrow_mut().read()
    }
}

type Output<const N: usize> = OutputChain<ClockLine, LatchLine, DataOutLine, N>;

type Input<const N: usize> = InputChain<ClockLine, LatchLine, DataInLine, N>;

type Dual<const N: usize> = DualChain<ClockLine, LatchLine, DataInLine, DataOutLine, N>;

fn output_chain<const N: usize>(board: &Rc<RefCell<Board>>) -> Output<N> {
    OutputChain::new(
        ClockLine(board.clone(), 1),
        LatchLine(board.clone(), 2),
        DataOutLine(board.clone(), 3),
    )
}

fn input_chain<const N: usize>(board: &Rc<RefCell<Board>>) -> Input<N> {
    InputChain::new(
        ClockLine(board.clone(), 1),
        LatchLine(board.clone(), 2),
        DataInLine(board.clone(), 3),
    )
}

fn dual_chain<const N: usize>(board: &Rc<RefCell<Board>>) -> Dual<N> {
    DualChain::new(
        ClockLine(board.clone(), 1),
        LatchLine(board.clone(), 2),
        DataInLine(board.clone(), 3),
        DataOutLine(board.clone(), 4),
    )
}

/// A pattern of levels without symmetry.
fn pattern(pins: usize) -> Vec<bool> {
    (0..pins).map(|pin| (pin * 7 + pin / 3) % 5 < 2).collect()
}

#[test]
fn output_each_pin_alone_reaches_its_position() {
    for pin in 0..24 {
        let board = Board::new(3, false);
        let mut chain: Output<3> = output_chain(&board);
        chain.set_output_unchecked(pin, true);
        chain.update();
        let mut expected = vec![false; 24];
        expected[pin] = true;
        assert_eq!(board.borrow().outputs, expected);
    }
}

#[test]
fn output_set_pin_keeps_the_others() {
    let levels = pattern(16);
    for pin in 0..16 {
        for level in [false, true] {
            let board = Board::new(2, false);
            let mut chain: Output<2> = output_chain(&board);
            for (other, state) in levels.iter().enumerate() {
                chain.set_output_unchecked(other, *state);
            }
            chain.update();
            assert_eq!(board.borrow().outputs, levels);
            chain.set_output_unchecked(pin, level);
            chain.update();
            let mut expected = levels.clone();
            expected[pin] = level;
            assert_eq!(board.borrow().outputs, expected);
        }
    }
}

#[test]
fn output_buffer_of_pins_0_and_15() {
    let board = Board::new(2, false);
    let mut chain: Output<2> = output_chain(&board);
    assert_eq!(chain.set_output(0, true), Ok(()));
    assert_eq!(chain.set_output(15, true), Ok(()));
    chain.update();
    assert_eq!(chain.buffer(), &[0x80, 0x01]);
    let mut expected = vec![false; 16];
    expected[0] = true;
    expected[15] = true;
    assert_eq!(board.borrow().outputs, expected);
}

#[test]
fn output_pattern_a5_is_shifted_msb_first() {
    let board = Board::new(1, false);
    let mut chain: Output<1> = output_chain(&board);
    for pin in 0..8 {
        assert_eq!(chain.set_output(pin, 0xA5 & (1 << pin) != 0), Ok(()));
    }
    assert_eq!(chain.buffer(), &[0xA5]);
    chain.update();
    assert_eq!(
        board.borrow().clocked_in(),
        vec![true, false, true, false, false, true, false, true]
    );
}

#[test]
fn output_update_sequence_of_one_chip() {
    let board = Board::new(1, false);
    let mut chain: Output<1> = output_chain(&board);
    chain.set_output_unchecked(7, true);
    chain.update();
    let mut expected = vec![Event::Latch(false)];
    for level in [true, false, false, false, false, false, false, false] {
        expected.push(Event::Clock(false));
        expected.push(Event::Data(level));
        expected.push(Event::Clock(true));
    }
    expected.push(Event::Latch(true));
    assert_eq!(board.borrow().events, expected);
}

#[test]
fn output_pins_change_only_at_the_final_latch_edge() {
    let board = Board::new(2, false);
    let mut chain: Output<2> = output_chain(&board);
    let levels = pattern(16);
    for (pin, state) in levels.iter().enumerate() {
        chain.set_output_unchecked(pin, *state);
    }
    chain.update();
    assert_eq!(board.borrow().shown, vec![levels.clone()]);
    assert_eq!(board.borrow().latch_levels(), vec![false, true]);
    assert_eq!(board.borrow().events.last(), Some(&Event::Latch(true)));
}

#[test]
fn output_set_is_buffered_until_update() {
    let board = Board::new(1, false);
    let mut chain: Output<1> = output_chain(&board);
    assert_eq!(chain.set_output(3, true), Ok(()));
    assert!(board.borrow().events.is_empty());
    assert_eq!(board.borrow().outputs, vec![false; 8]);
    chain.update();
    assert!(board.borrow().outputs[3]);
    assert_eq!(chain.set_output(3, false), Ok(()));
    assert!(board.borrow().outputs[3]);
    chain.update();
    assert!(!board.borrow().outputs[3]);
}

#[test]
fn output_update_keeps_the_buffer() {
    let board = Board::new(2, false);
    let mut chain: Output<2> = output_chain(&board);
    chain.set_output_unchecked(4, true);
    chain.set_output_unchecked(9, true);
    let before = *chain.buffer();
    chain.update();
    assert_eq!(chain.buffer(), &before);
    chain.update();
    assert_eq!(chain.buffer(), &before);
    assert_eq!(before, [0x02, 0x10]);
}

#[test]
fn output_set_out_of_range_is_refused() {
    let board = Board::new(2, false);
    let mut chain: Output<2> = output_chain(&board);
    chain.set_output_unchecked(5, true);
    let before = *chain.buffer();
    for pin in [16, 17, 23, 24, 1000, usize::MAX / 8, usize::MAX - 1, usize::MAX] {
        assert_eq!(chain.set_output(pin, true), Err(Error::PinOutOfRange));
        assert_eq!(chain.set_output(pin, false), Err(Error::PinOutOfRange));
        assert_eq!(chain.buffer(), &before);
    }
    assert_eq!(chain.set_output(15, true), Ok(()));
    assert!(board.borrow().events.is_empty());
}

#[test]
fn output_chain_without_chips() {
    let board = Board::new(0, false);
    let mut chain: Output<0> = output_chain(&board);
    assert_eq!(chain.len(), 0);
    assert!(chain.is_empty());
    assert_eq!(chain.set_output(0, true), Err(Error::PinOutOfRange));
    chain.update();
    assert_eq!(board.borrow().events, vec![Event::Latch(false), Event::Latch(true)]);
}

#[test]
fn output_new_starts_low_and_free_returns_the_pins() {
    let board = Board::new(3, false);
    let chain: Output<3> = output_chain(&board);
    assert_eq!(chain.buffer(), &[0, 0, 0]);
    assert_eq!(chain.len(), 3);
    assert!(!chain.is_empty());
    let (clock, latch, data) = chain.free();
    assert_eq!((clock.1, latch.1, data.1), (1, 2, 3));
    assert!(board.borrow().events.is_empty());
}

#[test]
fn input_update_reads_every_pin() {
    let board = Board::new(3, false);
    let levels = pattern(24);
    board.borrow_mut().set_inputs(&levels);
    let mut chain: Input<3> = input_chain(&board);
    chain.update();
    for (pin, level) in levels.iter().enumerate() {
        assert_eq!(chain.get_input(pin), Ok(*level));
        assert_eq!(chain.get_input_unchecked(pin), *level);
    }
}

#[test]
fn input_each_pin_alone_is_read_at_its_position() {
    for pin in 0..16 {
        let board = Board::new(2, false);
        let mut levels = vec![false; 16];
        levels[pin] = true;
        board.borrow_mut().set_inputs(&levels);
        let mut chain: Input<2> = input_chain(&board);
        chain.update();
        for other in 0..16 {
            assert_eq!(chain.get_input(other), Ok(other == pin));
        }
        let mut expected = [0u8; 2];
        expected[pin / 8] = 1 << (pin % 8);
        assert_eq!(chain.buffer(), &expected);
    }
}

#[test]
fn input_update_sequence_of_one_chip() {
    let board = Board::new(1, false);
    let wired = [true, false, true, false, false, true, false, true];
    board.borrow_mut().set_inputs(&wired);
    let mut chain: Input<1> = input_chain(&board);
    chain.update();
    let mut expected = vec![Event::Latch(true)];
    for level in [true, false, true, false, false, true, false, true] {
        expected.push(Event::Clock(false));
        expected.push(Event::Read(level));
        expected.push(Event::Clock(true));
    }
    expected.push(Event::Latch(false));
    assert_eq!(board.borrow().events, expected);
    assert_eq!(chain.buffer(), &[0xA5]);
}

#[test]
fn input_get_is_stable_between_updates() {
    let board = Board::new(1, false);
    board.borrow_mut().set_inputs(&[true; 8]);
    let mut chain: Input<1> = input_chain(&board);
    assert_eq!(chain.get_input(2), Ok(false));
    chain.update();
    let first = chain.get_input(2);
    board.borrow_mut().set_inputs(&[false; 8]);
    let second = chain.get_input(2);
    assert_eq!(first, Ok(true));
    assert_eq!(second, Ok(true));
    chain.update();
    assert_eq!(chain.get_input(2), Ok(false));
}

#[test]
fn input_update_overwrites_the_whole_buffer() {
    let board = Board::new(2, false);
    board.borrow_mut().set_inputs(&[true; 16]);
    let mut chain: Input<2> = input_chain(&board);
    chain.update();
    assert_eq!(chain.buffer(), &[0xFF, 0xFF]);
    board.borrow_mut().set_inputs(&pattern(16));
    chain.update();
    for (pin, level) in pattern(16).iter().enumerate() {
        assert_eq!(chain.get_input(pin), Ok(*level));
    }
}

#[test]
fn input_get_out_of_range_is_refused() {
    let board = Board::new(2, false);
    board.borrow_mut().set_inputs(&[true; 16]);
    let mut chain: Input<2> = input_chain(&board);
    chain.update();
    let before = *chain.buffer();
    for pin in [16, 17, 24, 1000, usize::MAX / 8, usize::MAX - 1, usize::MAX] {
        assert_eq!(chain.get_input(pin), Err(Error::PinOutOfRange));
    }
    assert_eq!(chain.get_input(15), Ok(true));
    assert_eq!(chain.buffer(), &before);
}

#[test]
fn input_chain_without_chips() {
    let board = Board::new(0, false);
    let mut chain: Input<0> = input_chain(&board);
    assert_eq!(chain.len(), 0);
    assert!(chain.is_empty());
    assert_eq!(chain.get_input(0), Err(Error::PinOutOfRange));
    chain.update();
    assert_eq!(board.borrow().events, vec![Event::Latch(true), Event::Latch(false)]);
}

#[test]
fn input_new_starts_low_and_free_returns_the_pins() {
    let board = Board::new(2, false);
    board.borrow_mut().set_inputs(&[true; 16]);
    let chain: Input<2> = input_chain(&board);
    assert_eq!(chain.buffer(), &[0, 0]);
    assert_eq!(chain.get_input(0), Ok(false));
    assert_eq!(chain.len(), 2);
    let (clock, latch, data) = chain.free();
    assert_eq!((clock.1, latch.1, data.1), (1, 2, 3));
    assert!(board.borrow().events.is_empty());
}

#[test]
fn dual_update_moves_both_ways() {
    let board = Board::new(2, false);
    let wired = pattern(16);
    board.borrow_mut().set_inputs(&wired);
    let mut chain: Dual<2> = dual_chain(&board);
    let mut wanted = vec![false; 16];
    for pin in [0, 3, 9, 15] {
        wanted[pin] = true;
        assert_eq!(chain.set_output(pin, true), Ok(()));
    }
    chain.update();
    assert_eq!(board.borrow().outputs, wanted);
    for (pin, level) in wired.iter().enumerate() {
        assert_eq!(chain.get_input(pin), Ok(*level));
    }
    assert_eq!(chain.output_buffer(), &[0x82, 0x09]);
}

#[test]
fn dual_outputs_appear_with_the_extra_latch_pulse() {
    let board = Board::new(2, false);
    let mut chain: Dual<2> = dual_chain(&board);
    let first = pattern(16);
    for (pin, state) in first.iter().enumerate() {
        chain.set_output_unchecked(pin, *state);
    }
    chain.update();
    assert_eq!(board.borrow().outputs, first);
    assert_eq!(board.borrow().shown, vec![first.clone()]);
    assert_eq!(board.borrow().latch_levels(), vec![true, false, true, false]);

    let second: Vec<bool> = first.iter().map(|level| !level).collect();
    for (pin, state) in second.iter().enumerate() {
        chain.set_output_unchecked(pin, *state);
    }
    chain.update();
    assert_eq!(board.borrow().shown, vec![first, second]);
    let events = board.borrow().events.clone();
    let tail = &events[events.len() - 3..];
    assert_eq!(tail, &[Event::Latch(false), Event::Latch(true), Event::Latch(false)]);
}

#[test]
fn dual_latch_stays_high_while_shifting() {
    let board = Board::new(1, false);
    let mut chain: Dual<1> = dual_chain(&board);
    chain.update();
    let events = board.borrow().events.clone();
    assert_eq!(events.len(), 1 + 8 * 4 + 3);
    assert_eq!(events[0], Event::Latch(true));
    for event in &events[1..33] {
        assert!(!matches!(event, Event::Latch(_)));
    }
    assert!(!board.borrow().latch);
}

#[test]
fn dual_update_sequence_of_one_chip() {
    let board = Board::new(1, false);
    board.borrow_mut().set_inputs(&[false, true, true, true, true, true, true, true]);
    let mut chain: Dual<1> = dual_chain(&board);
    chain.set_output_unchecked(0, true);
    chain.update();
    let mut expected = vec![Event::Latch(true)];
    for place in 0..8 {
        expected.push(Event::Clock(false));
        expected.push(Event::Read(place != 7));
        expected.push(Event::Data(place == 7));
        expected.push(Event::Clock(true));
    }
    expected.push(Event::Latch(false));
    expected.push(Event::Latch(true));
    expected.push(Event::Latch(false));
    assert_eq!(board.borrow().events, expected);
    assert_eq!(chain.input_buffer(), &[0xFE]);
    assert_eq!(chain.output_buffer(), &[0x01]);
}

#[test]
fn dual_set_does_not_touch_the_inputs() {
    let board = Board::new(1, false);
    board.borrow_mut().set_inputs(&pattern(8));
    let mut chain: Dual<1> = dual_chain(&board);
    chain.update();
    let before = *chain.input_buffer();
    assert_eq!(chain.set_output(5, true), Ok(()));
    assert_eq!(chain.input_buffer(), &before);
    assert_eq!(chain.output_buffer(), &[0x20]);
    chain.update();
    assert_eq!(chain.output_buffer(), &[0x20]);
}

#[test]
fn dual_out_of_range_is_refused() {
    let board = Board::new(1, false);
    let mut chain: Dual<1> = dual_chain(&board);
    chain.set_output_unchecked(1, true);
    for pin in [8, 9, 64, usize::MAX] {
        assert_eq!(chain.get_input(pin), Err(Error::PinOutOfRange));
        assert_eq!(chain.set_output(pin, true), Err(Error::PinOutOfRange));
        assert_eq!(chain.output_buffer(), &[0x02]);
        assert_eq!(chain.input_buffer(), &[0x00]);
    }
    assert_eq!(chain.get_input(7), Ok(false));
    assert_eq!(chain.set_output(7, true), Ok(()));
}

#[test]
fn dual_new_starts_low_and_free_returns_the_pins() {
    let board = Board::new(2, false);
    let chain: Dual<2> = dual_chain(&board);
    assert_eq!(chain.input_buffer(), &[0, 0]);
    assert_eq!(chain.output_buffer(), &[0, 0]);
    assert_eq!(chain.len(), 2);
    assert!(!chain.is_empty());
    let (clock, latch, data_in, data_out) = chain.free();
    assert_eq!((clock.1, latch.1, data_in.1, data_out.1), (1, 2, 3, 4));
}

#[test]
fn input_pin_reads_through_to_the_chain() {
    let board = Board::new(2, false);
    let levels = pattern(16);
    board.borrow_mut().set_inputs(&levels);
    let mut chain: Input<2> = input_chain(&board);
    let pins: Vec<InputPin<Input<2>>> =
        (0..16).map(|pin| InputPin::new(&chain, pin).unwrap()).collect();
    for pin in &pins {
        assert_eq!(pin.is_high(&chain), Ok(false));
        assert_eq!(pin.is_low(&chain), Ok(true));
    }
    chain.update();
    for (pin, level) in pins.iter().zip(levels.iter()) {
        assert_eq!(pin.is_high(&chain), Ok(*level));
        assert_eq!(pin.is_low(&chain), Ok(!*level));
    }
}

#[test]
fn input_pin_out_of_range_is_refused() {
    let board = Board::new(2, false);
    let chain: Input<2> = input_chain(&board);
    assert!(InputPin::new(&chain, 15).is_ok());
    assert!(matches!(InputPin::new(&chain, 16), Err(Error::PinOutOfRange)));
    assert!(matches!(InputPin::new(&chain, usize::MAX), Err(Error::PinOutOfRange)));
}

#[test]
fn output_pin_writes_through_to_the_chain() {
    let board = Board::new(2, false);
    let mut chain: Output<2> = output_chain(&board);
    let low = OutputPin::new(&chain, 0).unwrap();
    let high = OutputPin::new(&chain, 15).unwrap();
    assert_eq!(low.set_high(&mut chain), Ok(()));
    assert_eq!(high.set_high(&mut chain), Ok(()));
    assert_eq!(chain.buffer(), &[0x80, 0x01]);
    assert_eq!(low.set_low(&mut chain), Ok(()));
    assert_eq!(chain.buffer(), &[0x80, 0x00]);
    chain.update();
    let mut expected = vec![false; 16];
    expected[15] = true;
    assert_eq!(board.borrow().outputs, expected);
}

#[test]
fn output_pin_out_of_range_is_refused() {
    let board = Board::new(1, false);
    let chain: Output<1> = output_chain(&board);
    assert!(OutputPin::new(&chain, 7).is_ok());
    assert!(matches!(OutputPin::new(&chain, 8), Err(Error::PinOutOfRange)));
    assert!(matches!(OutputPin::new(&chain, usize::MAX), Err(Error::PinOutOfRange)));
}

#[test]
fn pins_of_a_dual_chain() {
    let board = Board::new(1, false);
    board.borrow_mut().set_inputs(&[false, false, true, false, false, false, false, false]);
    let mut chain: Dual<1> = dual_chain(&board);
    let input = InputPin::new(&chain, 2).unwrap();
    let output = OutputPin::new(&chain, 6).unwrap();
    assert_eq!(output.set_high(&mut chain), Ok(()));
    chain.update();
    assert_eq!(input.is_high(&chain), Ok(true));
    assert!(board.borrow().outputs[6]);
    assert!(matches!(InputPin::new(&chain, 8), Err(Error::PinOutOfRange)));
    assert!(matches!(OutputPin::new(&chain, 8), Err(Error::PinOutOfRange)));
}
