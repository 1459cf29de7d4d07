//! Driver for chains of 8-bit shift registers on a bit-banged bus.
//!
//! A chain of parallel-in/serial-out registers turns a clock, a latch and one
//! data line into many digital inputs; a chain of serial-in/parallel-out
//! registers does the same for outputs. Every pin of a chain is addressed by
//! one index, reads and writes go to a buffer, and only `update` moves bits
//! over the wires.

use vstd::prelude::*;

pub mod bits;
pub mod cycle;
pub mod inout;
pub mod input;
pub mod line;
pub mod output;
pub mod piso;
pub mod reading;
pub mod sipo;

verus! {

/// Errors
#[derive(Debug, Clone, Copy, PartialEq, Eq)]
pub enum Error {
    /// Pin number not within the allowed range.
    PinOutOfRange,
}

/// Trait to be implemented by any chain to return its length.
pub trait Length {
    /// Number of chips in the chain.
    spec fn chips(&self) -> nat;

    /// Returns the total length
    fn len(&self) -> (count: usize)
        ensures
            count == self.chips(),
    ;

    /// Checks if length is 0
    fn is_empty(&self) -> (empty: bool)
        ensures
            empty == (self.chips() == 0),
    {
        self.len() == 0
    }
}

} // verus!
