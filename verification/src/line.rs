//! The lines of the bus, as the capabilities that a chain needs of them.
//!
//! A chain owns one value per line and asks nothing of it but these
//! operations. They cannot fail: a driver whose pins can fail decides in its
//! implementation what becomes of the failure.
//!
//! Each line has a record of what was done with it, which only a call on the
//! line extends. What a chain does on its lines is stated over these records.
//! An implementation that the verifier reads states its own record, and must
//! then meet the contracts. One written outside the verifier states none and
//! is taken at its word: that each call does what its name says.

use vstd::prelude::*;

verus! {

/// A line that the chain drives.
pub trait OutputLine {
    /// Every level that the line has been driven to, the first one first.
    /// Left open here: no implementation can meet the contracts without
    /// stating it.
    closed spec fn driven(&self) -> Seq<bool> {
        arbitrary()
    }

    /// Drives the line low.
    fn set_low(&mut self)
        ensures
            final(self).driven() == old(self).driven().push(false),
    ;

    /// Drives the line high.
    fn set_high(&mut self)
        ensures
            final(self).driven() == old(self).driven().push(true),
    ;
}

/// A line that the chain reads.
pub trait InputLine {
    /// Every level that has been read from the line, the first one first.
    /// Left open here: no implementation can meet the contracts without
    /// stating it.
    closed spec fn sampled(&self) -> Seq<bool> {
        arbitrary()
    }

    /// Reads the line: `true` when it is high.
    fn is_high(&mut self) -> (level: bool)
        ensures
            final(self).sampled() == old(self).sampled().push(level),
    ;
}

/// Drives `line` to `level`: one call of `set_high` or of `set_low`.
pub(crate) fn drive<Line: OutputLine>(line: &mut Line, level: bool)
    ensures
        final(line).driven() == old(line).driven().push(level),
{
    if level {
        line.set_high();
    } else {
        line.set_low();
    }
}

} // verus!
