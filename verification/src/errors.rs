//! Error types: runtime errors raised by the simulator, test-oracle
//! mismatches, and errors raised while reading assembly text.

use vstd::prelude::*;
use crate::datacube::DataCube;

verus! {

/// An error that halts a running program.
///
/// The optimizer treats these as undefined behavior: a program whose only
/// difference from the original is its error behavior on ill-formed
/// executions may be transformed freely on those paths.
#[derive(Clone, Copy, Debug, PartialEq, Eq, Structural)]
pub enum HRMRuntimeError {
    /// An instruction read a floor tile that holds nothing.
    EmptyFloor,
    /// An instruction needed the accumulator, which holds nothing.
    EmptyHands,
    /// Arithmetic mixed a letter with a number, or bumped a letter.
    LetterMath,
    /// A tile address lies outside the floor.
    BadTileAddress,
    /// An indirect address went through a tile that holds a letter.
    LetterAddress,
    /// An arithmetic result left the range -999 to 999.
    Overflow,
}

/// A mismatch between a program's output and an expected output.
#[derive(Clone, Copy, Debug, PartialEq, Eq, Structural)]
pub enum HRMTestError {
    /// The outbox ended with fewer items than expected.
    NotEnoughOutBox { actual: usize, expected: usize },
    /// An outbox item differs from the expected one.
    BadOutbox { actual: DataCube, expected: DataCube },
    /// The solution works on the given inputs but fails on others.
    SolutionNotRobust,
}

/// An error raised while reading a program from assembly text.
#[derive(Clone, Debug)]
pub enum AsmParseError {
    /// The input has no text at all.
    EmptyFile,
    /// The first non-empty line is not the required header.
    MissingHeader,
    /// A token appeared where none was expected.
    UnexpectedToken(String),
    /// A mnemonic needed an argument and the line ended instead.
    ExpectedToken,
    /// An address argument is not a decimal integer that fits.
    IntParseError,
    /// A jump names a label that no line declares.
    UnknownLabel(String),
}

} // verus!
