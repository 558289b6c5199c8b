//! The errors that the parsers report.

use vstd::prelude::*;

verus! {

/// Why a parser gave up.
#[derive(Clone, Copy, Debug, PartialEq, Eq, Structural)]
pub enum ErrorKind {
    /// The text does not have the shape of the literal.
    LexicalMismatch,
    /// The text has the shape of the literal but denotes no value of its type.
    ConversionFailure,
    /// None of the kinds of literal is present.
    ExhaustedAlternatives,
}

/// A failed parse: the reason, and the place that it speaks of as an offset
/// in bytes from the start of the input. For a mismatch this is the first
/// character that does not fit, or the end of the input where it ends too
/// soon; for a failure to convert, the start of the text that does not
/// convert; where the alternatives are exhausted, the place at which a
/// literal was looked for.
#[derive(Clone, Copy, Debug, PartialEq, Eq, Structural)]
pub struct ParseError {
    pub kind: ErrorKind,
    pub position: usize,
}

} // verus!
