//! The ways in which the library turns an input down.

use vstd::prelude::*;

verus! {

/// An input that is refused where it enters the library.
#[derive(Clone, Copy, Debug, PartialEq, Eq, Structural)]
pub enum ValidationError {
    /// A token has no characters.
    EmptyToken,
    /// A token holds a character that is neither a letter nor a digit.
    NonAlphanumericToken,
    /// A token begins with a digit.
    LeadingDigitToken,
    /// A token is one of the two that stand for the free variables.
    ReservedToken,
    /// The time samples and the position samples differ in number.
    LengthMismatch,
    /// There is no sample at all.
    EmptyData,
    /// A population without individuals was asked to evolve.
    EmptyPopulation,
}

/// A token that the registry does not hold.
#[derive(Clone, Copy, Debug, PartialEq, Eq, Structural)]
pub enum LookupError {
    /// No operator is registered under the token.
    UnknownToken,
}

/// A token sequence that is no expression, found out while evaluating it.
#[derive(Clone, Copy, Debug, PartialEq, Eq, Structural)]
pub enum EvaluationError {
    /// A function found fewer operands on the stack than it takes.
    MissingOperand,
    /// At the end the stack did not hold exactly one value.
    NotOneValue,
}

} // verus!
