//! The error taxonomy of the solver pipeline.

use vstd::prelude::*;

verus! {

/// Everything the pipeline can report instead of a result.
#[derive(Clone, Copy, Debug, PartialEq, Eq, Structural)]
pub enum ExprError {
    /// The input text is not a well-formed equation; the 1-based column
    /// points at the offending character for caret-style display.
    ParseError { column: usize },
    /// A division by zero (or a zero base raised to a negative power).
    DivisionByZero,
    /// A term shape the polynomial extractor does not recognize.
    NotPolynomial,
    /// The coefficient table matches no solvable degree-0/1/2 pattern.
    CannotSolve,
    /// An exact rational result fell outside the representable range.
    Overflow,
}

impl ExprError {
    /// The user-facing message for this error.
    pub fn message(self) -> (r: &'static str)
        ensures
            self is NotPolynomial ==> r@ == "Not a polynomial!"@,
            self is CannotSolve ==> r@ == "I can't solve that!"@,
    {
        match self {
            ExprError::ParseError { .. } => "parse error",
            ExprError::DivisionByZero => "division by zero",
            ExprError::NotPolynomial => "Not a polynomial!",
            ExprError::CannotSolve => "I can't solve that!",
            ExprError::Overflow => "number too large to represent exactly",
        }
    }
}

} // verus!
