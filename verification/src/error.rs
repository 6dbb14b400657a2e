//! The error taxonomy of the expression front end.

use vstd::prelude::*;

verus! {

/// An error reported by [`crate::ast::Expr::parse`].
///
/// Both variants are recoverable: a read-eval-print loop reports the
/// message and prompts again.
#[derive(Clone, Copy, Debug, PartialEq, Eq, Structural)]
pub enum EvalError {
    /// The input does not conform to the expression grammar: an
    /// unexpected character, unbalanced parentheses, a missing operand,
    /// trailing text, or an empty input where a term is required.
    SyntaxError,
    /// A numeric literal's digit sequence does not fit the signed 32-bit
    /// integer representation.
    NumberFormatError,
}

/// The description that [`EvalError::message`] returns for each variant.
pub open spec fn spec_message(e: EvalError) -> Seq<char> {
    match e {
        EvalError::SyntaxError => "input does not match the expression grammar"@,
        EvalError::NumberFormatError => "integer literal is out of range"@,
    }
}

impl EvalError {
    /// A human-readable description of the error.
    pub fn message(&self) -> (m: &'static str)
        ensures
            m@ == spec_message(*self),
    {
        match self {
            EvalError::SyntaxError => "input does not match the expression grammar",
            EvalError::NumberFormatError => "integer literal is out of range",
        }
    }
}

} // verus!
