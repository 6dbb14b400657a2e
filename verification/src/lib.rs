//! A verified front end for a small calculator: an infix arithmetic
//! expression is tokenized, parsed by recursive descent into a typed
//! expression tree, and handed back to the caller, who evaluates it.
//!
//! The grammar (lowest precedence first, `+ - * /` grouping to the left,
//! `^` grouping to the right):
//!
//! ```text
//! sum    := term  (('+' | '-') term)*
//! term   := power (('*' | '/') power)*
//! power  := atom  ('^' power)?
//! atom   := number | '(' sum ')'
//! number := decimal digits
//! ```
//!
//! Whitespace between tokens is insignificant. Every stage is a pure
//! function of its input and is specified against a mathematical model:
//! [`token::spec_tokenize`] for the tokenizer and [`parser::spec_parse`]
//! for the whole parse.
//!
//! Evaluation of the tree is floating-point arithmetic and lives with the
//! callers of this library; the parser itself never panics and reports
//! every malformed input as a typed error.

pub mod ast;
pub mod error;
pub mod laws;
pub mod parser;
pub mod token;
