//! Parse-time failure conditions. Every one of them is terminal for the
//! whole parse: there is no recovery or resynchronisation.

use vstd::prelude::*;
use crate::parser::Keyword;

verus! {

/// Why a parse failed. `IntegerOverflow` stands apart: it reports a literal
/// that does not fit the fixed-width integer type, a fatal fault rather
/// than an ordinary syntax condition, and an embedder should abort on it.
#[derive(Debug)]
pub enum ParseError {
    /// The given token was required but not found.
    ExpectedToken(String),
    /// One of the listed tokens was required next.
    ExpectedTokens(Vec<String>),
    /// An operator token that matches no operator spelling.
    InvalidOperator(String),
    /// A keyword that may not start a statement.
    UnexpectedKeyword(Keyword),
    /// A character no grammar rule accepts at this point.
    UnexpectedCharacter(char),
    /// The input ended where more was required.
    EndOfInput,
    /// An integer literal too large for the integer type.
    IntegerOverflow,
}

} // verus!
