//! The ways in which a stage can fail.
use vstd::prelude::*;

verus! {

/// Why the lexer stopped before the end of the source text.
#[derive(Debug, Clone, Copy, PartialEq, Eq, Structural)]
pub enum LexError {
    /// A character that starts no token and is not whitespace.
    UnknownCharacter,
    /// A quote was opened and the text ended before it was closed.
    UnterminatedLiteral,
}

/// Why the parser could not build a tree.
#[derive(Debug, Clone, Copy, PartialEq, Eq, Structural)]
pub enum ParseError {
    /// The tokens ran out inside a call expression.
    UnexpectedEndOfInput,
}

} // verus!
