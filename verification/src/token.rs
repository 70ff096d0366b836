//! Tokens: the smallest lexical units, each carrying the text it matched.
use crate::text::{is_identifier, is_literal_body, is_number};
use vstd::prelude::*;

verus! {

/// A lexical unit together with the source text it was made from.
#[derive(Debug, PartialEq, Eq)]
pub enum Token {
    /// A single `(` or `)`.
    Paren(String),
    /// A letter or underscore followed by letters, digits and underscores.
    Identifier(String),
    /// A run of decimal digits.
    NumberLiteral(String),
    /// The text between a pair of single quotes.
    CharLiteral(String),
    /// The text between a pair of double quotes.
    StringLiteral(String),
}

/// The mathematical value of a [`Token`]: the same five cases over
/// sequences of characters.
pub ghost enum TokenView {
    Paren(Seq<char>),
    Identifier(Seq<char>),
    NumberLiteral(Seq<char>),
    CharLiteral(Seq<char>),
    StringLiteral(Seq<char>),
}

impl TokenView {
    /// Whether the token's text is of the form that its kind stands for.
    pub open spec fn well_formed(self) -> bool {
        match self {
            TokenView::Paren(text) => text == seq!['('] || text == seq![')'],
            TokenView::Identifier(text) => is_identifier(text),
            TokenView::NumberLiteral(text) => is_number(text),
            TokenView::CharLiteral(text) => is_literal_body(text, '\''),
            TokenView::StringLiteral(text) => is_literal_body(text, '"'),
        }
    }
}

/// Whether every token of a sequence is well formed.
pub open spec fn all_well_formed(tokens: Seq<TokenView>) -> bool {
    forall|i: int| 0 <= i < tokens.len() ==> (#[trigger] tokens[i]).well_formed()
}

impl View for Token {
    type V = TokenView;

    open spec fn view(&self) -> TokenView {
        match self {
            Token::Paren(text) => TokenView::Paren(text@),
            Token::Identifier(text) => TokenView::Identifier(text@),
            Token::NumberLiteral(text) => TokenView::NumberLiteral(text@),
            Token::CharLiteral(text) => TokenView::CharLiteral(text@),
            Token::StringLiteral(text) => TokenView::StringLiteral(text@),
        }
    }
}

/// The values of a sequence of tokens, one by one.
pub open spec fn token_views(tokens: Seq<Token>) -> Seq<TokenView> {
    tokens.map_values(|t: Token| t@)
}

} // verus!
