//! A very small compiler in three stages, from LISP-style call expressions
//! such as `(add 2 (subtract 4 2))` to C-style ones such as
//! `add(2,subtract(4,2))`.
//!
//! * [`lexer`] splits source text into tokens.
//! * [`parser`] builds a tree of call expressions from tokens.
//! * [`generator`] writes a tree out as text.
//! * [`listing`] shows tokens and trees as plain text, for diagnostics.
//!
//! Each stage is stated as a mathematical function and the code is proved
//! to compute it. On top of that, [`roundtrip`] and [`written`] prove that
//! what is written out is read back, and [`unambiguous`] proves that the
//! generated text determines the tree.
pub mod ast;
pub mod error;
pub mod generator;
pub mod lexer;
pub mod listing;
pub mod parser;
pub mod roundtrip;
pub mod sequence;
pub mod text;
pub mod token;
pub mod unambiguous;
pub mod written;
