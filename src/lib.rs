//! The front end of a small expression language: a byte scanner that turns source
//! text into tokens, and a precedence-climbing parser that turns tokens into a
//! syntax tree plus a list of diagnostics.
//!
//! `token` holds the token vocabulary, `lexer` the scanner and its model,
//! `ast` the syntax tree and its canonical rendering, `grammar` the parser's
//! model as functions on token sequences, `parser` the executable parser proved
//! against that model, and `round_trip` the proof that rendered statements parse
//! back into themselves.

pub mod ast;
pub mod grammar;
pub mod lexer;
pub mod parser;
pub mod round_trip;
pub mod token;
