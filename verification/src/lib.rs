//! A lexical analyzer for a small arithmetic toy language: function
//! definitions, external declarations, conditionals, identifiers, numeric
//! literals, punctuation and single-character operators.
//!
//! The scanner is a single left-to-right pass. Its behaviour is pinned down
//! by a mathematical model (`lexer::spec_tokenize`) and the executable
//! scanner is proved to agree with that model on every input.

pub mod laws;
pub mod lexer;
