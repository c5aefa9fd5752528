//! Lexical front end for a small C-like scripting language.
//!
//! The library turns a byte buffer into an ordered sequence of typed
//! tokens (operators, delimiters, string/integer/float literals,
//! identifiers and keywords), with 1-based line numbers attached, or
//! fails on the first lexical anomaly with a structured error value.

pub mod laws;
pub mod lexer;
pub mod token;
