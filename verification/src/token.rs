//! Token data: kinds, spans, line numbers, and the structured error
//! values that a failed scan returns.

use vstd::prelude::*;

verus! {

/// The kind of a lexical token.
///
/// `Eof` and `NotEqual` belong to the closed kind set but are never
/// produced by the scanner: the token sequence simply ends at end of
/// input, and `!` always scans as `Bang`.
#[derive(Debug, Clone, Copy, PartialEq, Eq, Structural)]
pub enum TokenType {
    // Special
    Eof,

    // Identifiers & literals
    Identifier,
    Integer,
    Float,
    StringLiteral,

    // Assignment operators
    Assign,
    PlusAssign,
    MinusAssign,

    // Comparison operators
    Equal,
    NotEqual,
    Less,
    LessEqual,
    Greater,
    GreaterEqual,

    // Arithmetic operators
    Plus,
    Minus,
    Asterisk,
    Slash,

    // Logical operators
    And,
    Or,
    Bang,

    // Delimiters
    Comma,
    Semicolon,
    Colon,
    LeftParen,
    RightParen,
    LeftBrace,
    RightBrace,
    LeftSquare,
    RightSquare,

    // Keywords
    True,
    False,
    Function,
    If,
    Else,
    For,
    While,
    Return,
}

/// The sub-scanner currently active during a scan. `Normal` dispatches
/// on each byte; the other four consume a run of bytes for one literal
/// or identifier token.
#[derive(Debug, Clone, Copy, PartialEq, Eq, Structural)]
pub enum Mode {
    Normal,
    StringLiteral,
    Integer,
    Float,
    Identifier,
}

/// One token: its kind, the byte span `[start, end]` it occupies in the
/// source buffer (`end` is the offset of the last byte belonging to the
/// token; an empty string literal has `end == start - 1`), and the
/// 1-based line on which it was recognized.
#[derive(Debug, Clone, Copy, PartialEq, Eq, Structural)]
pub struct Token {
    pub token_type: TokenType,
    pub start: usize,
    pub end: usize,
    pub line: usize,
}

/// Mathematical model of a token, with unbounded integer fields.
pub ghost struct SpecToken {
    pub token_type: TokenType,
    pub start: int,
    pub end: int,
    pub line: int,
}

impl View for Token {
    type V = SpecToken;

    open spec fn view(&self) -> SpecToken {
        SpecToken {
            token_type: self.token_type,
            start: self.start as int,
            end: self.end as int,
            line: self.line as int,
        }
    }
}

/// The first lexical anomaly found, with its location. Every anomaly is
/// fatal: the scan stops and no token list is produced.
#[derive(Debug, Clone, Copy, PartialEq, Eq, Structural)]
pub enum LexError {
    /// A byte that no token can start with, at `offset`.
    UnknownCharacter { byte: u8, offset: usize, line: usize },
    /// The buffer ended inside a string literal.
    UnterminatedString { line: usize },
    /// A byte that may not follow the digits of a numeric literal, at `offset`.
    InvalidNumericLiteral { byte: u8, offset: usize, line: usize },
    /// A second `.` inside one numeric literal, at `offset`.
    MalformedFloat { offset: usize, line: usize },
}

/// Mathematical model of a `LexError`, with unbounded integer fields.
pub ghost enum SpecLexError {
    UnknownCharacter { byte: u8, offset: int, line: int },
    UnterminatedString { line: int },
    InvalidNumericLiteral { byte: u8, offset: int, line: int },
    MalformedFloat { offset: int, line: int },
}

impl View for LexError {
    type V = SpecLexError;

    open spec fn view(&self) -> SpecLexError {
        match *self {
            LexError::UnknownCharacter { byte, offset, line } => (SpecLexError::UnknownCharacter {
                byte: byte,
                offset: offset as int,
                line: line as int,
            }),
            LexError::UnterminatedString { line } => (SpecLexError::UnterminatedString {
                line: line as int,
            }),
            LexError::InvalidNumericLiteral { byte, offset, line } => (
            SpecLexError::InvalidNumericLiteral {
                byte: byte,
                offset: offset as int,
                line: line as int,
            }),
            LexError::MalformedFloat { offset, line } => (SpecLexError::MalformedFloat {
                offset: offset as int,
                line: line as int,
            }),
        }
    }
}

} // verus!
