//! Tokens, spans and diagnostics.

use std::ops::Range;
use vstd::prelude::*;

verus! {

/// A half-open range of byte offsets into the text.
pub type Span = Range<usize>;

/// The kind of a lexeme, before its text has been looked at.
#[derive(Debug, Clone, Copy, PartialEq, Eq)]
pub enum LogosToken {
    /// A character that starts no lexeme of the grammar.
    Error,
    /// The character `+`.
    Plus,
    /// An optional `-` and then one or more decimal digits.
    Number,
}

/// A token as the parser sees it.
#[derive(Debug, Clone, Copy, PartialEq, Eq)]
pub enum Token {
    /// The operator `+`.
    Plus,
    /// An integer, with the value that its numeral writes.
    Number(i32),
}

/// Why a numeral is not an `i32`.
#[derive(Debug, Clone, Copy, PartialEq, Eq)]
pub enum IntError {
    /// The numeral is greater than `i32::MAX`.
    PosOverflow,
    /// The numeral is less than `i32::MIN`.
    NegOverflow,
}

/// A lexeme that gave no token.
#[derive(Debug, PartialEq, Eq)]
pub enum Error {
    /// The text in the span starts no lexeme of the grammar.
    InvalidToken(Span),
    /// The numeral in the span does not fit in an `i32`.
    InvalidInt(Span, IntError),
}

/// The span from `start` to `end`.
pub open spec fn span_of(start: int, end: int) -> Span {
    Range { start: start as usize, end: end as usize }
}

} // verus!
