//! The lexical grammar: of what kind the lexeme at a position is, and where
//! it ends.
//!
//! There are three kinds of lexeme. `+` is one by itself. A numeral is an
//! optional `-` and then as many decimal digits as follow, at least one. Any
//! other character, in all the bytes of its encoding, is an error lexeme; so
//! is a `-` that no digit follows.
//!
//! A `-` belongs to the digits after it wherever it stands, also straight
//! after a number: `1-5` is the two numerals `1` and `-5`. The grammar of
//! sums has no place for two numbers in a row, so such a text is scanned
//! without a diagnostic and then fails to parse. This is a known weakness of
//! the lexical grammar, kept as it is.

use crate::token::LogosToken;
use vstd::prelude::*;

verus! {

/// The byte of `+`.
pub const PLUS: u8 = 0x2B;

/// The byte of `-`.
pub const MINUS: u8 = 0x2D;

/// The byte of `0`.
pub const ZERO: u8 = 0x30;

/// The byte of `9`.
pub const NINE: u8 = 0x39;

/// Whether `b` is a decimal digit.
pub open spec fn is_digit(b: u8) -> bool {
    ZERO <= b <= NINE
}

/// Whether `b` continues the encoding of a character that an earlier byte
/// started.
pub open spec fn is_continuation(b: u8) -> bool {
    0x80 <= b <= 0xBF
}

/// The first position at or after `i` that holds no digit.
pub open spec fn digits_end(s: Seq<u8>, i: int) -> int
    decreases s.len() - i,
{
    if 0 <= i < s.len() && is_digit(s[i]) {
        digits_end(s, i + 1)
    } else {
        i
    }
}

/// The first position at or after `i` at which a character starts or the text
/// ends.
pub open spec fn boundary_from(s: Seq<u8>, i: int) -> int
    decreases s.len() - i,
{
    if 0 <= i < s.len() && is_continuation(s[i]) {
        boundary_from(s, i + 1)
    } else {
        i
    }
}

/// Whether a numeral starts at `start`.
pub open spec fn starts_numeral(s: Seq<u8>, start: int) -> bool {
    is_digit(s[start]) || (s[start] == MINUS && start + 1 < s.len() && is_digit(s[start + 1]))
}

/// The kind of the lexeme that starts at `start`.
pub open spec fn lexeme_kind(s: Seq<u8>, start: int) -> LogosToken
    recommends
        0 <= start < s.len(),
{
    if s[start] == PLUS {
        LogosToken::Plus
    } else if starts_numeral(s, start) {
        LogosToken::Number
    } else {
        LogosToken::Error
    }
}

/// The position just after the lexeme that starts at `start`.
pub open spec fn lexeme_end(s: Seq<u8>, start: int) -> int
    recommends
        0 <= start < s.len(),
{
    match lexeme_kind(s, start) {
        LogosToken::Plus => start + 1,
        LogosToken::Number => digits_end(s, start + 1),
        LogosToken::Error => boundary_from(s, start + 1),
    }
}

/// A run of digits ends where `digits_end` says: it holds digits only, and no
/// digit follows it.
pub proof fn lemma_digits_end(s: Seq<u8>, i: int)
    requires
        0 <= i <= s.len(),
    ensures
        i <= digits_end(s, i) <= s.len(),
        forall|k: int| i <= k < digits_end(s, i) ==> is_digit(#[trigger] s[k]),
        digits_end(s, i) < s.len() ==> !is_digit(s[digits_end(s, i)]),
    decreases s.len() - i,
{
    if i < s.len() && is_digit(s[i]) {
        lemma_digits_end(s, i + 1);
    }
}

/// A position that only digits lead to and that no digit follows is
/// `digits_end`.
pub proof fn lemma_digits_end_is(s: Seq<u8>, i: int, j: int)
    requires
        0 <= i <= j <= s.len(),
        forall|k: int| i <= k < j ==> is_digit(#[trigger] s[k]),
        j < s.len() ==> !is_digit(s[j]),
    ensures
        digits_end(s, i) == j,
    decreases j - i,
{
    if i < j {
        lemma_digits_end_is(s, i + 1, j);
    }
}

/// A character ends where `boundary_from` says.
pub proof fn lemma_boundary_from(s: Seq<u8>, i: int)
    requires
        0 <= i <= s.len(),
    ensures
        i <= boundary_from(s, i) <= s.len(),
        forall|k: int| i <= k < boundary_from(s, i) ==> is_continuation(#[trigger] s[k]),
        boundary_from(s, i) < s.len() ==> !is_continuation(s[boundary_from(s, i)]),
    decreases s.len() - i,
{
    if i < s.len() && is_continuation(s[i]) {
        lemma_boundary_from(s, i + 1);
    }
}

/// A lexeme is not empty and ends within the text.
pub proof fn lemma_lexeme_end_bounds(s: Seq<u8>, start: int)
    requires
        0 <= start < s.len(),
    ensures
        start < lexeme_end(s, start) <= s.len(),
{
    lemma_digits_end(s, start + 1);
    lemma_boundary_from(s, start + 1);
}

/// Whether `b` is a decimal digit.
pub fn is_ascii_digit(b: u8) -> (r: bool)
    ensures
        r == is_digit(b),
{
    ZERO <= b && b <= NINE
}

/// The first position at or after `from` that holds no digit.
pub fn scan_digits(source: &[u8], from: usize) -> (end: usize)
    requires
        from <= source.len(),
    ensures
        end == digits_end(source@, from as int),
        from <= end <= source.len(),
{
    let mut i: usize = from;
    while i < source.len() && is_ascii_digit(source[i])
        invariant
            from <= i <= source.len(),
            digits_end(source@, from as int) == digits_end(source@, i as int),
        decreases source.len() - i,
    {
        i += 1;
    }
    i
}

/// The first position at or after `from` at which a character starts or the
/// text ends.
pub fn find_boundary(source: &[u8], from: usize) -> (end: usize)
    requires
        from <= source.len(),
    ensures
        end == boundary_from(source@, from as int),
        from <= end <= source.len(),
{
    let mut i: usize = from;
    while i < source.len() && 0x80 <= source[i] && source[i] <= 0xBF
        invariant
            from <= i <= source.len(),
            boundary_from(source@, from as int) == boundary_from(source@, i as int),
        decreases source.len() - i,
    {
        i += 1;
    }
    i
}

/// Reads the lexeme that starts at `start`: its kind, and the position just
/// after it.
pub fn lex(source: &[u8], start: usize) -> (r: (LogosToken, usize))
    requires
        start < source.len(),
    ensures
        r.0 == lexeme_kind(source@, start as int),
        r.1 == lexeme_end(source@, start as int),
        start < r.1 <= source.len(),
{
    let first = source[start];
    if first == PLUS {
        (LogosToken::Plus, start + 1)
    } else if is_ascii_digit(first) || (first == MINUS && start + 1 < source.len()
        && is_ascii_digit(source[start + 1])) {
        (LogosToken::Number, scan_digits(source, start + 1))
    } else {
        (LogosToken::Error, find_boundary(source, start + 1))
    }
}

} // verus!
