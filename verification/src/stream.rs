//! What scanning a text yields: its tokens, and the diagnostics of the
//! lexemes that give none.

use crate::lexeme::{
    is_digit, lemma_digits_end, lemma_lexeme_end_bounds, lexeme_end, lexeme_kind, MINUS,
};
use crate::numeral::{is_numeral, numeral_digits, numeral_result};
use crate::token::{span_of, Error, LogosToken, Token};
use vstd::prelude::*;

verus! {

/// What a lexeme of kind `kind` that spans `start` to `end` and reads `text`
/// is converted to.
pub open spec fn conversion(kind: LogosToken, start: int, end: int, text: Seq<u8>) -> Result<
    Token,
    Error,
> {
    match kind {
        LogosToken::Error => Err(Error::InvalidToken(span_of(start, end))),
        LogosToken::Plus => Ok(Token::Plus),
        LogosToken::Number => match numeral_result(text) {
            Ok(value) => Ok(Token::Number(value)),
            Err(cause) => Err(Error::InvalidInt(span_of(start, end), cause)),
        },
    }
}

/// What the lexeme that starts at `start` is converted to.
pub open spec fn converted(s: Seq<u8>, start: int) -> Result<Token, Error>
    recommends
        0 <= start < s.len(),
{
    let end = lexeme_end(s, start);
    conversion(lexeme_kind(s, start), start, end, s.subrange(start, end))
}

/// The first token at or after `from`, with its span; `None` where no lexeme
/// from there on gives a token.
pub open spec fn first_token(s: Seq<u8>, from: int) -> Option<(usize, Token, usize)>
    decreases s.len() - from,
{
    if 0 <= from < s.len() {
        let end = lexeme_end(s, from);
        match converted(s, from) {
            Ok(token) => Some((from as usize, token, end as usize)),
            Err(_) => {
                proof {
                    lemma_lexeme_end_bounds(s, from);
                }
                first_token(s, end)
            },
        }
    } else {
        None
    }
}

/// The position just after the first token at or after `from`; the end of the
/// text where there is none.
pub open spec fn first_token_end(s: Seq<u8>, from: int) -> int {
    match first_token(s, from) {
        Some(triple) => triple.2 as int,
        None => s.len() as int,
    }
}

/// All the tokens at or after `from`, in the order of the text.
pub open spec fn tokens_from(s: Seq<u8>, from: int) -> Seq<(usize, Token, usize)>
    decreases s.len() - from,
{
    if 0 <= from < s.len() {
        let end = lexeme_end(s, from);
        proof {
            lemma_lexeme_end_bounds(s, from);
        }
        let rest = tokens_from(s, end);
        match converted(s, from) {
            Ok(token) => seq![(from as usize, token, end as usize)] + rest,
            Err(_) => rest,
        }
    } else {
        Seq::empty()
    }
}

/// The diagnostics of the lexemes that start at or after `from` and before
/// `to`, in the order of the text.
pub open spec fn diagnostics_between(s: Seq<u8>, from: int, to: int) -> Seq<Error>
    decreases to - from,
{
    if 0 <= from < to && from < s.len() {
        let end = lexeme_end(s, from);
        proof {
            lemma_lexeme_end_bounds(s, from);
        }
        let rest = if end < to {
            diagnostics_between(s, end, to)
        } else {
            Seq::empty()
        };
        match converted(s, from) {
            Ok(_) => rest,
            Err(error) => seq![error] + rest,
        }
    } else {
        Seq::empty()
    }
}

/// Whether whole lexemes lead from `from` to `to`.
pub open spec fn reaches(s: Seq<u8>, from: int, to: int) -> bool
    decreases to - from,
{
    if from >= to {
        from == to
    } else if 0 <= from < s.len() {
        let end = lexeme_end(s, from);
        proof {
            lemma_lexeme_end_bounds(s, from);
        }
        if end <= to {
            reaches(s, end, to)
        } else {
            false
        }
    } else {
        false
    }
}

/// A lexeme of kind `Number` reads as a numeral.
pub proof fn lemma_number_is_numeral(s: Seq<u8>, start: int)
    requires
        0 <= start < s.len(),
        lexeme_kind(s, start) == LogosToken::Number,
    ensures
        is_numeral(s.subrange(start, lexeme_end(s, start))),
{
    let end = lexeme_end(s, start);
    let text = s.subrange(start, end);
    lemma_digits_end(s, start + 1);
    if s[start] == MINUS {
        lemma_digits_end(s, start + 2);
        assert(end >= start + 2);
    }
    assert forall|k: int| 0 <= k < numeral_digits(text).len() implies is_digit(
        #[trigger] numeral_digits(text)[k],
    ) by {
        if s[start] == MINUS {
            assert(numeral_digits(text)[k] == s[start + 1 + k]);
        } else {
            assert(numeral_digits(text)[k] == s[start + k]);
        }
    }
}

/// Where one stretch of lexemes ends and the next starts, the diagnostics of
/// the two follow each other.
pub proof fn lemma_diagnostics_split(s: Seq<u8>, from: int, mid: int, to: int)
    requires
        reaches(s, from, mid),
        mid <= to,
    ensures
        diagnostics_between(s, from, to) == diagnostics_between(s, from, mid)
            + diagnostics_between(s, mid, to),
    decreases mid - from,
{
    if from < mid {
        let end = lexeme_end(s, from);
        lemma_lexeme_end_bounds(s, from);
        lemma_diagnostics_split(s, end, mid, to);
        if end == mid {
            assert(diagnostics_between(s, mid, mid) =~= Seq::<Error>::empty());
        }
        if end == to {
            assert(diagnostics_between(s, to, to) =~= Seq::<Error>::empty());
        }
        assert(diagnostics_between(s, from, to) =~= diagnostics_between(s, from, mid)
            + diagnostics_between(s, mid, to));
    } else {
        assert(diagnostics_between(s, from, mid) =~= Seq::<Error>::empty());
        assert(diagnostics_between(s, from, to) =~= diagnostics_between(s, from, mid)
            + diagnostics_between(s, mid, to));
    }
}

/// One stretch of lexemes after another is a stretch of lexemes.
pub proof fn lemma_reaches_trans(s: Seq<u8>, from: int, mid: int, to: int)
    requires
        reaches(s, from, mid),
        reaches(s, mid, to),
    ensures
        reaches(s, from, to),
    decreases mid - from,
{
    if from < mid {
        lemma_lexeme_end_bounds(s, from);
        lemma_reaches_trans(s, lexeme_end(s, from), mid, to);
    }
}

/// Whole lexemes lead from a position in the text to the end of the first
/// token after it, and none of them but the last gives a token.
pub proof fn lemma_first_token(s: Seq<u8>, from: int)
    requires
        0 <= from <= s.len() <= usize::MAX,
    ensures
        from <= first_token_end(s, from) <= s.len(),
        reaches(s, from, first_token_end(s, from)),
        first_token(s, from) matches Some(triple) ==> {
            &&& from <= triple.0 < triple.2 <= s.len()
            &&& converted(s, triple.0 as int) == Ok::<Token, Error>(triple.1)
            &&& triple.2 == lexeme_end(s, triple.0 as int)
            &&& reaches(s, from, triple.0 as int)
            &&& first_token(s, triple.0 as int) == first_token(s, from)
        },
        tokens_from(s, from) == match first_token(s, from) {
            Some(triple) => seq![triple] + tokens_from(s, triple.2 as int),
            None => Seq::empty(),
        },
    decreases s.len() - from,
{
    if from < s.len() {
        let end = lexeme_end(s, from);
        lemma_lexeme_end_bounds(s, from);
        assert(reaches(s, end, end));
        if converted(s, from) is Err {
            lemma_first_token(s, end);
        }
    }
}

} // verus!
