//! What holds of the tokenizer and the parser on every text.

use crate::expr::{sum_of, Expr};
use crate::lexeme::{
    boundary_from, is_digit, lemma_digits_end_is, lemma_lexeme_end_bounds, lexeme_end, lexeme_kind,
    MINUS, PLUS,
};
use crate::numeral::{
    digits_value, is_numeral, lemma_digits_value_nonnegative, numeral_digits, numeral_result,
    numeral_value,
};
use crate::parser::{
    expected_at, lemma_first_unexpected_skip, number_of, operands, parse_tokens, stop_position,
    FatalParseError,
};
use crate::stream::{
    converted, diagnostics_between, first_token, first_token_end, lemma_number_is_numeral,
    tokens_from,
};
use crate::token::{span_of, Error, IntError, LogosToken, Token};
use vstd::prelude::*;

verus! {

/// The text that writes `numerals` with a `+` between each two.
pub open spec fn sum_text(numerals: Seq<Seq<u8>>) -> Seq<u8>
    decreases numerals.len(),
{
    if numerals.len() == 0 {
        Seq::empty()
    } else if numerals.len() == 1 {
        numerals[0]
    } else {
        numerals[0] + seq![PLUS] + sum_text(numerals.drop_first())
    }
}

/// One number token over each of `numerals` and one `+` token between each
/// two, with the spans they have where the text starts at `at`.
pub open spec fn sum_tokens(numerals: Seq<Seq<u8>>, at: int) -> Seq<(usize, Token, usize)>
    decreases numerals.len(),
{
    if numerals.len() == 0 {
        Seq::empty()
    } else {
        let end = at + numerals[0].len();
        let number = (at as usize, Token::Number(numeral_value(numerals[0]) as i32), end as usize);
        if numerals.len() == 1 {
            seq![number]
        } else {
            seq![number, (end as usize, Token::Plus, (end + 1) as usize)] + sum_tokens(
                numerals.drop_first(),
                end + 1,
            )
        }
    }
}

/// The integers that `numerals` stand for.
pub open spec fn values_of(numerals: Seq<Seq<u8>>) -> Seq<i32> {
    Seq::new(numerals.len(), |i: int| numeral_value(numerals[i]) as i32)
}

/// Whether each of `numerals` is a numeral that fits in an `i32`.
pub open spec fn all_fit(numerals: Seq<Seq<u8>>) -> bool {
    forall|i: int|
        0 <= i < numerals.len() ==> is_numeral(#[trigger] numerals[i]) && i32::MIN
            <= numeral_value(numerals[i]) <= i32::MAX
}

/// Whether `run` is one or more digits that write a number no greater than
/// `i32::MAX`.
pub open spec fn is_digit_run_in_range(run: Seq<u8>) -> bool {
    &&& run.len() > 0
    &&& forall|k: int| 0 <= k < run.len() ==> is_digit(#[trigger] run[k])
    &&& digits_value(run) <= i32::MAX
}

/// Where a text ends in numerals with `+` between them, scanning from there
/// gives one token for each numeral and each `+`, over exactly its bytes, and
/// no diagnostic.
pub proof fn lemma_sum_scans(s: Seq<u8>, at: int, numerals: Seq<Seq<u8>>)
    requires
        0 <= at <= s.len() <= usize::MAX,
        s.skip(at) == sum_text(numerals),
        all_fit(numerals),
    ensures
        tokens_from(s, at) == sum_tokens(numerals, at),
        diagnostics_between(s, at, s.len() as int) == Seq::<Error>::empty(),
    decreases numerals.len(),
{
    if numerals.len() == 0 {
        assert(s.skip(at).len() == 0);
    } else {
        let first = numerals[0];
        let end = at + first.len();
        let rest = numerals.drop_first();
        assert(is_numeral(first));
        assert(all_fit(rest)) by {
            assert forall|i: int| 0 <= i < rest.len() implies is_numeral(#[trigger] rest[i])
                && i32::MIN <= numeral_value(rest[i]) <= i32::MAX by {
                assert(rest[i] == numerals[i + 1]);
            }
        }
        assert(s.skip(at).len() == s.len() - at);
        if numerals.len() == 1 {
            assert(end == s.len());
        } else {
            assert(s.skip(at) == first + seq![PLUS] + sum_text(rest));
            assert(end < s.len());
            assert(s[end] == s.skip(at)[end - at]);
            assert(s[end] == PLUS);
            assert(s.skip(end + 1) =~= sum_text(rest)) by {
                assert(s.skip(end + 1).len() == sum_text(rest).len());
                assert forall|k: int| 0 <= k < sum_text(rest).len() implies s.skip(end + 1)[k]
                    == sum_text(rest)[k] by {
                    assert(s.skip(end + 1)[k] == s.skip(at)[end + 1 + k - at]);
                }
            }
        }
        assert forall|k: int| 0 <= k < first.len() implies s[at + k] == first[k] by {
            assert(s[at + k] == s.skip(at)[k]);
        }
        assert(s.subrange(at, end) =~= first);
        assert(first.len() > 0);
        assert(s[at] == first[0]);
        if first[0] == MINUS {
            assert(numeral_digits(first).len() > 0);
            assert(numeral_digits(first)[0] == first[1]);
            assert(s[at + 1] == first[1]);
        } else {
            assert(numeral_digits(first)[0] == first[0]);
        }
        assert forall|k: int| at + 1 <= k < end implies is_digit(#[trigger] s[k]) by {
            assert(s[k] == first[k - at]);
            if first[0] == MINUS {
                assert(numeral_digits(first)[k - at - 1] == first[k - at]);
            } else {
                assert(numeral_digits(first)[k - at] == first[k - at]);
            }
        }
        lemma_digits_end_is(s, at + 1, end);
        assert(lexeme_kind(s, at) == LogosToken::Number);
        assert(lexeme_end(s, at) == end);
        assert(converted(s, at) == Ok::<Token, Error>(
            Token::Number(numeral_value(first) as i32),
        ));
        if numerals.len() == 1 {
            assert(tokens_from(s, end) =~= Seq::empty());
            assert(tokens_from(s, at) =~= sum_tokens(numerals, at));
        } else {
            lemma_sum_scans(s, end + 1, rest);
            assert(lexeme_kind(s, end) == LogosToken::Plus);
            assert(converted(s, end) == Ok::<Token, Error>(Token::Plus));
            assert(tokens_from(s, end) =~= seq![(end as usize, Token::Plus, (end + 1) as usize)]
                + sum_tokens(rest, end + 1));
            assert(tokens_from(s, at) =~= sum_tokens(numerals, at));
            assert(diagnostics_between(s, end, s.len() as int) =~= Seq::<Error>::empty());
        }
    }
}

/// The tokens of a sum are all where the grammar takes them, they are an
/// odd number, and their numbers are the values of the numerals.
pub proof fn lemma_sum_tokens_are_taken(numerals: Seq<Seq<u8>>, at: int)
    requires
        numerals.len() > 0,
    ensures
        sum_tokens(numerals, at).len() == 2 * numerals.len() - 1,
        forall|j: int|
            0 <= j < sum_tokens(numerals, at).len() ==> expected_at(
                j,
                #[trigger] sum_tokens(numerals, at)[j].1,
            ),
        forall|i: int|
            0 <= i < numerals.len() ==> number_of(#[trigger] sum_tokens(numerals, at)[2 * i].1)
                == numeral_value(numerals[i]) as i32,
        sum_tokens(numerals, at).last().2 == (at + sum_text(numerals).len()) as usize,
    decreases numerals.len(),
{
    let tokens = sum_tokens(numerals, at);
    if numerals.len() > 1 {
        let rest = numerals.drop_first();
        let end = at + numerals[0].len();
        let tail = sum_tokens(rest, end + 1);
        lemma_sum_tokens_are_taken(rest, end + 1);
        assert forall|j: int| 0 <= j < tokens.len() implies expected_at(
            j,
            #[trigger] tokens[j].1,
        ) by {
            if j >= 2 {
                assert(tokens[j] == tail[j - 2]);
                assert(expected_at(j - 2, tail[j - 2].1));
            }
        }
        assert forall|i: int| 0 <= i < numerals.len() implies number_of(
            #[trigger] tokens[2 * i].1,
        ) == numeral_value(numerals[i]) as i32 by {
            if i >= 1 {
                assert(tokens[2 * i] == tail[2 * (i - 1)]);
                assert(rest[i - 1] == numerals[i]);
            }
        }
        assert(tokens.last() == tail.last());
    }
}

/// A text of digit runs with a `+` between each two gives one number token
/// over each run and one `+` token over each `+`, and no diagnostic, provided
/// each run writes a number that fits in an `i32`.
pub proof fn law_digit_runs_and_pluses_give_their_tokens(runs: Seq<Seq<u8>>)
    requires
        forall|i: int| 0 <= i < runs.len() ==> is_digit_run_in_range(#[trigger] runs[i]),
        sum_text(runs).len() <= usize::MAX,
    ensures
        tokens_from(sum_text(runs), 0) == sum_tokens(runs, 0),
        diagnostics_between(sum_text(runs), 0, sum_text(runs).len() as int) == Seq::<
            Error,
        >::empty(),
        forall|i: int|
            0 <= i < runs.len() ==> numeral_value(#[trigger] runs[i]) == digits_value(runs[i]),
{
    let s = sum_text(runs);
    assert(s.skip(0) =~= s);
    assert forall|i: int| 0 <= i < runs.len() implies is_numeral(#[trigger] runs[i]) && i32::MIN
        <= numeral_value(runs[i]) <= i32::MAX && numeral_value(runs[i]) == digits_value(
        runs[i],
    ) by {
        assert(is_digit_run_in_range(runs[i]));
        assert(is_digit(runs[i][0]));
        lemma_digits_value_nonnegative(runs[i]);
    }
    lemma_sum_scans(s, 0, runs);
}

/// A text `n0+n1+...+nk` of numerals that fit in an `i32` parses to the sum
/// of their values grouped to the left, `(..(n0 + n1) + ..) + nk`, with no
/// diagnostic.
pub proof fn law_sum_parses_to_the_left(numerals: Seq<Seq<u8>>)
    requires
        numerals.len() > 0,
        all_fit(numerals),
        sum_text(numerals).len() <= usize::MAX,
    ensures
        parse_tokens(tokens_from(sum_text(numerals), 0)) == Ok::<Expr, FatalParseError>(
            sum_of(values_of(numerals)),
        ),
        stop_position(sum_text(numerals), 0) == sum_text(numerals).len(),
        diagnostics_between(sum_text(numerals), 0, stop_position(sum_text(numerals), 0)) == Seq::<
            Error,
        >::empty(),
{
    let s = sum_text(numerals);
    let tokens = tokens_from(s, 0);
    assert(s.skip(0) =~= s);
    lemma_sum_scans(s, 0, numerals);
    lemma_sum_tokens_are_taken(numerals, 0);
    lemma_first_unexpected_skip(tokens, 0, tokens.len() as int);
    assert(operands(tokens, tokens.len() as int) =~= values_of(numerals));
}

/// A character that is no digit, `+` or `-` is one lexeme in all its bytes,
/// and gives the diagnostic `InvalidToken` over them and no token.
pub proof fn law_unknown_character_is_invalid_token(s: Seq<u8>, start: int)
    requires
        0 <= start < s.len(),
        !is_digit(s[start]),
        s[start] != PLUS,
        s[start] != MINUS,
    ensures
        lexeme_end(s, start) == boundary_from(s, start + 1),
        converted(s, start) == Err::<Token, Error>(
            Error::InvalidToken(span_of(start, boundary_from(s, start + 1))),
        ),
        first_token(s, start) == first_token(s, lexeme_end(s, start)),
{
    lemma_lexeme_end_bounds(s, start);
}

/// A numeral that does not fit in an `i32` gives the diagnostic `InvalidInt`
/// over its span and no token.
pub proof fn law_numeral_out_of_range_is_invalid_int(s: Seq<u8>, start: int)
    requires
        0 <= start < s.len(),
        lexeme_kind(s, start) == LogosToken::Number,
        numeral_result(s.subrange(start, lexeme_end(s, start))) is Err,
    ensures
        converted(s, start) == Err::<Token, Error>(
            Error::InvalidInt(
                span_of(start, lexeme_end(s, start)),
                if s[start] == MINUS {
                    IntError::NegOverflow
                } else {
                    IntError::PosOverflow
                },
            ),
        ),
        first_token(s, start) == first_token(s, lexeme_end(s, start)),
{
    lemma_lexeme_end_bounds(s, start);
    let text = s.subrange(start, lexeme_end(s, start));
    assert(text[0] == s[start]);
    lemma_number_is_numeral(s, start);
    lemma_digits_value_nonnegative(numeral_digits(text));
}

/// At the end of the text there is no token, the position stays, and nothing
/// is recorded: a tokenizer that has come to the end stays there.
pub proof fn law_end_of_text_is_final(s: Seq<u8>)
    ensures
        first_token(s, s.len() as int) is None,
        first_token_end(s, s.len() as int) == s.len(),
        diagnostics_between(s, s.len() as int, s.len() as int) == Seq::<Error>::empty(),
{
}

} // verus!
