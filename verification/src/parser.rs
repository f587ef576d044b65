//! The parser of the grammar `Expr := Number | Expr '+' Number`.

use crate::expr::{sum_of, Expr};
use crate::lexer::Lexer;
use crate::stream::{
    diagnostics_between, lemma_diagnostics_split, lemma_first_token, lemma_reaches_trans, reaches,
    tokens_from,
};
use crate::token::{Error, Token};
use vstd::prelude::*;
use vstd::string::*;

verus! {

/// Why a sequence of tokens is no sum.
#[derive(Debug, PartialEq, Eq)]
pub enum FatalParseError {
    /// The tokens end where a number has to follow. `location` is the end of
    /// the last token, or 0 where there was none.
    UnrecognizedEof { location: usize },
    /// `token` stands where the grammar has no place for it.
    UnrecognizedToken { token: (usize, Token, usize) },
}

/// Whether the grammar takes `token` as the token of index `index`: a sum has
/// its numbers at the even indices and `+` at the odd ones.
pub open spec fn expected_at(index: int, token: Token) -> bool {
    if index % 2 == 0 {
        token is Number
    } else {
        token is Plus
    }
}

/// The index of the first token at or after `index` that the grammar does not
/// take where it stands; the number of tokens where it takes them all.
pub open spec fn first_unexpected(tokens: Seq<(usize, Token, usize)>, index: int) -> int
    decreases tokens.len() - index,
{
    if 0 <= index < tokens.len() && expected_at(index, tokens[index].1) {
        first_unexpected(tokens, index + 1)
    } else {
        index
    }
}

/// The number that `token` holds.
pub open spec fn number_of(token: Token) -> i32
    recommends
        token is Number,
{
    match token {
        Token::Number(value) => value,
        Token::Plus => 0,
    }
}

/// The numbers among the first `count` tokens of a sum.
pub open spec fn operands(tokens: Seq<(usize, Token, usize)>, count: int) -> Seq<i32> {
    Seq::new(((count + 1) / 2) as nat, |i: int| number_of(tokens[2 * i].1))
}

/// What parsing `tokens` gives.
///
/// A number, then any number of times `+` and a number, is the sum of the
/// numbers grouped to the left. Otherwise the first token that is not taken
/// is the error, or the end where a number is missing.
pub open spec fn parse_tokens(tokens: Seq<(usize, Token, usize)>) -> Result<Expr, FatalParseError> {
    let stop = first_unexpected(tokens, 0);
    if stop < tokens.len() {
        Err(FatalParseError::UnrecognizedToken { token: tokens[stop] })
    } else if tokens.len() % 2 == 0 {
        Err(
            FatalParseError::UnrecognizedEof {
                location: if tokens.len() == 0 {
                    0
                } else {
                    tokens.last().2
                },
            },
        )
    } else {
        Ok(sum_of(operands(tokens, tokens.len() as int)))
    }
}

/// Where the tokenizer stands after parsing from `from`: just after the token
/// that was not taken, or at the end of the text.
pub open spec fn stop_position(s: Seq<u8>, from: int) -> int {
    let tokens = tokens_from(s, from);
    let stop = first_unexpected(tokens, 0);
    if stop < tokens.len() {
        tokens[stop].2 as int
    } else {
        s.len() as int
    }
}

/// Where the lexeme starts that the tokenizer read last while parsing from
/// `from`: the token that was not taken, or nothing at the end of the text.
pub open spec fn stop_span_start(s: Seq<u8>, from: int) -> int {
    let tokens = tokens_from(s, from);
    let stop = first_unexpected(tokens, 0);
    if stop < tokens.len() {
        tokens[stop].0 as int
    } else {
        s.len() as int
    }
}

/// Tokens that are all taken do not hold the first one that is not.
pub proof fn lemma_first_unexpected_skip(tokens: Seq<(usize, Token, usize)>, from: int, to: int)
    requires
        0 <= from <= to <= tokens.len(),
        forall|j: int| from <= j < to ==> expected_at(j, #[trigger] tokens[j].1),
    ensures
        first_unexpected(tokens, from) == first_unexpected(tokens, to),
    decreases to - from,
{
    if from < to {
        lemma_first_unexpected_skip(tokens, from + 1, to);
    }
}

/// The parser. It holds no state of its own.
pub struct ExprParser {}

impl ExprParser {
    /// A parser, ready to parse.
    pub fn new() -> (parser: Self) {
        ExprParser {  }
    }

    /// Parses the tokens that `lexer` gives from where it stands, taking
    /// them one at a time and no more of them than it needs: it stops at the
    /// first token that the grammar does not take. This grammar has no rule
    /// that recovers from an error, so nothing is added to `errors`.
    pub fn parse(&self, errors: &mut Vec<Error>, lexer: &mut Lexer) -> (r: Result<
        Expr,
        FatalParseError,
    >)
        ensures
            final(errors)@ == old(errors)@,
            final(lexer).source() == old(lexer).source(),
            r == parse_tokens(tokens_from(old(lexer).source(), old(lexer).position())),
            final(lexer).position() == stop_position(old(lexer).source(), old(lexer).position()),
            final(lexer).span_start() == stop_span_start(
                old(lexer).source(),
                old(lexer).position(),
            ),
            final(lexer).diagnostics() == old(lexer).diagnostics() + diagnostics_between(
                old(lexer).source(),
                old(lexer).position(),
                final(lexer).position(),
            ),
    {
        let ghost s = lexer.source();
        let ghost from = lexer.position();
        let ghost before = lexer.diagnostics();
        let ghost tokens = tokens_from(s, from);
        let first = lexer.next();
        proof {
            lemma_first_token(s, from);
        }
        let mut sum = match first {
            None => {
                return Err(FatalParseError::UnrecognizedEof { location: 0 });
            },
            Some((start, Token::Plus, end)) => {
                return Err(FatalParseError::UnrecognizedToken { token: (start, Token::Plus, end) });
            },
            Some((_, Token::Number(value), _)) => Expr::Number(value),
        };
        let ghost mut count: int = 1;
        proof {
            assert(tokens.skip(1) =~= tokens_from(s, lexer.position()));
            assert(operands(tokens, 1) =~= seq![number_of(tokens[0].1)]);
        }
        loop
            invariant
                s == old(lexer).source(),
                from == old(lexer).position(),
                before == old(lexer).diagnostics(),
                tokens == tokens_from(s, from),
                *errors == *old(errors),
                lexer.source() == s,
                0 <= from <= lexer.position() <= s.len() <= usize::MAX,
                reaches(s, from, lexer.position()),
                lexer.diagnostics() == before + diagnostics_between(s, from, lexer.position()),
                1 <= count <= tokens.len(),
                count % 2 == 1,
                forall|j: int| 0 <= j < count ==> expected_at(j, #[trigger] tokens[j].1),
                tokens.skip(count) == tokens_from(s, lexer.position()),
                sum == sum_of(operands(tokens, count)),
            decreases tokens.len() - count,
        {
            let ghost here = lexer.position();
            let plus = lexer.next();
            proof {
                lemma_first_token(s, here);
                lemma_diagnostics_split(s, from, here, lexer.position());
                lemma_reaches_trans(s, from, here, lexer.position());
                lemma_first_unexpected_skip(tokens, 0, count);
                assert(tokens.skip(count).len() == tokens.len() - count);
                if plus is Some {
                    assert(tokens.skip(count) == seq![plus->0] + tokens_from(s, lexer.position()));
                    assert(tokens[count] == tokens.skip(count)[0]);
                }
            }
            let plus_end = match plus {
                None => {
                    return Ok(sum);
                },
                Some((start, Token::Number(value), end)) => {
                    return Err(
                        FatalParseError::UnrecognizedToken {
                            token: (start, Token::Number(value), end),
                        },
                    );
                },
                Some((_, Token::Plus, end)) => end,
            };
            let ghost there = lexer.position();
            proof {
                assert(tokens.skip(count + 1) =~= tokens.skip(count).skip(1));
                assert(tokens.skip(count + 1) =~= tokens_from(s, there));
                lemma_first_unexpected_skip(tokens, 0, count + 1);
            }
            let number = lexer.next();
            proof {
                lemma_first_token(s, there);
                lemma_diagnostics_split(s, from, there, lexer.position());
                lemma_reaches_trans(s, from, there, lexer.position());
                assert(tokens.skip(count + 1).len() == tokens.len() - (count + 1));
                if number is Some {
                    assert(tokens.skip(count + 1) == seq![number->0] + tokens_from(
                        s,
                        lexer.position(),
                    ));
                    assert(tokens[count + 1] == tokens.skip(count + 1)[0]);
                }
            }
            match number {
                None => {
                    return Err(FatalParseError::UnrecognizedEof { location: plus_end });
                },
                Some((start, Token::Plus, end)) => {
                    return Err(
                        FatalParseError::UnrecognizedToken { token: (start, Token::Plus, end) },
                    );
                },
                Some((_, Token::Number(value), _)) => {
                    proof {
                        assert(tokens.skip(count + 2) =~= tokens.skip(count + 1).skip(1));
                        assert(operands(tokens, count + 2) =~= operands(tokens, count).push(value));
                        assert(operands(tokens, count + 2).drop_last() =~= operands(tokens, count));
                        count = count + 2;
                    }
                    sum = Expr::Add(Box::new(sum), Box::new(Expr::Number(value)));
                },
            }
        }
    }
}

/// Parses `input` as a sum. Gives the tree or why there is none, and the
/// diagnostics of the lexemes that gave no token, in the order of the text.
/// The text after a token that the grammar does not take is not read, and so
/// gives no diagnostics.
pub fn parse_str(input: &str) -> (r: (Result<Expr, FatalParseError>, Vec<Error>))
    ensures
        r.0 == parse_tokens(tokens_from(input.spec_bytes(), 0)),
        r.1@ == diagnostics_between(input.spec_bytes(), 0, stop_position(input.spec_bytes(), 0)),
{
    let mut lexer = Lexer::new(input);
    let mut errors: Vec<Error> = Vec::new();
    let result = ExprParser::new().parse(&mut errors, &mut lexer);
    let mut lexical = lexer.into_errors();
    errors.append(&mut lexical);
    (result, errors)
}

} // verus!
