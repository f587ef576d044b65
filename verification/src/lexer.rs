//! The tokenizer: one forward pass over a text, a token at a time.

use crate::lexeme::{lemma_lexeme_end_bounds, lexeme_end};
use crate::numeral::{is_numeral, parse_numeral};
use crate::scanner::Scanner;
use crate::stream::{
    conversion, diagnostics_between, first_token, first_token_end, lemma_diagnostics_split,
    lemma_number_is_numeral, reaches,
};
use crate::token::{Error, LogosToken, Token};
use vstd::prelude::*;
use vstd::string::*;

verus! {

/// A tokenizer over a text that it borrows.
///
/// It holds the scanner that reads the text, and the diagnostics of all the
/// lexemes so far that gave no token.
pub struct Lexer<'i> {
    scanner: Scanner<'i>,
    errors: Vec<Error>,
}

impl<'i> Lexer<'i> {
    /// The bytes of the text.
    pub closed spec fn source(&self) -> Seq<u8> {
        self.scanner.source()
    }

    /// Where the lexeme read last starts.
    pub closed spec fn span_start(&self) -> int {
        self.scanner.span_start()
    }

    /// Where the lexeme read last ends, which is where the next one starts.
    pub closed spec fn position(&self) -> int {
        self.scanner.position()
    }

    /// The text of the lexeme read last.
    pub open spec fn lexeme(&self) -> Seq<u8> {
        self.source().subrange(self.span_start(), self.position())
    }

    /// The diagnostics recorded so far, oldest first.
    pub closed spec fn diagnostics(&self) -> Seq<Error> {
        self.errors@
    }

    /// A tokenizer at the start of `input`, with no diagnostics.
    pub fn new(input: &'i str) -> (lexer: Self)
        ensures
            lexer.source() == input.spec_bytes(),
            lexer.span_start() == 0,
            lexer.position() == 0,
            lexer.diagnostics() == Seq::<Error>::empty(),
    {
        Lexer { scanner: Scanner::new(input), errors: Vec::new() }
    }

    /// Converts the lexeme read last, which the scanner found to be of kind
    /// `token`: `+` gives a token, a numeral gives one if it fits in an
    /// `i32`, and anything else gives a diagnostic over the lexeme's span.
    pub fn convert(&mut self, token: LogosToken) -> (r: Result<Token, Error>)
        requires
            token == LogosToken::Number ==> is_numeral(old(self).lexeme()),
        ensures
            *final(self) == *old(self),
            r == conversion(token, old(self).span_start(), old(self).position(), old(self).lexeme()),
    {
        match token {
            LogosToken::Error => Err(Error::InvalidToken(self.scanner.span())),
            LogosToken::Plus => Ok(Token::Plus),
            LogosToken::Number => {
                match parse_numeral(self.scanner.slice()) {
                    Ok(value) => Ok(Token::Number(value)),
                    Err(cause) => Err(Error::InvalidInt(self.scanner.span(), cause)),
                }
            },
        }
    }

    /// Gives the next token with its span, or `None` when the text holds no
    /// further token. Each lexeme passed over on the way is recorded as a
    /// diagnostic. Once it has given `None` it is at the end of the text, and
    /// from there it gives `None` again and records nothing.
    pub fn next(&mut self) -> (r: Option<(usize, Token, usize)>)
        ensures
            final(self).source() == old(self).source(),
            0 <= old(self).position() <= old(self).source().len() <= usize::MAX,
            r == first_token(old(self).source(), old(self).position()),
            final(self).position() == first_token_end(old(self).source(), old(self).position()),
            final(self).diagnostics() == old(self).diagnostics() + diagnostics_between(
                old(self).source(),
                old(self).position(),
                final(self).position(),
            ),
            r matches Some(triple) ==> final(self).span_start() == triple.0,
            r is None ==> final(self).span_start() == final(self).position(),
            r is None ==> final(self).position() == final(self).source().len(),
            old(self).position() == old(self).source().len() ==> r is None,
    {
        let ghost s = self.source();
        let ghost from = self.position();
        let ghost before = self.errors@;
        proof {
            assert(diagnostics_between(s, from, from) =~= Seq::<Error>::empty());
            assert(before + Seq::<Error>::empty() =~= before);
        }
        loop
            invariant
                s == old(self).source(),
                from == old(self).position(),
                before == old(self).diagnostics(),
                self.source() == s,
                first_token(s, self.position()) == first_token(s, from),
                reaches(s, from, self.position()),
                self.errors@ == before + diagnostics_between(s, from, self.position()),
            decreases s.len() - self.position(),
        {
            let ghost here = self.position();
            match self.scanner.scan() {
                None => {
                    return None;
                },
                Some(kind) => {
                    proof {
                        lemma_lexeme_end_bounds(s, here);
                        if kind == LogosToken::Number {
                            lemma_number_is_numeral(s, here);
                        }
                        lemma_diagnostics_split(s, from, here, self.position());
                        lemma_reaches_step(s, from, here);
                    }
                    match self.convert(kind) {
                        Ok(token) => {
                            let span = self.scanner.span();
                            return Some((span.start, token, span.end));
                        },
                        Err(error) => {
                            self.errors.push(error);
                            proof {
                                assert(diagnostics_between(s, here, self.position()) =~= seq![
                                    error,
                                ]);
                                assert(self.errors@ =~= before + diagnostics_between(
                                    s,
                                    from,
                                    self.position(),
                                ));
                            }
                        },
                    }
                },
            }
        }
    }

    /// Gives up the tokenizer for the diagnostics it has recorded.
    pub fn into_errors(self) -> (errors: Vec<Error>)
        ensures
            errors@ == self.diagnostics(),
    {
        self.errors
    }
}

/// A stretch of lexemes and the lexeme after it are a stretch of lexemes.
proof fn lemma_reaches_step(s: Seq<u8>, from: int, here: int)
    requires
        reaches(s, from, here),
        0 <= here < s.len(),
    ensures
        reaches(s, from, lexeme_end(s, here)),
    decreases here - from,
{
    lemma_lexeme_end_bounds(s, here);
    if from < here {
        lemma_lexeme_end_bounds(s, from);
        lemma_reaches_step(s, lexeme_end(s, from), here);
    } else {
        assert(reaches(s, lexeme_end(s, here), lexeme_end(s, here)));
    }
}

} // verus!
