//! The scanner: a position in a text that moves forward a lexeme at a time.

use crate::lexeme::{lex, lexeme_end, lexeme_kind};
use crate::token::{span_of, LogosToken, Span};
use std::ops::Range;
use vstd::prelude::*;
use vstd::string::*;

verus! {

/// A position in a text that it borrows, with the span of the lexeme read
/// last.
pub struct Scanner<'i> {
    source: &'i [u8],
    token_start: usize,
    token_end: usize,
}

impl<'i> Scanner<'i> {
    #[verifier::type_invariant]
    spec fn in_bounds(self) -> bool {
        self.token_start <= self.token_end <= self.source@.len()
    }

    /// The bytes of the text.
    pub closed spec fn source(&self) -> Seq<u8> {
        self.source@
    }

    /// Where the lexeme read last starts.
    pub closed spec fn span_start(&self) -> int {
        self.token_start as int
    }

    /// Where the lexeme read last ends, which is where the next one starts.
    pub closed spec fn position(&self) -> int {
        self.token_end as int
    }

    /// The text of the lexeme read last.
    pub open spec fn lexeme(&self) -> Seq<u8> {
        self.source().subrange(self.span_start(), self.position())
    }

    /// A scanner at the start of `input`, with an empty span.
    pub fn new(input: &'i str) -> (scanner: Self)
        ensures
            scanner.source() == input.spec_bytes(),
            scanner.span_start() == 0,
            scanner.position() == 0,
    {
        Scanner { source: input.as_bytes(), token_start: 0, token_end: 0 }
    }

    /// The span of the lexeme read last.
    pub fn span(&self) -> (r: Span)
        ensures
            r == span_of(self.span_start(), self.position()),
            0 <= self.span_start() <= self.position() <= self.source().len() <= usize::MAX,
    {
        proof {
            use_type_invariant(self);
            assert(self.source.len() == self.source@.len());
        }
        Range { start: self.token_start, end: self.token_end }
    }

    /// The text of the lexeme read last.
    pub fn slice(&self) -> (r: &'i [u8])
        ensures
            r@ == self.lexeme(),
    {
        proof {
            use_type_invariant(self);
        }
        vstd::slice::slice_subrange(self.source, self.token_start, self.token_end)
    }

    /// Reads the next lexeme and gives its kind; `None` at the end of the
    /// text. The span is then that of this lexeme; at the end it is empty.
    pub fn scan(&mut self) -> (r: Option<LogosToken>)
        ensures
            final(self).source() == old(self).source(),
            final(self).span_start() == old(self).position(),
            0 <= old(self).position() <= old(self).source().len() <= usize::MAX,
            old(self).position() < old(self).source().len() ==> {
                &&& r == Some(lexeme_kind(old(self).source(), old(self).position()))
                &&& final(self).position() == lexeme_end(old(self).source(), old(self).position())
            },
            old(self).position() == old(self).source().len() ==> {
                &&& r is None
                &&& final(self).position() == old(self).position()
            },
    {
        proof {
            use_type_invariant(&*self);
        }
        self.token_start = self.token_end;
        if self.token_end < self.source.len() {
            let (kind, end) = lex(self.source, self.token_end);
            self.token_end = end;
            Some(kind)
        } else {
            None
        }
    }
}

} // verus!
