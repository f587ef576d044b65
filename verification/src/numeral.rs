//! Numerals and the integers they stand for.

use crate::lexeme::{is_digit, MINUS, ZERO};
use crate::token::IntError;
use vstd::prelude::*;

verus! {

/// The number that the digits of `s` write in base ten.
pub open spec fn digits_value(s: Seq<u8>) -> int
    decreases s.len(),
{
    if s.len() == 0 {
        0
    } else {
        10 * digits_value(s.drop_last()) + (s.last() - ZERO)
    }
}

/// Whether `s` starts with `-`.
pub open spec fn is_negative(s: Seq<u8>) -> bool {
    s.len() > 0 && s[0] == MINUS
}

/// The digits of `s`: all of it but the sign.
pub open spec fn numeral_digits(s: Seq<u8>) -> Seq<u8> {
    if is_negative(s) {
        s.skip(1)
    } else {
        s
    }
}

/// Whether `s` is a numeral: an optional `-`, then one or more digits.
pub open spec fn is_numeral(s: Seq<u8>) -> bool {
    &&& numeral_digits(s).len() > 0
    &&& forall|k: int| 0 <= k < numeral_digits(s).len() ==> is_digit(#[trigger] numeral_digits(s)[k])
}

/// The integer that the numeral `s` stands for.
pub open spec fn numeral_value(s: Seq<u8>) -> int {
    if is_negative(s) {
        -digits_value(numeral_digits(s))
    } else {
        digits_value(numeral_digits(s))
    }
}

/// The numeral `s` as an `i32`, or why it is none.
pub open spec fn numeral_result(s: Seq<u8>) -> Result<i32, IntError> {
    let value = numeral_value(s);
    if value > i32::MAX {
        Err(IntError::PosOverflow)
    } else if value < i32::MIN {
        Err(IntError::NegOverflow)
    } else {
        Ok(value as i32)
    }
}

/// One more digit multiplies the value by ten and adds the digit.
pub proof fn lemma_digits_value_step(s: Seq<u8>, from: int, to: int)
    requires
        0 <= from <= to < s.len(),
    ensures
        digits_value(s.subrange(from, to + 1)) == 10 * digits_value(s.subrange(from, to)) + (s[to]
            - ZERO),
{
    assert(s.subrange(from, to + 1).drop_last() =~= s.subrange(from, to));
}

/// Digits write a number that is not negative.
pub proof fn lemma_digits_value_nonnegative(s: Seq<u8>)
    requires
        forall|k: int| 0 <= k < s.len() ==> is_digit(#[trigger] s[k]),
    ensures
        0 <= digits_value(s),
    decreases s.len(),
{
    if s.len() > 0 {
        lemma_digits_value_nonnegative(s.drop_last());
    }
}

/// Reads the numeral `text`: its value if that fits in an `i32`, else on
/// which side it leaves the range.
pub fn parse_numeral(text: &[u8]) -> (r: Result<i32, IntError>)
    requires
        is_numeral(text@),
    ensures
        r == numeral_result(text@),
{
    let negative = text[0] == MINUS;
    let first: usize = if negative {
        1
    } else {
        0
    };
    let limit: i64 = if negative {
        2147483648
    } else {
        2147483647
    };
    proof {
        assert(numeral_digits(text@) =~= text@.subrange(first as int, text@.len() as int));
        assert forall|k: int| first <= k < text@.len() implies is_digit(#[trigger] text@[k]) by {
            assert(numeral_digits(text@)[k - first] == text@[k]);
        }
        assert(text@.subrange(first as int, first as int) =~= Seq::<u8>::empty());
    }
    let mut value: i64 = 0;
    let mut fits = true;
    let mut i: usize = first;
    while i < text.len()
        invariant
            first <= i <= text.len(),
            forall|k: int| first <= k < text@.len() ==> is_digit(#[trigger] text@[k]),
            limit == 2147483648 || limit == 2147483647,
            0 <= value <= limit,
            fits ==> value == digits_value(text@.subrange(first as int, i as int)),
            !fits ==> digits_value(text@.subrange(first as int, i as int)) > limit,
        decreases text.len() - i,
    {
        proof {
            lemma_digits_value_step(text@, first as int, i as int);
        }
        let digit: i64 = (text[i] - ZERO) as i64;
        if fits {
            let longer: i64 = value * 10 + digit;
            if longer > limit {
                fits = false;
            } else {
                value = longer;
            }
        }
        i += 1;
    }
    if !fits {
        if negative {
            Err(IntError::NegOverflow)
        } else {
            Err(IntError::PosOverflow)
        }
    } else if negative {
        Ok((-value) as i32)
    } else {
        Ok(value as i32)
    }
}

} // verus!
