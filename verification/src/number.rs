//! Decimal numerals: what a numeral's text is worth, and reading one into a
//! machine integer.

use crate::text::{chars_of, is_decimal_digit, is_digit};
use vstd::prelude::*;

verus! {

/// What the digit `c` is worth.
pub open spec fn digit_value(c: char) -> int {
    c as int - '0' as int
}

/// Whether `text` holds decimal digits and nothing else.
pub open spec fn all_digits(text: Seq<char>) -> bool {
    forall|i: int| 0 <= i < text.len() ==> is_digit(#[trigger] text[i])
}

/// What a run of decimal digits is worth, read in base ten with the most
/// significant digit first. The empty run is worth nothing.
pub open spec fn decimal_value(digits: Seq<char>) -> int
    decreases digits.len(),
{
    if digits.len() == 0 {
        0
    } else {
        10 * decimal_value(digits.drop_last()) + digit_value(digits.last())
    }
}

/// Whether `text` begins with a sign.
pub open spec fn has_sign(text: Seq<char>) -> bool {
    text.len() > 0 && (text[0] == '+' || text[0] == '-')
}

/// The digits of a numeral: its text without the sign, if it has one.
pub open spec fn numeral_digits(text: Seq<char>) -> Seq<char> {
    if has_sign(text) {
        text.drop_first()
    } else {
        text
    }
}

/// What the numeral `text` is worth, if it is one: an optional `+` or `-`
/// followed by at least one decimal digit and nothing else.
pub open spec fn numeral_value(text: Seq<char>) -> Option<int> {
    let digits = numeral_digits(text);
    if digits.len() == 0 || !all_digits(digits) {
        None
    } else if text[0] == '-' {
        Some(-decimal_value(digits))
    } else {
        Some(decimal_value(digits))
    }
}

/// The 32-bit integer that the numeral `text` denotes, if `text` is a numeral
/// and what it is worth fits.
pub open spec fn spec_parse_number(text: Seq<char>) -> Option<i32> {
    match numeral_value(text) {
        Some(value) => if i32::MIN <= value <= i32::MAX {
            Some(value as i32)
        } else {
            None
        },
        None => None,
    }
}

/// A run of digits is worth at least as much as each run that it begins
/// with, and no run is worth less than nothing.
pub proof fn lemma_decimal_value_grows(digits: Seq<char>, n: int)
    requires
        all_digits(digits),
        0 <= n <= digits.len(),
    ensures
        0 <= decimal_value(digits.take(n)) <= decimal_value(digits),
    decreases digits.len() - n,
{
    if n == digits.len() {
        assert(digits.take(n) =~= digits);
        lemma_decimal_value_nonnegative(digits);
    } else {
        lemma_decimal_value_grows(digits, n + 1);
        let longer = digits.take(n + 1);
        assert(longer.drop_last() =~= digits.take(n));
        assert(is_digit(digits[n]));
        assert(longer.last() == digits[n]);
        lemma_decimal_value_nonnegative(digits.take(n));
    }
}

/// No run of digits is worth less than nothing.
pub proof fn lemma_decimal_value_nonnegative(digits: Seq<char>)
    requires
        all_digits(digits),
    ensures
        0 <= decimal_value(digits),
    decreases digits.len(),
{
    if digits.len() > 0 {
        lemma_decimal_value_nonnegative(digits.drop_last());
        assert(is_digit(digits[digits.len() - 1]));
    }
}

/// Reads a numeral: an optional sign and decimal digits.
///
/// Returns the integer that `lexeme` denotes, or `None` where `lexeme` is no
/// numeral or denotes an integer outside the range of `i32`.
pub fn parse_number(lexeme: &str) -> (result: Option<i32>)
    ensures
        result == spec_parse_number(lexeme@),
{
    let chars = chars_of(lexeme);
    let n = chars.len();
    if n == 0 {
        return None;
    }
    let negative = chars[0] == '-';
    let first: usize = if chars[0] == '-' || chars[0] == '+' {
        1
    } else {
        0
    };
    if first == n {
        return None;
    }
    let ghost digits = numeral_digits(lexeme@);
    assert(digits =~= chars@.subrange(first as int, n as int));
    let mut magnitude: i64 = 0;
    let mut i: usize = first;
    assert(digits.take(0) =~= Seq::<char>::empty());
    while i < n
        invariant
            n == chars.len(),
            first <= i <= n,
            digits == chars@.subrange(first as int, n as int),
            digits == numeral_digits(lexeme@),
            digits.len() > 0,
            all_digits(digits.take(i - first)),
            magnitude == decimal_value(digits.take(i - first)),
            0 <= magnitude <= i32::MAX + 1,
        decreases n - i,
    {
        let c = chars[i];
        if !is_decimal_digit(c) {
            assert(!is_digit(digits[i - first]));
            return None;
        }
        let digit = (c as u32 - '0' as u32) as i64;
        magnitude = magnitude * 10 + digit;
        proof {
            let longer = digits.take(i - first + 1);
            assert(longer.drop_last() =~= digits.take(i - first));
            assert(longer.last() == c);
            assert forall|k: int| 0 <= k < longer.len() implies is_digit(#[trigger] longer[k]) by {
                if k < i - first {
                    assert(longer[k] == digits.take(i - first)[k]);
                }
            }
        }
        if magnitude > i32::MAX as i64 + 1 {
            proof {
                if all_digits(digits) {
                    lemma_decimal_value_grows(digits, i - first + 1);
                }
            }
            return None;
        }
        i += 1;
    }
    assert(digits.take(n - first) =~= digits);
    let value = if negative {
        -magnitude
    } else {
        magnitude
    };
    if value > i32::MAX as i64 {
        None
    } else {
        Some(value as i32)
    }
}

} // verus!
