//! The shape of a numeric literal.
//!
//! A literal is an optional minus sign, digits with an optional decimal
//! point among them (at least one digit on one side of the point), and an
//! optional exponent: the letter `e` followed by at least one digit.  This is
//! the decimal syntax that the standard library documents for converting text
//! to a binary floating-point number, cut down to the bytes that the
//! tokenizer lets into a numeric run.

use vstd::prelude::*;

verus! {

pub const MINUS: u8 = 45;

pub const POINT: u8 = 46;

pub const DIGIT_ZERO: u8 = 48;

pub const DIGIT_NINE: u8 = 57;

pub const EXPONENT_MARK: u8 = 101;

/// An ASCII decimal digit.
pub open spec fn is_digit(b: u8) -> bool {
    DIGIT_ZERO <= b <= DIGIT_NINE
}

/// Every byte of `s` is a decimal digit.
pub open spec fn all_digits(s: Seq<u8>) -> bool {
    forall|k: int| 0 <= k < s.len() ==> is_digit(#[trigger] s[k])
}

/// The index at which the run of digits that starts at `i` ends: the first
/// index at or after `i` that holds no digit, or the length of `s`.
pub open spec fn digits_end(s: Seq<u8>, i: int) -> int
    decreases s.len() - i,
{
    if 0 <= i < s.len() && is_digit(s[i]) {
        digits_end(s, i + 1)
    } else {
        i
    }
}

/// Where the integer digits begin: after the minus sign, if there is one.
pub open spec fn after_sign(s: Seq<u8>) -> int {
    if s.len() > 0 && s[0] == MINUS {
        1
    } else {
        0
    }
}

/// Where the fraction digits begin: after the decimal point, if one follows
/// the integer digits.
pub open spec fn after_point(s: Seq<u8>) -> int {
    let b = digits_end(s, after_sign(s));
    if b < s.len() && s[b] == POINT {
        b + 1
    } else {
        b
    }
}

/// Where the exponent digits begin: after the exponent mark, if one follows
/// the mantissa.
pub open spec fn after_mark(s: Seq<u8>) -> int {
    let d = digits_end(s, after_point(s));
    if d < s.len() && s[d] == EXPONENT_MARK {
        d + 1
    } else {
        d
    }
}

/// `s` is a well-formed numeric literal.
pub open spec fn is_number_literal(s: Seq<u8>) -> bool {
    let a = after_sign(s);
    let b = digits_end(s, a);
    let c = after_point(s);
    let d = digits_end(s, c);
    let e = after_mark(s);
    let f = digits_end(s, e);
    &&& (b - a) + (d - c) >= 1
    &&& e > d ==> f > e
    &&& f == s.len()
}

/// What `digits_end` returns: the run `[i, end)` holds digits only, and it
/// stops at the end of `s` or at a byte that is no digit.
pub proof fn lemma_digits_end(s: Seq<u8>, i: int)
    requires
        0 <= i <= s.len(),
    ensures
        i <= digits_end(s, i) <= s.len(),
        forall|k: int| i <= k < digits_end(s, i) ==> is_digit(#[trigger] s[k]),
        digits_end(s, i) < s.len() ==> !is_digit(s[digits_end(s, i)]),
    decreases s.len() - i,
{
    if i < s.len() && is_digit(s[i]) {
        lemma_digits_end(s, i + 1);
    }
}

/// A run of digits that is followed by the end of `s`, or by a byte that is
/// no digit, is the run that `digits_end` finds.
pub proof fn lemma_digits_end_is(s: Seq<u8>, i: int, end: int)
    requires
        0 <= i <= end <= s.len(),
        forall|k: int| i <= k < end ==> is_digit(#[trigger] s[k]),
        end < s.len() ==> !is_digit(s[end]),
    ensures
        digits_end(s, i) == end,
    decreases end - i,
{
    if i < end {
        lemma_digits_end_is(s, i + 1, end);
    }
}

/// Skips the digits of `s` from `i` on, and returns where they end.
fn skip_digits(s: &[u8], i: usize) -> (end: usize)
    requires
        i <= s@.len(),
    ensures
        end == digits_end(s@, i as int),
        i <= end <= s@.len(),
{
    let mut j: usize = i;
    while j < s.len() && DIGIT_ZERO <= s[j] && s[j] <= DIGIT_NINE
        invariant
            i <= j <= s@.len(),
            digits_end(s@, i as int) == digits_end(s@, j as int),
        decreases s@.len() - j,
    {
        j = j + 1;
    }
    j
}

/// Tells whether `s` is a well-formed numeric literal.
pub fn check_number(s: &[u8]) -> (ok: bool)
    ensures
        ok == is_number_literal(s@),
{
    let n: usize = s.len();
    let a: usize = if n > 0 && s[0] == MINUS {
        1
    } else {
        0
    };
    let b: usize = skip_digits(s, a);
    let c: usize = if b < n && s[b] == POINT {
        b + 1
    } else {
        b
    };
    let d: usize = skip_digits(s, c);
    let e: usize = if d < n && s[d] == EXPONENT_MARK {
        d + 1
    } else {
        d
    };
    let f: usize = skip_digits(s, e);
    (b - a) + (d - c) >= 1 && (e == d || f > e) && f == n
}

} // verus!
