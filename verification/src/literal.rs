//! The two kinds of operand: locations and values.
//!
//! A location is a decimal integer that fits in 32 bits, with an optional `+` in front.
//! A value is a floating-point literal:
//!
//! ```text
//! Value  ::= Sign? ( 'inf' | 'infinity' | 'nan' | Number )
//! Number ::= ( Digit+ | Digit+ '.' Digit* | Digit* '.' Digit+ ) Exp?
//! Exp    ::= 'e' Sign? Digit+
//! Sign   ::= [+-]
//! Digit  ::= [0-9]
//! ```
//!
//! where letters match without regard to case. This module decides whether a token is such a
//! literal; it does not compute the number the literal stands for.

use vstd::prelude::*;

verus! {

pub const PLUS: u8 = 43;

pub const MINUS: u8 = 45;

pub const DOT: u8 = 46;

pub const LETTER_E: u8 = 101;

pub open spec fn is_digit(b: u8) -> bool {
    48 <= b <= 57
}

pub open spec fn is_sign(b: u8) -> bool {
    b == PLUS || b == MINUS
}

/// The lower-case form of an upper-case ASCII letter; every other byte unchanged.
pub open spec fn to_lower(b: u8) -> u8 {
    if 65 <= b <= 90 {
        (b + 32) as u8
    } else {
        b
    }
}

pub open spec fn all_digits(t: Seq<u8>) -> bool {
    forall|i: int| 0 <= i < t.len() ==> is_digit(#[trigger] t[i])
}

/// The number that a sequence of decimal digits stands for.
pub open spec fn decimal_value(t: Seq<u8>) -> nat
    decreases t.len(),
{
    if t.len() == 0 {
        0
    } else {
        decimal_value(t.drop_last()) * 10 + (t.last() - 48) as nat
    }
}

/// The digits of a location token: the token without its leading `+`, if it has one.
pub open spec fn location_digits(t: Seq<u8>) -> Seq<u8> {
    if t.len() > 0 && t[0] == PLUS {
        t.subrange(1, t.len() as int)
    } else {
        t
    }
}

/// The location that a token stands for, if it stands for one.
pub open spec fn location_of(t: Seq<u8>) -> Option<u32> {
    let digits = location_digits(t);
    if digits.len() > 0 && all_digits(digits) && decimal_value(digits) <= u32::MAX {
        Some(decimal_value(digits) as u32)
    } else {
        None
    }
}

/// The end of the run of digits that begins at `from`.
pub open spec fn digits_end(t: Seq<u8>, from: int) -> int
    decreases t.len() - from,
{
    if 0 <= from < t.len() && is_digit(t[from]) {
        digits_end(t, from + 1)
    } else {
        from
    }
}

/// `t` spells `word`, which is in lower case, in any mix of cases.
pub open spec fn spells(t: Seq<u8>, word: Seq<u8>) -> bool {
    t.len() == word.len() && forall|i: int| 0 <= i < t.len() ==> to_lower(#[trigger] t[i]) == word[i]
}

pub open spec fn word_inf() -> Seq<u8> {
    seq![105u8, 110u8, 102u8]
}

pub open spec fn word_infinity() -> Seq<u8> {
    seq![105u8, 110u8, 102u8, 105u8, 110u8, 105u8, 116u8, 121u8]
}

pub open spec fn word_nan() -> Seq<u8> {
    seq![110u8, 97u8, 110u8]
}

/// From `at` to its end, `t` is an exponent: `e`, an optional sign, and at least one digit.
pub open spec fn is_exponent(t: Seq<u8>, at: int) -> bool {
    let digits = if at + 1 < t.len() && is_sign(t[at + 1]) {
        at + 2
    } else {
        at + 1
    };
    &&& 0 <= at < t.len()
    &&& to_lower(t[at]) == LETTER_E
    &&& digits < t.len()
    &&& digits_end(t, digits) == t.len()
}

/// `t` is a `Number` of the grammar: digits with at most one dot among them, at least one
/// digit, and an optional exponent.
pub open spec fn is_number(t: Seq<u8>) -> bool {
    let whole_end = digits_end(t, 0);
    let has_dot = whole_end < t.len() && t[whole_end] == DOT;
    let mantissa_end = if has_dot {
        digits_end(t, whole_end + 1)
    } else {
        whole_end
    };
    let digits = if has_dot {
        mantissa_end - 1
    } else {
        mantissa_end
    };
    digits > 0 && (mantissa_end == t.len() || is_exponent(t, mantissa_end))
}

/// The token without its leading sign, if it has one.
pub open spec fn unsigned_part(t: Seq<u8>) -> Seq<u8> {
    if t.len() > 0 && is_sign(t[0]) {
        t.subrange(1, t.len() as int)
    } else {
        t
    }
}

/// `t` is a `Value` of the grammar.
pub open spec fn is_value_literal(t: Seq<u8>) -> bool {
    let u = unsigned_part(t);
    is_number(u) || spells(u, word_inf()) || spells(u, word_infinity()) || spells(u, word_nan())
}

pub proof fn lemma_digits_end_bounds(t: Seq<u8>, from: int)
    requires
        0 <= from <= t.len(),
    ensures
        from <= digits_end(t, from) <= t.len(),
        digits_end(t, from) < t.len() ==> !is_digit(t[digits_end(t, from)]),
        forall|k: int| from <= k < digits_end(t, from) ==> is_digit(t[k]),
    decreases t.len() - from,
{
    if from < t.len() && is_digit(t[from]) {
        lemma_digits_end_bounds(t, from + 1);
    }
}

/// A value literal is made of one-byte characters.
pub proof fn lemma_value_literal_is_ascii(t: Seq<u8>)
    requires
        is_value_literal(t),
    ensures
        forall|i: int| 0 <= i < t.len() ==> #[trigger] t[i] < 0x80,
{
    let u = unsigned_part(t);
    assert forall|i: int| 0 <= i < u.len() implies #[trigger] u[i] < 0x80 by {
        if is_number(u) {
            let whole_end = digits_end(u, 0);
            lemma_digits_end_bounds(u, 0);
            let has_dot = whole_end < u.len() && u[whole_end] == DOT;
            let mantissa_end = if has_dot {
                digits_end(u, whole_end + 1)
            } else {
                whole_end
            };
            if has_dot {
                lemma_digits_end_bounds(u, whole_end + 1);
            }
            if mantissa_end < u.len() {
                let digits = if mantissa_end + 1 < u.len() && is_sign(u[mantissa_end + 1]) {
                    mantissa_end + 2
                } else {
                    mantissa_end + 1
                };
                lemma_digits_end_bounds(u, digits);
            }
        } else {
            assert(to_lower(u[i]) < 0x80);
        }
    }
    assert forall|i: int| 0 <= i < t.len() implies #[trigger] t[i] < 0x80 by {
        if t.len() > 0 && is_sign(t[0]) {
            if i > 0 {
                assert(t[i] == u[i - 1]);
            }
        }
    }
}

/// The value of a run of digits does not shrink when digits are added behind it.
pub proof fn lemma_decimal_value_grows(t: Seq<u8>, k: int)
    requires
        all_digits(t),
        0 <= k <= t.len(),
    ensures
        decimal_value(t.subrange(0, k)) <= decimal_value(t),
    decreases t.len() - k,
{
    if k == t.len() {
        assert(t.subrange(0, k) =~= t);
    } else {
        lemma_decimal_value_grows(t, k + 1);
        let longer = t.subrange(0, k + 1);
        assert(longer.drop_last() =~= t.subrange(0, k));
        assert(is_digit(t[k]));
    }
}

pub fn is_digit_byte(b: u8) -> (r: bool)
    ensures
        r == is_digit(b),
{
    48 <= b && b <= 57
}

pub fn is_sign_byte(b: u8) -> (r: bool)
    ensures
        r == is_sign(b),
{
    b == PLUS || b == MINUS
}

pub fn lower_byte(b: u8) -> (r: u8)
    ensures
        r == to_lower(b),
{
    if 65 <= b && b <= 90 {
        b + 32
    } else {
        b
    }
}

/// Reads a location from a token.
pub fn parse_location(t: &[u8]) -> (r: Option<u32>)
    ensures
        r == location_of(t@),
{
    let start: usize = if t.len() > 0 && t[0] == PLUS {
        1
    } else {
        0
    };
    let ghost digits = location_digits(t@);
    if start == t.len() {
        return None;
    }
    let mut at: usize = start;
    let mut value: u64 = 0;
    while at < t.len()
        invariant
            start <= at <= t@.len(),
            digits == location_digits(t@),
            digits.len() == t@.len() - start,
            forall|i: int| 0 <= i < digits.len() ==> digits[i] == t@[start + i],
            all_digits(digits.subrange(0, at - start)),
            value == decimal_value(digits.subrange(0, at - start)),
            value <= u32::MAX,
        decreases t@.len() - at,
    {
        let b = t[at];
        if !is_digit_byte(b) {
            assert(!is_digit(digits[at - start]));
            return None;
        }
        let ghost longer = digits.subrange(0, at - start + 1);
        proof {
            assert(longer.drop_last() =~= digits.subrange(0, at - start));
            assert(longer.last() == b);
            assert(all_digits(longer));
        }
        value = value * 10 + (b - 48) as u64;
        if value > 0xffff_ffff {
            proof {
                if all_digits(digits) {
                    lemma_decimal_value_grows(digits, at - start + 1);
                }
            }
            return None;
        }
        at = at + 1;
    }
    proof {
        assert(digits.subrange(0, at - start) =~= digits);
    }
    Some(value as u32)
}

/// The end of the run of digits of `t` that begins at `from`.
pub fn scan_digits(t: &[u8], from: usize) -> (r: usize)
    requires
        from <= t@.len(),
    ensures
        r == digits_end(t@, from as int),
        from <= r <= t@.len(),
{
    let mut at: usize = from;
    while at < t.len() && is_digit_byte(t[at])
        invariant
            from <= at <= t@.len(),
            digits_end(t@, from as int) == digits_end(t@, at as int),
        decreases t@.len() - at,
    {
        at = at + 1;
    }
    at
}

/// Whether `t` spells one of `inf`, `infinity` and `nan`, in any mix of cases.
pub fn is_special_word(t: &[u8]) -> (r: bool)
    ensures
        r == (spells(t@, word_inf()) || spells(t@, word_infinity()) || spells(t@, word_nan())),
{
    if t.len() == 3 {
        let a = lower_byte(t[0]);
        let b = lower_byte(t[1]);
        let c = lower_byte(t[2]);
        (a == 105 && b == 110 && c == 102) || (a == 110 && b == 97 && c == 110)
    } else if t.len() == 8 {
        lower_byte(t[0]) == 105 && lower_byte(t[1]) == 110 && lower_byte(t[2]) == 102
            && lower_byte(t[3]) == 105 && lower_byte(t[4]) == 110 && lower_byte(t[5]) == 105
            && lower_byte(t[6]) == 116 && lower_byte(t[7]) == 121
    } else {
        false
    }
}

/// Whether `t` is a `Number` of the grammar.
pub fn check_number(t: &[u8]) -> (r: bool)
    ensures
        r == is_number(t@),
{
    let whole_end = scan_digits(t, 0);
    let has_dot = whole_end < t.len() && t[whole_end] == DOT;
    let mantissa_end = if has_dot {
        scan_digits(t, whole_end + 1)
    } else {
        whole_end
    };
    let digits = if has_dot {
        mantissa_end - 1
    } else {
        mantissa_end
    };
    if digits == 0 {
        return false;
    }
    if mantissa_end == t.len() {
        return true;
    }
    if lower_byte(t[mantissa_end]) != LETTER_E {
        return false;
    }
    let exponent_digits = if mantissa_end + 1 < t.len() && is_sign_byte(t[mantissa_end + 1]) {
        mantissa_end + 2
    } else {
        mantissa_end + 1
    };
    if exponent_digits >= t.len() {
        return false;
    }
    scan_digits(t, exponent_digits) == t.len()
}

/// Whether a token is a value literal.
pub fn check_value_literal(t: &[u8]) -> (r: bool)
    ensures
        r == is_value_literal(t@),
{
    let start: usize = if t.len() > 0 && is_sign_byte(t[0]) {
        1
    } else {
        0
    };
    let rest = vstd::slice::slice_subrange(t, start, t.len());
    assert(rest@ =~= unsigned_part(t@));
    check_number(rest) || is_special_word(rest)
}

} // verus!
