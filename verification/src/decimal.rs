//! Integers written in decimal: what a string of digits stands for, and how
//! an integer is written.

use vstd::prelude::*;

verus! {

/// One of the characters `0` to `9`.
pub open spec fn is_digit(c: char) -> bool {
    '0' <= c && c <= '9'
}

/// The number that a digit stands for.
pub open spec fn digit_value(c: char) -> int {
    c as int - '0' as int
}

/// The digit that stands for a number below ten.
pub open spec fn digit_char(d: int) -> char {
    ('0' as int + d) as char
}

/// Every character is a digit.
pub open spec fn all_digits(d: Seq<char>) -> bool {
    forall|i: int| 0 <= i < d.len() ==> is_digit(#[trigger] d[i])
}

/// The number that a string of digits stands for; the empty string stands
/// for 0.
pub open spec fn digits_value(d: Seq<char>) -> int
    decreases d.len(),
{
    if d.len() == 0 {
        0
    } else {
        10 * digits_value(d.drop_last()) + digit_value(d.last())
    }
}

/// The integer that a literal stands for: an optional `+` or `-`, then at
/// least one digit and nothing but digits. Anything else is no literal.
pub open spec fn literal_value(w: Seq<char>) -> Option<int> {
    let signed = w.len() > 0 && (w[0] == '-' || w[0] == '+');
    let digits = if signed {
        w.drop_first()
    } else {
        w
    };
    if digits.len() > 0 && all_digits(digits) {
        if signed && w[0] == '-' {
            Some(-digits_value(digits))
        } else {
            Some(digits_value(digits))
        }
    } else {
        None
    }
}

/// The digits of a natural number, without leading zeros; 0 is written `0`.
pub open spec fn decimal_digits(n: nat) -> Seq<char>
    decreases n,
{
    if n < 10 {
        seq![digit_char(n as int)]
    } else {
        decimal_digits(n / 10).push(digit_char((n % 10) as int))
    }
}

/// An integer as it is written: its digits, after a `-` where it is
/// negative.
pub open spec fn decimal_repr(v: int) -> Seq<char> {
    if v < 0 {
        seq!['-'] + decimal_digits((-v) as nat)
    } else {
        decimal_digits(v as nat)
    }
}

} // verus!
