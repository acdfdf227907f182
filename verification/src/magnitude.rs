//! The size of a big integer at a glance: its leading decimal digits as a
//! machine integer, and the number of digits that were left off.

use crate::bigint::{big_to_decimal, int_of};
use crate::decimal::{decimal_digits, digit_char, digit_value, digits_value, is_digit};
use ibig::IBig;
use vstd::arithmetic::div_mod::{lemma_div_denominator, lemma_small_div_converse};
use vstd::prelude::*;
use vstd::string::StrSliceExecFns;

verus! {

/// The characters that the leading part is read from.
pub const LEADING_WIDTH: usize = 15;

/// Ten to the power `n`.
pub open spec fn pow10(n: nat) -> nat
    decreases n,
{
    if n == 0 {
        1
    } else {
        10 * pow10((n - 1) as nat)
    }
}

/// The number of decimal digits of a natural number; 0 has one.
pub open spec fn digit_count(a: nat) -> nat
    decreases a,
{
    if a < 10 {
        1
    } else {
        1 + digit_count(a / 10)
    }
}

/// The absolute value.
pub open spec fn magnitude(v: int) -> nat {
    if v < 0 {
        (-v) as nat
    } else {
        v as nat
    }
}

/// The number of digits left off: those beyond the first fifteen
/// characters of the integer as it is written, of which a `-` is one.
pub open spec fn leading_shift(v: int) -> nat {
    let width: nat = if v < 0 {
        14
    } else {
        15
    };
    let digits = digit_count(magnitude(v));
    if digits > width {
        (digits - width) as nat
    } else {
        0
    }
}

/// The number that the leading digits form: the absolute value, divided by
/// ten for each digit left off.
pub open spec fn leading_part(v: int) -> nat {
    magnitude(v) / pow10(leading_shift(v))
}

proof fn lemma_pow10_positive(n: nat)
    ensures
        pow10(n) > 0,
    decreases n,
{
    if n > 0 {
        lemma_pow10_positive((n - 1) as nat);
    }
}

proof fn lemma_digit_roundtrip(d: int)
    requires
        0 <= d < 10,
    ensures
        is_digit(digit_char(d)),
        digit_value(digit_char(d)) == d,
{
}

/// A number is written with as many digits as it has, all of them digits.
proof fn lemma_decimal_digits(a: nat)
    ensures
        decimal_digits(a).len() == digit_count(a),
        forall|i: int| 0 <= i < digit_count(a) ==> is_digit(#[trigger] decimal_digits(a)[i]),
    decreases a,
{
    if a < 10 {
        lemma_digit_roundtrip(a as int);
    } else {
        lemma_decimal_digits(a / 10);
        lemma_digit_roundtrip((a % 10) as int);
    }
}

/// The first `p` digits of a number form the number divided by ten for
/// each digit after them.
proof fn lemma_prefix_value(a: nat, p: nat)
    requires
        p <= digit_count(a),
    ensures
        digits_value(decimal_digits(a).take(p as int)) == a / pow10((digit_count(a) - p) as nat),
    decreases a,
{
    let d = decimal_digits(a);
    lemma_decimal_digits(a);
    if p == digit_count(a) {
        lemma_whole_value(a);
        assert(d.take(p as int) == d);
        assert(a / 1 == a);
    } else if a < 10 {
        assert(pow10(0) == 1);
    } else {
        let rest = (digit_count(a) - 1 - p) as nat;
        lemma_prefix_value(a / 10, p);
        lemma_decimal_digits(a / 10);
        assert(d.take(p as int) =~= decimal_digits(a / 10).take(p as int));
        lemma_pow10_positive(rest);
        lemma_div_denominator(a as int, 10, pow10(rest) as int);
    }
}

/// The digits of a number form the number.
proof fn lemma_whole_value(a: nat)
    ensures
        digits_value(decimal_digits(a)) == a,
    decreases a,
{
    let d = decimal_digits(a);
    if a < 10 {
        lemma_digit_roundtrip(a as int);
        assert(digits_value(d) == 10 * digits_value(d.drop_last()) + digit_value(d.last()));
    } else {
        lemma_whole_value(a / 10);
        lemma_digit_roundtrip((a % 10) as int);
        assert(d.drop_last() =~= decimal_digits(a / 10));
    }
}

/// A string of `n` digits forms a number below ten to the `n`.
proof fn lemma_value_bound(d: Seq<char>)
    requires
        forall|i: int| 0 <= i < d.len() ==> is_digit(#[trigger] d[i]),
    ensures
        0 <= digits_value(d) < pow10(d.len()),
    decreases d.len(),
{
    if d.len() > 0 {
        lemma_value_bound(d.drop_last());
    }
}

proof fn lemma_pow10_fifteen()
    ensures
        pow10(15) == 1_000_000_000_000_000,
{
    reveal_with_fuel(pow10, 16);
}

proof fn lemma_pow10_monotonic(a: nat, b: nat)
    requires
        a <= b,
    ensures
        pow10(a) <= pow10(b),
    decreases b,
{
    if a < b {
        lemma_pow10_monotonic(a, (b - 1) as nat);
    }
}

/// A positive number lies from ten to the power of one less than its count
/// of digits up to, not including, ten to the power of that count.
pub proof fn lemma_digit_count_bounds(a: nat)
    requires
        a >= 1,
    ensures
        pow10((digit_count(a) - 1) as nat) <= a < pow10(digit_count(a)),
    decreases a,
{
    if a >= 10 {
        lemma_digit_count_bounds(a / 10);
    }
}

proof fn lemma_digit_count_of_quotient(a: nat, s: nat)
    requires
        s < digit_count(a),
    ensures
        digit_count(a / pow10(s)) == digit_count(a) - s,
    decreases s,
{
    if s == 0 {
        assert(a / 1 == a);
    } else {
        let s1 = (s - 1) as nat;
        lemma_digit_count_of_quotient(a / 10, s1);
        lemma_pow10_positive(s1);
        lemma_div_denominator(a as int, 10, pow10(s1) as int);
    }
}

/// The leading part keeps the digits that were not left off: together the
/// two results account for every digit. So for an integer other than 0 the
/// leading part lies from ten to the power of one less than the count of
/// digits kept up to, not including, ten to the power of that count.
pub proof fn lemma_leading_part_size(v: int)
    requires
        v != 0,
    ensures
        digit_count(leading_part(v)) + leading_shift(v) == digit_count(magnitude(v)),
        leading_part(v) >= 1,
        pow10((digit_count(leading_part(v)) - 1) as nat) <= leading_part(v) < pow10(
            digit_count(leading_part(v)),
        ),
{
    let a = magnitude(v);
    let s = leading_shift(v);
    lemma_digit_count_of_quotient(a, s);
    lemma_digit_count_bounds(a);
    lemma_pow10_positive(s);
    if leading_part(v) == 0 {
        lemma_small_div_converse(a as int, pow10(s) as int);
        lemma_pow10_monotonic(s, (digit_count(a) - 1) as nat);
    }
    lemma_digit_count_bounds(leading_part(v));
}

/// The leading digits of a big integer and the number of digits left off.
/// The integer is written in decimal; its first fifteen characters, without
/// the `-` of a negative integer, are read as a number, and the characters
/// after them are counted. So the integer is, in absolute value, the first
/// result times ten to the second, up to what was left off.
pub fn leading_digits(value: &IBig) -> (r: (u64, usize))
    ensures
        r.0 == leading_part(int_of(*value)),
        r.1 == leading_shift(int_of(*value)),
{
    let text = big_to_decimal(value);
    let s = text.as_str();
    let len = s.unicode_len();
    let ghost v = int_of(*value);
    let ghost a = magnitude(v);
    let ghost digits = decimal_digits(a);
    proof {
        lemma_decimal_digits(a);
    }
    let first: usize = if s.get_char(0) == '-' {
        1
    } else {
        0
    };
    let take: usize = if len > LEADING_WIDTH {
        LEADING_WIDTH
    } else {
        len
    };
    let mut lead: u64 = 0;
    let mut i: usize = first;
    while i < take
        invariant
            first <= i <= take <= LEADING_WIDTH,
            take <= len,
            len == s@.len(),
            s@.skip(first as int) == digits,
            forall|j: int| 0 <= j < digits.len() ==> is_digit(#[trigger] digits[j]),
            lead == digits_value(digits.take(i - first)),
        decreases take - i,
    {
        let c = s.get_char(i);
        let ghost p = i - first;
        let ghost read = digits.take(p + 1);
        proof {
            assert(read.drop_last() =~= digits.take(p));
            lemma_value_bound(read);
            lemma_pow10_monotonic(read.len(), 15);
            lemma_pow10_fifteen();
        }
        lead = lead * 10 + (c as u32 - '0' as u32) as u64;
        i += 1;
    }
    let shift: usize = if len > LEADING_WIDTH {
        len - LEADING_WIDTH
    } else {
        0
    };
    proof {
        lemma_prefix_value(a, (take - first) as nat);
    }
    (lead, shift)
}

} // verus!
