//! The arbitrary-precision integer that the library computes with.
//!
//! The type is `ibig::IBig`. The verifier sees none of its representation:
//! [`int_of`] stands for the integer a value holds, and every function below
//! is a thin call into `ibig` whose contract is taken on trust from that
//! crate's source, not proved here.
//!
//! The contracts speak of the values that are returned. An integer too
//! large for the memory at hand ends the program, as a failed allocation
//! does anywhere in Rust.

use crate::decimal::{decimal_repr, literal_value};
use ibig::error::{OutOfBoundsError, ParseError};
use ibig::ops::RemEuclid;
use ibig::IBig;
use num_traits::{One, Zero};
use std::str::FromStr;
use vstd::arithmetic::power::pow;
use vstd::prelude::*;

verus! {

#[verifier::external_type_specification]
#[verifier::external_body]
pub struct ExIBig(IBig);

#[verifier::external_type_specification]
#[verifier::external_body]
pub struct ExParseError(ParseError);

#[verifier::external_type_specification]
#[verifier::external_body]
pub struct ExOutOfBoundsError(OutOfBoundsError);

/// The mathematical integer that a big integer holds.
pub uninterp spec fn int_of(x: IBig) -> int;

/// The integers held by a sequence of big integers, in order.
pub open spec fn values(v: Seq<IBig>) -> Seq<int> {
    Seq::new(v.len(), |i: int| int_of(v[i]))
}

/// `IBig::zero()` of `num_traits::Zero`. Trusted: it holds 0.
#[verifier::external_body]
pub(crate) fn big_zero() -> (r: IBig)
    ensures
        int_of(r) == 0,
{
    IBig::zero()
}

/// `IBig::one()` of `num_traits::One`. Trusted: it holds 1.
#[verifier::external_body]
pub(crate) fn big_one() -> (r: IBig)
    ensures
        int_of(r) == 1,
{
    IBig::one()
}

/// `IBig::from(i64)`. Trusted: the conversion keeps the value.
#[verifier::external_body]
pub(crate) fn big_from_i64(x: i64) -> (r: IBig)
    ensures
        int_of(r) == x,
{
    IBig::from(x)
}

/// `IBig::from(u64)`. Trusted: the conversion keeps the value.
#[verifier::external_body]
pub(crate) fn big_from_u64(x: u64) -> (r: IBig)
    ensures
        int_of(r) == x,
{
    IBig::from(x)
}

/// `IBig::clone`. Trusted: the copy holds the same integer.
#[verifier::external_body]
pub(crate) fn big_clone(a: &IBig) -> (r: IBig)
    ensures
        int_of(r) == int_of(*a),
{
    a.clone()
}

/// `&IBig + &IBig`. Trusted: the exact sum.
#[verifier::external_body]
pub(crate) fn big_add(a: &IBig, b: &IBig) -> (r: IBig)
    ensures
        int_of(r) == int_of(*a) + int_of(*b),
{
    a + b
}

/// `&IBig - &IBig`. Trusted: the exact difference.
#[verifier::external_body]
pub(crate) fn big_sub(a: &IBig, b: &IBig) -> (r: IBig)
    ensures
        int_of(r) == int_of(*a) - int_of(*b),
{
    a - b
}

/// `&IBig * &IBig`. Trusted: the exact product.
#[verifier::external_body]
pub(crate) fn big_mul(a: &IBig, b: &IBig) -> (r: IBig)
    ensures
        int_of(r) == int_of(*a) * int_of(*b),
{
    a * b
}

/// `ibig::ops::RemEuclid::rem_euclid` on `&IBig` by `&IBig`. Trusted: for a
/// positive divisor the result is the least non-negative residue. The call
/// panics on a zero divisor, which the precondition leaves out.
#[verifier::external_body]
pub(crate) fn big_rem_euclid(a: &IBig, m: &IBig) -> (r: IBig)
    requires
        int_of(*m) > 0,
    ensures
        int_of(r) == int_of(*a) % int_of(*m),
{
    a.rem_euclid(m)
}

/// `IBig == IBig`. Trusted: `ibig` keeps one representation for each
/// integer, so two values compare equal exactly when they hold the same
/// integer.
#[verifier::external_body]
pub(crate) fn big_eq(a: &IBig, b: &IBig) -> (r: bool)
    ensures
        r == (int_of(*a) == int_of(*b)),
{
    a == b
}

/// `IBig::pow`. Trusted: the base raised to the exponent, with power 0
/// equal to 1.
#[verifier::external_body]
pub(crate) fn big_pow(base: &IBig, exp: usize) -> (r: IBig)
    ensures
        int_of(r) == pow(int_of(*base), exp as nat),
{
    base.pow(exp)
}

/// `usize::try_from(&IBig)`. Trusted: it succeeds exactly when the integer
/// fits in a `usize`, and then keeps the value.
#[verifier::external_body]
pub(crate) fn big_to_usize(a: &IBig) -> (r: Result<usize, OutOfBoundsError>)
    ensures
        r is Ok <==> 0 <= int_of(*a) <= usize::MAX,
        r is Ok ==> r->Ok_0 == int_of(*a),
{
    usize::try_from(a)
}

/// `IBig::from_str`, that is `IBig::from_str_radix` with radix 10. Trusted:
/// it accepts an optional sign followed by one or more decimal digits, gives
/// the integer so written, and refuses every other string.
#[verifier::external_body]
pub(crate) fn big_parse(token: &str) -> (r: Result<IBig, ParseError>)
    ensures
        r is Ok <==> literal_value(token@) is Some,
        r is Ok ==> Some(int_of(r->Ok_0)) == literal_value(token@),
{
    IBig::from_str(token)
}

/// `IBig::to_string`, through its `Display`. Trusted: the decimal digits
/// without leading zeros, after a `-` for a negative integer.
#[verifier::external_body]
pub(crate) fn big_to_decimal(a: &IBig) -> (r: String)
    ensures
        r@ == decimal_repr(int_of(*a)),
{
    a.to_string()
}

} // verus!
