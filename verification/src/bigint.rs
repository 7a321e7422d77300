//! Arbitrary-precision integers.
//!
//! The numbers of this library are `rug::Integer` values. Verus does not look
//! inside one: `value_of` names the mathematical integer that it holds, and the
//! functions below state, over that name, what each operation of `rug` that the
//! library calls gives back. None of these statements is proved here; the rest
//! of the library is proved from them.

use crate::residue::{has_inverse, is_inverse};
use crate::text::{decimal_text, hex_value, is_hex_text};
use rug::integer::ParseIntegerError;
use rug::ops::RemRounding;
use rug::Integer;
use vstd::arithmetic::power::pow;
use vstd::prelude::*;

verus! {

#[verifier::external_type_specification]
#[verifier::external_body]
pub struct ExInteger(rug::Integer);

#[verifier::external_type_specification]
#[verifier::external_body]
pub struct ExParseIntegerError(rug::integer::ParseIntegerError);

/// The mathematical integer that a `rug::Integer` holds.
pub uninterp spec fn value_of(n: Integer) -> int;

/// `Integer::from` on a `u32`: the integer with the same value.
#[verifier::external_body]
pub(crate) fn from_u32(n: u32) -> (r: Integer)
    ensures
        value_of(r) == n,
{
    Integer::from(n)
}

/// `Clone::clone` on an `Integer`: a new integer with the same value.
#[verifier::external_body]
pub(crate) fn copy_of(a: &Integer) -> (r: Integer)
    ensures
        value_of(r) == value_of(*a),
{
    a.clone()
}

/// `&Integer + &Integer`, completed into an `Integer`: the exact sum.
#[verifier::external_body]
pub(crate) fn sum_of(a: &Integer, b: &Integer) -> (r: Integer)
    ensures
        value_of(r) == value_of(*a) + value_of(*b),
{
    Integer::from(a + b)
}

/// `&Integer - &Integer`, completed into an `Integer`: the exact difference.
#[verifier::external_body]
pub(crate) fn difference_of(a: &Integer, b: &Integer) -> (r: Integer)
    ensures
        value_of(r) == value_of(*a) - value_of(*b),
{
    Integer::from(a - b)
}

/// `&Integer * &Integer`, completed into an `Integer`: the exact product.
#[verifier::external_body]
pub(crate) fn product_of(a: &Integer, b: &Integer) -> (r: Integer)
    ensures
        value_of(r) == value_of(*a) * value_of(*b),
{
    Integer::from(a * b)
}

/// `RemRounding::rem_euc` of an `Integer` by a reference to another: the
/// remainder of Euclidean division, which is never negative. The call
/// panics on a zero divisor; only positive divisors are admitted here.
#[verifier::external_body]
pub(crate) fn remainder_of(a: Integer, q: &Integer) -> (r: Integer)
    requires
        value_of(*q) > 0,
    ensures
        value_of(r) == value_of(a) % value_of(*q),
{
    a.rem_euc(q)
}

/// `Integer::invert`: `Ok` with the inverse of `a` modulo `q`, taken from
/// `0..q`, where one exists, and `Err` where none does. Stated for a
/// positive modulus only.
#[verifier::external_body]
pub(crate) fn inverse_of(a: Integer, q: &Integer) -> (r: Result<Integer, Integer>)
    requires
        value_of(*q) > 0,
    ensures
        match r {
            Ok(v) => 0 <= value_of(v) < value_of(*q) && is_inverse(
                value_of(a),
                value_of(v),
                value_of(*q),
            ),
            Err(_) => !has_inverse(value_of(a), value_of(*q)),
        },
{
    a.invert(q)
}

/// `Integer::pow_mod`: with an exponent that is not negative and a modulus
/// that is not zero it returns `Ok` with the power reduced modulo `q`.
/// Stated for a base that is not negative and a positive modulus only.
#[verifier::external_body]
pub(crate) fn power_of(base: Integer, exponent: &Integer, q: &Integer) -> (r: Result<
    Integer,
    Integer,
>)
    requires
        value_of(base) >= 0,
        value_of(*exponent) >= 0,
        value_of(*q) > 0,
    ensures
        match r {
            Ok(v) => value_of(v) == pow(value_of(base), value_of(*exponent) as nat) % value_of(*q),
            Err(_) => false,
        },
{
    base.pow_mod(exponent, q)
}

/// `<` on two `Integer`s (their `PartialOrd`): the order of their values.
#[verifier::external_body]
pub(crate) fn is_less(a: &Integer, b: &Integer) -> (r: bool)
    ensures
        r == (value_of(*a) < value_of(*b)),
{
    a < b
}

/// `==` on two `Integer`s (their `PartialEq`): whether their values are equal.
#[verifier::external_body]
pub(crate) fn is_same(a: &Integer, b: &Integer) -> (r: bool)
    ensures
        r == (value_of(*a) == value_of(*b)),
{
    a == b
}

/// `ToString::to_string` on an `Integer`, which writes it as its `Display`
/// does: the decimal numeral of the value.
#[verifier::external_body]
pub(crate) fn decimal_of(a: &Integer) -> (r: String)
    ensures
        r@ == decimal_text(value_of(*a)),
{
    a.to_string()
}

/// `Integer::from_str_radix`, which panics on a radix outside `2..=36`. With
/// radix 16 and a hexadecimal numeral it returns `Ok` with the number that
/// the numeral denotes. Nothing is stated of another radix, nor of other
/// strings, some of which it accepts too.
#[verifier::external_body]
pub(crate) fn parse_in_radix(s: &str, radix: i32) -> (r: Result<Integer, ParseIntegerError>)
    requires
        2 <= radix <= 36,
    ensures
        radix == 16 && is_hex_text(s@) ==> match r {
            Ok(v) => value_of(v) == hex_value(s@),
            Err(_) => false,
        },
{
    Integer::from_str_radix(s, radix)
}

} // verus!
