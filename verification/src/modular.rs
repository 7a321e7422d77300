//! Arithmetic on residues modulo `q`. Every result lies in `0..q`.

use crate::bigint::{
    copy_of, difference_of, from_u32, inverse_of, is_less, power_of, product_of, remainder_of,
    sum_of, value_of,
};
use crate::error::ArithmeticError;
use crate::residue::{
    add_mod, div_mod, gcd, has_inverse, inverse, lemma_inverse_exists,
    lemma_inverse_iff_coprime, lemma_inverse_unique, mul_mod, pow_mod, sub_mod,
};
use rug::Integer;
use vstd::arithmetic::power::lemma_pow_mod_noop;
use vstd::prelude::*;

verus! {

/// `(a + b) mod q`.
pub fn add(a: Integer, b: Integer, q: &Integer) -> (r: Integer)
    requires
        value_of(*q) > 0,
    ensures
        value_of(r) == add_mod(value_of(a), value_of(b), value_of(*q)),
        0 <= value_of(r) < value_of(*q),
{
    remainder_of(sum_of(&a, &b), q)
}

/// `(a - b) mod q`.
pub fn sub(a: Integer, b: Integer, q: &Integer) -> (r: Integer)
    requires
        value_of(*q) > 0,
    ensures
        value_of(r) == sub_mod(value_of(a), value_of(b), value_of(*q)),
        0 <= value_of(r) < value_of(*q),
{
    remainder_of(difference_of(&a, &b), q)
}

/// `(a * b) mod q`.
pub fn mul(a: Integer, b: Integer, q: &Integer) -> (r: Integer)
    requires
        value_of(*q) > 0,
    ensures
        value_of(r) == mul_mod(value_of(a), value_of(b), value_of(*q)),
        0 <= value_of(r) < value_of(*q),
{
    remainder_of(product_of(&a, &b), q)
}

/// `a` times the inverse of `b` modulo `q`. It fails where `b` has no
/// inverse, that is where `b` and `q` have a common divisor other than one,
/// and only there.
pub fn div(a: Integer, b: Integer, q: &Integer) -> (r: Result<Integer, ArithmeticError>)
    requires
        value_of(*q) > 0,
    ensures
        match r {
            Ok(v) => {
                &&& has_inverse(value_of(b), value_of(*q))
                &&& gcd((value_of(b) % value_of(*q)) as nat, value_of(*q) as nat) == 1
                &&& value_of(v) == div_mod(value_of(a), value_of(b), value_of(*q))
                &&& 0 <= value_of(v) < value_of(*q)
            },
            Err(e) => {
                &&& !has_inverse(value_of(b), value_of(*q))
                &&& gcd((value_of(b) % value_of(*q)) as nat, value_of(*q) as nat) != 1
                &&& e == ArithmeticError::NotInvertible
            },
        },
{
    proof {
        lemma_inverse_iff_coprime(value_of(b), value_of(*q));
    }
    match inverse_of(b, q) {
        Ok(x) => {
            proof {
                lemma_inverse_exists(value_of(b), value_of(*q));
                lemma_inverse_unique(
                    value_of(b),
                    value_of(x),
                    inverse(value_of(b), value_of(*q)),
                    value_of(*q),
                );
            }
            Ok(remainder_of(product_of(&a, &x), q))
        },
        Err(_) => Err(ArithmeticError::NotInvertible),
    }
}

/// `base` to the power `exponent`, modulo `q`. It fails on a negative
/// exponent, and only there.
pub fn pow(base: &Integer, exponent: &Integer, q: &Integer) -> (r: Result<
    Integer,
    ArithmeticError,
>)
    requires
        value_of(*q) > 0,
    ensures
        match r {
            Ok(v) => value_of(*exponent) >= 0 && value_of(v) == pow_mod(
                value_of(*base),
                value_of(*exponent) as nat,
                value_of(*q),
            ) && 0 <= value_of(v) < value_of(*q),
            Err(e) => value_of(*exponent) < 0 && e == ArithmeticError::NegativeExponent,
        },
{
    let zero = from_u32(0);
    if is_less(exponent, &zero) {
        return Err(ArithmeticError::NegativeExponent);
    }
    let reduced = remainder_of(copy_of(base), q);
    proof {
        lemma_pow_mod_noop(value_of(*base), value_of(*exponent) as nat, value_of(*q));
    }
    match power_of(reduced, exponent, q) {
        Ok(v) => Ok(v),
        Err(_) => Err(ArithmeticError::NegativeExponent),
    }
}

} // verus!
