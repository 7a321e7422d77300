//! Residues modulo `q` as mathematical integers: what the modular operations
//! compute, and the facts about inverses that the rest of the library uses.

use vstd::arithmetic::div_mod::*;
use vstd::arithmetic::mul::*;
use vstd::arithmetic::power::*;
use vstd::calc;
use vstd::prelude::*;

verus! {

/// `x` is an inverse of `a` modulo `q`: their product is congruent to one.
pub open spec fn is_inverse(a: int, x: int, q: int) -> bool {
    (a * x) % q == 1int % q
}

/// `a` has an inverse modulo `q`.
pub open spec fn has_inverse(a: int, q: int) -> bool {
    exists|x: int| is_inverse(a, x, q)
}

/// The inverse of `a` modulo `q` that lies in `0..q`, where `a` has one.
pub open spec fn inverse(a: int, q: int) -> int {
    choose|x: int| 0 <= x < q && is_inverse(a, x, q)
}

/// The sum of two numbers, reduced modulo `q`.
pub open spec fn add_mod(a: int, b: int, q: int) -> int {
    (a + b) % q
}

/// The difference of two numbers, reduced modulo `q`.
pub open spec fn sub_mod(a: int, b: int, q: int) -> int {
    (a - b) % q
}

/// The product of two numbers, reduced modulo `q`.
pub open spec fn mul_mod(a: int, b: int, q: int) -> int {
    (a * b) % q
}

/// `a` times the inverse of `b`, reduced modulo `q`. It is meant for a `b`
/// that has an inverse.
pub open spec fn div_mod(a: int, b: int, q: int) -> int {
    (a * inverse(b, q)) % q
}

/// `base` to the power `exponent`, reduced modulo `q`.
pub open spec fn pow_mod(base: int, exponent: nat, q: int) -> int {
    pow(base, exponent) % q
}

/// Reducing a factor of an inverse relation changes nothing.
pub proof fn lemma_inverse_of_reduced(a: int, x: int, q: int)
    requires
        q > 0,
    ensures
        is_inverse(a, x, q) <==> is_inverse(a, x % q, q),
        is_inverse(a, x, q) <==> is_inverse(a % q, x, q),
{
    lemma_mul_mod_noop_right(a, x, q);
    lemma_mul_mod_noop_left(a, x, q);
}

/// A number that has an inverse has one in `0..q`.
pub proof fn lemma_inverse_exists(a: int, q: int)
    requires
        q > 0,
        has_inverse(a, q),
    ensures
        0 <= inverse(a, q) < q,
        is_inverse(a, inverse(a, q), q),
{
    let x = choose|x: int| is_inverse(a, x, q);
    lemma_inverse_of_reduced(a, x, q);
    lemma_mod_bound(x, q);
    assert(0 <= x % q < q && is_inverse(a, x % q, q));
}

/// Two inverses of one number are congruent; in `0..q` there is only one.
pub proof fn lemma_inverse_unique(a: int, x: int, y: int, q: int)
    requires
        q > 0,
        is_inverse(a, x, q),
        is_inverse(a, y, q),
    ensures
        x % q == y % q,
        (0 <= x < q && 0 <= y < q) ==> x == y,
{
    // x == x * (a * y) == (x * a) * y == y, all modulo q.
    calc! {
        (==)
        x % q; {
            lemma_mul_basics(x);
        }
        (x * 1) % q; {
            lemma_mul_mod_noop_right(x, 1, q);
            lemma_mul_mod_noop_right(x, a * y, q);
        }
        (x * (a * y)) % q; {
            lemma_mul_is_associative(x, a, y);
            lemma_mul_is_commutative(x, a);
        }
        ((a * x) * y) % q; {
            lemma_mul_mod_noop_left(a * x, y, q);
            lemma_mul_mod_noop_left(1, y, q);
        }
        (1 * y) % q; {
            lemma_mul_basics(y);
        }
        y % q;
    }
    if 0 <= x < q && 0 <= y < q {
        lemma_small_mod(x as nat, q as nat);
        lemma_small_mod(y as nat, q as nat);
    }
}

/// The greatest common divisor of two natural numbers, by Euclid's rule.
pub open spec fn gcd(a: nat, b: nat) -> nat
    decreases b,
{
    if b == 0 {
        a
    } else {
        gcd(b, a % b)
    }
}

/// `d` divides `n`.
pub open spec fn divides(d: int, n: int) -> bool {
    exists|k: int| n == #[trigger] (d * k)
}

/// The greatest common divisor divides both numbers.
pub proof fn lemma_gcd_divides(a: nat, b: nat)
    ensures
        divides(gcd(a, b) as int, a as int),
        divides(gcd(a, b) as int, b as int),
    decreases b,
{
    let g = gcd(a, b) as int;
    if b == 0 {
        assert(a as int == g * 1);
        assert(b as int == g * 0);
    } else {
        lemma_gcd_divides(b, a % b);
        let m = choose|m: int| b as int == #[trigger] (g * m);
        let n = choose|n: int| (a % b) as int == #[trigger] (g * n);
        lemma_fundamental_div_mod(a as int, b as int);
        let t = a as int / b as int;
        assert(a as int == g * (m * t + n)) by (nonlinear_arith)
            requires
                a as int == b as int * t + (a % b) as int,
                b as int == g * m,
                (a % b) as int == g * n,
        ;
    }
}

/// Bezout's identity: the greatest common divisor of two numbers is a sum of
/// multiples of them.
pub proof fn lemma_bezout(a: nat, b: nat) -> (r: (int, int))
    ensures
        a * r.0 + b * r.1 == gcd(a, b),
    decreases b,
{
    if b == 0 {
        (1, 0)
    } else {
        let (x, y) = lemma_bezout(b, a % b);
        lemma_fundamental_div_mod(a as int, b as int);
        let t = a as int / b as int;
        assert(a * y + b * (x - t * y) == b * x + (a % b) * y) by (nonlinear_arith)
            requires
                a as int == b as int * t + (a % b) as int,
        ;
        (y, x - t * y)
    }
}

/// A number has an inverse modulo `q` exactly where its residue and `q` have
/// no common divisor but one.
pub proof fn lemma_inverse_iff_coprime(a: int, q: int)
    requires
        q > 0,
    ensures
        has_inverse(a, q) <==> gcd((a % q) as nat, q as nat) == 1,
{
    let r = a % q;
    lemma_mod_bound(a, q);
    let g = gcd(r as nat, q as nat) as int;
    if g == 1 {
        let (x, y) = lemma_bezout(r as nat, q as nat);
        assert(r * x + q * y == 1);
        lemma_mod_multiples_vanish(y, r * x, q);
        assert((q * y + r * x) % q == (r * x) % q);
        assert(is_inverse(r, x, q));
        lemma_inverse_of_reduced(a, x, q);
        assert(is_inverse(a, x, q));
    }
    if has_inverse(a, q) {
        let x = choose|x: int| is_inverse(a, x, q);
        lemma_inverse_of_reduced(a, x, q);
        lemma_gcd_divides(r as nat, q as nat);
        let m = choose|m: int| r == #[trigger] (g * m);
        let n = choose|n: int| q == #[trigger] (g * n);
        if q == 1 {
            assert(r == 0);
            assert(gcd(0, 1) == gcd(1, 0)) by {
                assert(0nat % 1nat == 0);
            }
        } else {
            lemma_small_mod(1, q as nat);
            lemma_fundamental_div_mod(r * x, q);
            let t = (r * x) / q;
            assert(g * (m * x - n * t) == 1) by (nonlinear_arith)
                requires
                    r * x == q * t + 1,
                    r == g * m,
                    q == g * n,
            ;
            assert(g == 1) by (nonlinear_arith)
                requires
                    g * (m * x - n * t) == 1,
                    g >= 0,
            ;
        }
    }
}

/// Division undoes multiplication: for `a` and `b` in `0..q` with `b` coprime
/// to `q`, the product of `a` and `b` divided by `b` is `a` again.
pub proof fn lemma_div_undoes_mul(a: int, b: int, q: int)
    requires
        q > 0,
        0 <= a < q,
        0 <= b < q,
        gcd(b as nat, q as nat) == 1,
    ensures
        has_inverse(b, q),
        div_mod(mul_mod(a, b, q), b, q) == a,
{
    lemma_small_mod(b as nat, q as nat);
    lemma_inverse_iff_coprime(b, q);
    lemma_inverse_exists(b, q);
    let x = inverse(b, q);
    calc! {
        (==)
        (((a * b) % q) * x) % q; {
            lemma_mul_mod_noop_left(a * b, x, q);
        }
        ((a * b) * x) % q; {
            lemma_mul_is_associative(a, b, x);
        }
        (a * (b * x)) % q; {
            lemma_mul_mod_noop_right(a, b * x, q);
            lemma_mul_mod_noop_right(a, 1, q);
        }
        (a * 1) % q; {
            lemma_mul_basics(a);
            lemma_small_mod(a as nat, q as nat);
        }
        a;
    }
}

/// Any number to the power zero is one, modulo any `q` of at least two.
pub proof fn lemma_pow_zero(base: int, q: int)
    requires
        q >= 2,
    ensures
        pow_mod(base, 0, q) == 1,
{
    lemma_pow0(base);
    lemma_small_mod(1, q as nat);
}

} // verus!
