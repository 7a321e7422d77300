//! Powers modulo a prime: Fermat's little theorem, and what follows from it
//! for the exponents of `pow`.

use crate::residue::{
    gcd, has_inverse, inverse, is_inverse, lemma_gcd_divides, lemma_inverse_exists,
    lemma_inverse_iff_coprime, lemma_inverse_unique, pow_mod,
};
use crate::series::{lemma_product_permutation, seq_product};
use vstd::arithmetic::div_mod::{
    lemma_fundamental_div_mod, lemma_mod_bound, lemma_mod_multiples_basic,
    lemma_mul_mod_noop_general, lemma_mul_mod_noop_left, lemma_mul_mod_noop_right,
    lemma_small_mod,
};
use vstd::arithmetic::mul::{lemma_mul_basics, lemma_mul_is_associative, lemma_mul_is_commutative};
use vstd::arithmetic::power::{lemma_pow0, lemma_pow1, lemma_pow_adds, lemma_pow_multiplies, pow};
use vstd::prelude::*;

verus! {

/// `p` is a prime number.
pub open spec fn is_prime(p: int) -> bool {
    p >= 2 && forall|d: int| 1 < d < p ==> #[trigger] (p % d) != 0
}

/// Modulo a prime every number that is not a multiple of it has an inverse.
pub proof fn lemma_prime_units(x: int, p: int)
    requires
        is_prime(p),
        x % p != 0,
    ensures
        has_inverse(x, p),
{
    let r = x % p;
    lemma_mod_bound(x, p);
    let g = gcd(r as nat, p as nat) as int;
    lemma_gcd_divides(r as nat, p as nat);
    let m = choose|m: int| r == #[trigger] (g * m);
    let n = choose|n: int| p == #[trigger] (g * n);
    assert(g >= 1 && g <= r) by (nonlinear_arith)
        requires
            g >= 0,
            r == g * m,
            r > 0,
    ;
    if g > 1 {
        lemma_mod_multiples_basic(n, g);
        lemma_mul_is_commutative(n, g);
        assert(p % g == 0);
    }
    lemma_inverse_iff_coprime(x, p);
}

/// A factor that has an inverse can be cancelled from a congruence.
pub proof fn lemma_cancel(a: int, x: int, y: int, q: int)
    requires
        q > 0,
        has_inverse(a, q),
        (a * x) % q == (a * y) % q,
    ensures
        x % q == y % q,
{
    lemma_inverse_exists(a, q);
    let i = inverse(a, q);
    lemma_unit_times(a, i, x, q);
    lemma_unit_times(a, i, y, q);
    lemma_mul_mod_noop_right(i, a * x, q);
    lemma_mul_mod_noop_right(i, a * y, q);
}

/// Multiplying by a number and then by its inverse changes no residue.
proof fn lemma_unit_times(a: int, i: int, x: int, q: int)
    requires
        q > 0,
        is_inverse(a, i, q),
    ensures
        (i * (a * x)) % q == x % q,
        (a * (i * x)) % q == x % q,
{
    lemma_mul_is_associative(i, a, x);
    lemma_mul_is_associative(a, i, x);
    lemma_mul_is_commutative(i, a);
    lemma_mul_mod_noop_left(a * i, x, q);
    lemma_mul_mod_noop_left(1, x, q);
    lemma_mul_basics(x);
}

/// The product of two numbers that have inverses has one.
pub proof fn lemma_unit_product(x: int, y: int, q: int)
    requires
        q > 0,
        has_inverse(x, q),
        has_inverse(y, q),
    ensures
        has_inverse(x * y, q),
{
    lemma_inverse_exists(x, q);
    lemma_inverse_exists(y, q);
    let i = inverse(x, q);
    let j = inverse(y, q);
    assert((x * y) * (i * j) == (x * i) * (y * j)) by (nonlinear_arith);
    lemma_mul_mod_noop_general(x * i, y * j, q);
    lemma_mul_mod_noop_general(1, 1, q);
    assert(is_inverse(x * y, i * j, q));
}

/// The numbers `1, 2, .., n`.
pub open spec fn firsts(n: nat) -> Seq<int> {
    Seq::new(n, |i: int| i + 1)
}

/// The residues of `a, 2a, .., na` modulo `p`.
pub open spec fn multiples(a: int, p: int, n: nat) -> Seq<int> {
    Seq::new(n, |i: int| (a * (i + 1)) % p)
}

/// The product of the first `n` multiples of `a` is congruent to `a^n` times
/// the product of `1..n`.
proof fn lemma_multiples_product(a: int, p: int, n: nat)
    requires
        p > 0,
    ensures
        seq_product(multiples(a, p, n)) % p == (pow(a, n) * seq_product(firsts(n))) % p,
    decreases n,
{
    if n == 0 {
        lemma_pow0(a);
        assert(multiples(a, p, n) =~= Seq::<int>::empty());
        assert(firsts(n) =~= Seq::<int>::empty());
    } else {
        let k = (n - 1) as nat;
        lemma_multiples_product(a, p, k);
        assert(multiples(a, p, n).drop_last() =~= multiples(a, p, k));
        assert(firsts(n).drop_last() =~= firsts(k));
        let left = seq_product(multiples(a, p, k));
        let right = seq_product(firsts(k));
        lemma_pow_adds(a, k, 1);
        lemma_pow1(a);
        lemma_mul_mod_noop_general(left, a * n, p);
        lemma_mul_mod_noop_general(pow(a, k) * right, a * n, p);
        assert((pow(a, k) * right) * (a * n) == (pow(a, k) * a) * (right * n)) by (nonlinear_arith);
    }
}

/// Modulo a prime `p` the product of `1..n` has an inverse, for `n` below `p`.
proof fn lemma_firsts_product_unit(p: int, n: nat)
    requires
        is_prime(p),
        n < p,
    ensures
        has_inverse(seq_product(firsts(n)), p),
    decreases n,
{
    if n == 0 {
        assert(firsts(n) =~= Seq::<int>::empty());
        lemma_mul_basics(1);
        assert(is_inverse(1, 1, p));
    } else {
        let k = (n - 1) as nat;
        lemma_firsts_product_unit(p, k);
        assert(firsts(n).drop_last() =~= firsts(k));
        lemma_small_mod(n, p as nat);
        lemma_prime_units(n as int, p);
        lemma_unit_product(seq_product(firsts(k)), n as int, p);
    }
}

/// Modulo a prime `p`, the multiples `a, 2a, .., (p-1)a` of a number that is
/// no multiple of `p` are the numbers `1, .., p-1` in another order.
proof fn lemma_multiples_permute(a: int, p: int)
    requires
        is_prime(p),
        a % p != 0,
    ensures
        multiples(a, p, (p - 1) as nat).to_multiset() == firsts((p - 1) as nat).to_multiset(),
{
    let n = (p - 1) as nat;
    let s = multiples(a, p, n);
    let t = firsts(n);
    lemma_prime_units(a, p);
    lemma_inverse_exists(a, p);
    let inv = inverse(a, p);
    lemma_small_mod(0, p as nat);
    lemma_mul_basics(a);

    assert(t.no_duplicates());
    assert forall|i: int, j: int| 0 <= i < s.len() && 0 <= j < s.len() && i != j implies s[i]
        != s[j] by {
        if s[i] == s[j] {
            lemma_cancel(a, i + 1, j + 1, p);
            lemma_small_mod((i + 1) as nat, p as nat);
            lemma_small_mod((j + 1) as nat, p as nat);
        }
    }
    assert(s.no_duplicates());

    assert forall|v: int| s.contains(v) <==> 1 <= v <= p - 1 by {
        if s.contains(v) {
            let i = choose|i: int| 0 <= i < s.len() && s[i] == v;
            lemma_mod_bound(a * (i + 1), p);
            if v == 0 {
                lemma_cancel(a, i + 1, 0, p);
                lemma_small_mod((i + 1) as nat, p as nat);
            }
        }
        if 1 <= v <= p - 1 {
            let w = (v * inv) % p;
            lemma_mod_bound(v * inv, p);
            lemma_unit_times(a, inv, v, p);
            lemma_mul_is_commutative(inv, v);
            lemma_mul_mod_noop_right(a, v * inv, p);
            lemma_small_mod(v as nat, p as nat);
            assert((a * w) % p == v);
            if w == 0 {
                assert(false);
            }
            assert(s[w - 1] == v);
        }
    }
    assert forall|v: int| t.contains(v) <==> 1 <= v <= p - 1 by {
        if 1 <= v <= p - 1 {
            assert(t[v - 1] == v);
        }
    }
    s.to_multiset_ensures();
    t.to_multiset_ensures();
    s.lemma_multiset_has_no_duplicates();
    t.lemma_multiset_has_no_duplicates();
    assert forall|v: int| s.to_multiset().count(v) == t.to_multiset().count(v) by {
        if 1 <= v <= p - 1 {
            assert(s.contains(v));
            assert(t.contains(v));
            assert(s.to_multiset().contains(v));
            assert(t.to_multiset().contains(v));
        } else {
            assert(!s.contains(v));
            assert(!t.contains(v));
        }
    }
    assert(s.to_multiset() =~= t.to_multiset());
}

/// Fermat's little theorem: modulo a prime `p`, a number that is no multiple
/// of `p`, raised to the power `p - 1`, is one.
pub proof fn lemma_fermat(a: int, p: int)
    requires
        is_prime(p),
        a % p != 0,
    ensures
        pow_mod(a, (p - 1) as nat, p) == 1,
{
    let n = (p - 1) as nat;
    let f = seq_product(firsts(n));
    lemma_multiples_permute(a, p);
    lemma_product_permutation(multiples(a, p, n), firsts(n));
    lemma_multiples_product(a, p, n);
    lemma_firsts_product_unit(p, n);
    // f * a^(p-1) and f * 1 are congruent, and f can be cancelled
    lemma_mul_is_commutative(pow(a, n), f);
    lemma_mul_basics(f);
    lemma_cancel(f, pow(a, n), 1, p);
    lemma_small_mod(1, p as nat);
}

/// Modulo a prime `p` the exponent of a power counts modulo `p - 1` only.
pub proof fn lemma_pow_exponent_reduced(a: int, e: nat, p: int)
    requires
        is_prime(p),
        a % p != 0,
    ensures
        pow_mod(a, e, p) == pow_mod(a, (e % ((p - 1) as nat)) as nat, p),
{
    let n = (p - 1) as nat;
    if n == 1 {
        // p == 2: every power of an odd number is odd
        lemma_fermat(a, p);
        lemma_pow1(a);
        lemma_pow_mod_one(a, e, p);
        lemma_pow_mod_one(a, (e % n) as nat, p);
    } else {
        let t = e / n;
        let r = e % n;
        lemma_fundamental_div_mod(e as int, n as int);
        lemma_mod_bound(e as int, n as int);
        lemma_pow_adds(a, (n * t) as nat, r);
        lemma_pow_multiplies(a, n, t);
        lemma_fermat(a, p);
        lemma_pow_mod_one(pow(a, n), t, p);
        lemma_mul_mod_noop_left(pow(pow(a, n), t), pow(a, r), p);
        lemma_mul_basics(pow(a, r));
        assert((n * t) as nat + r == e);
    }
}

/// Every power of a number that is congruent to one is congruent to one.
proof fn lemma_pow_mod_one(x: int, e: nat, q: int)
    requires
        q >= 2,
        x % q == 1,
    ensures
        pow(x, e) % q == 1,
    decreases e,
{
    lemma_small_mod(1, q as nat);
    if e == 0 {
        lemma_pow0(x);
    } else {
        lemma_pow_mod_one(x, (e - 1) as nat, q);
        lemma_pow_adds(x, (e - 1) as nat, 1);
        lemma_pow1(x);
        lemma_mul_mod_noop_general(pow(x, (e - 1) as nat), x, q);
    }
}

/// Modulo a prime `p`, the power `p - 2` of a number that is no multiple of
/// `p` is its inverse: the exponent `p - 2` stands for `-1`.
pub proof fn lemma_pow_is_inverse(a: int, p: int)
    requires
        is_prime(p),
        a % p != 0,
    ensures
        has_inverse(a, p),
        pow_mod(a, (p - 2) as nat, p) == inverse(a, p),
{
    lemma_prime_units(a, p);
    lemma_inverse_exists(a, p);
    lemma_fermat(a, p);
    lemma_pow_adds(a, 1, (p - 2) as nat);
    lemma_pow1(a);
    lemma_mul_mod_noop_right(a, pow(a, (p - 2) as nat), p);
    lemma_small_mod(1, p as nat);
    lemma_mod_bound(pow(a, (p - 2) as nat), p);
    assert(is_inverse(a, pow_mod(a, (p - 2) as nat, p), p));
    lemma_inverse_unique(a, pow_mod(a, (p - 2) as nat, p), inverse(a, p), p);
}

} // verus!
