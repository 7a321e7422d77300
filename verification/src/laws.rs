//! What holds of the signing round as a whole: statements that relate
//! several of its operations, each proved from their definitions.

use crate::bigint::value_of;
use crate::digest::sha256_hex;
use crate::residue::{div_mod, inverse, lemma_inverse_exists, mul_mod, pow_mod, sub_mod};
use crate::series::{
    lemma_map_permutation, lemma_permutation_length, lemma_permutation_step,
    lemma_product_remove, lemma_sum_permutation, seq_product,
};
use crate::sign::{
    accepted_before, aggregate_value, binding_defined, binding_text, binding_value,
    bindings_defined, challenge_value, commitment_models, commitment_term, commitment_terms,
    group_commitment, lagrange_defined, lagrange_factor_defined, lagrange_factors,
    lagrange_value, participant_accepted, participant_term, response_value, values_of,
    CommitmentModel, PublicCommitment,
};
use crate::text::hex_value;
use rug::Integer;
use vstd::arithmetic::div_mod::{
    lemma_mod_bound, lemma_mul_mod_noop_general, lemma_mul_mod_noop_left, lemma_small_mod,
};
use vstd::arithmetic::mul::{lemma_mul_basics, lemma_mul_nonnegative};
use vstd::arithmetic::power::{lemma_pow_adds, lemma_pow_mod_noop, lemma_pow_multiplies, pow};
use vstd::prelude::*;

verus! {

/// What a signer with nonces `d` and `e` and private share `s` publishes in
/// the group generated by `g`: the three powers of `g`, modulo `q`.
pub open spec fn published(q: int, g: int, id: int, d: int, e: int, s: int) -> CommitmentModel {
    CommitmentModel {
        id,
        d: pow_mod(g, d as nat, q),
        e: pow_mod(g, e as nat, q),
        share: pow_mod(g, s as nat, q),
    }
}

/// The binding factor is determined by the modulus, the message and the
/// identifier and two nonce commitments of the participant: two commitments
/// that agree in these have the same binding factor, whatever their public
/// key shares are.
pub proof fn lemma_binding_value_determined(
    q: int,
    a: CommitmentModel,
    b: CommitmentModel,
    message: Seq<char>,
)
    requires
        a.id == b.id,
        a.d == b.d,
        a.e == b.e,
    ensures
        binding_defined(a, message) == binding_defined(b, message),
        binding_value(q, a, message) == binding_value(q, b, message),
{
}

/// The product of the terms of a list of commitments does not depend on the
/// order of the list.
proof fn lemma_terms_order(
    q: int,
    a: Seq<CommitmentModel>,
    b: Seq<CommitmentModel>,
    message: Seq<char>,
)
    requires
        a.to_multiset() == b.to_multiset(),
    ensures
        seq_product(commitment_terms(q, a, message)) == seq_product(
            commitment_terms(q, b, message),
        ),
    decreases a.len(),
{
    lemma_permutation_length(a, b);
    if a.len() > 0 {
        let k = lemma_permutation_step(a, b);
        lemma_terms_order(q, a.drop_last(), b.remove(k), message);
        lemma_product_remove(commitment_terms(q, b, message), k);
        assert(commitment_terms(q, b, message).remove(k) =~= commitment_terms(
            q,
            b.remove(k),
            message,
        ));
        assert(commitment_terms(q, a, message).drop_last() =~= commitment_terms(
            q,
            a.drop_last(),
            message,
        ));
    }
}

/// The group commitment and the challenge do not depend on the order of the
/// participants: two lists that hold the same commitments, each as often in
/// one as in the other, have the same group commitment and the same
/// challenge, and the binding factors of one exist where those of the other do.
pub proof fn lemma_group_commitment_order(
    q: int,
    a: Seq<CommitmentModel>,
    b: Seq<CommitmentModel>,
    message: Seq<char>,
    key: int,
)
    requires
        a.to_multiset() == b.to_multiset(),
    ensures
        bindings_defined(a, message) == bindings_defined(b, message),
        group_commitment(q, a, message) == group_commitment(q, b, message),
        challenge_value(q, group_commitment(q, a, message), key, message) == challenge_value(
            q,
            group_commitment(q, b, message),
            key,
            message,
        ),
{
    lemma_terms_order(q, a, b, message);
    a.to_multiset_ensures();
    b.to_multiset_ensures();
    if bindings_defined(a, message) {
        assert forall|i: int| 0 <= i < b.len() implies binding_defined(#[trigger] b[i], message) by {
            assert(b.contains(b[i]));
            assert(b.to_multiset().count(b[i]) > 0);
            assert(a.to_multiset().count(b[i]) > 0);
            let k = choose|k: int| 0 <= k < a.len() && a[k] == b[i];
            assert(binding_defined(a[k], message));
        }
    }
    if bindings_defined(b, message) {
        assert forall|i: int| 0 <= i < a.len() implies binding_defined(#[trigger] a[i], message) by {
            assert(a.contains(a[i]));
            assert(a.to_multiset().count(a[i]) > 0);
            assert(b.to_multiset().count(a[i]) > 0);
            let k = choose|k: int| 0 <= k < b.len() && b[k] == a[i];
            assert(binding_defined(b[k], message));
        }
    }
}

/// The same of two lists of published commitments: where one is the other
/// in another order, the two have the same group commitment and the same
/// challenge.
pub proof fn lemma_group_commitment_order_of_lists(
    q: int,
    a: Seq<PublicCommitment>,
    b: Seq<PublicCommitment>,
    message: Seq<char>,
    key: int,
)
    requires
        a.to_multiset() == b.to_multiset(),
    ensures
        bindings_defined(commitment_models(a), message) == bindings_defined(
            commitment_models(b),
            message,
        ),
        group_commitment(q, commitment_models(a), message) == group_commitment(
            q,
            commitment_models(b),
            message,
        ),
        challenge_value(q, group_commitment(q, commitment_models(a), message), key, message)
            == challenge_value(
            q,
            group_commitment(q, commitment_models(b), message),
            key,
            message,
        ),
{
    let model = |c: PublicCommitment| c@;
    lemma_map_permutation(a, b, model);
    assert(commitment_models(a) =~= a.map_values(model));
    assert(commitment_models(b) =~= b.map_values(model));
    lemma_group_commitment_order(q, commitment_models(a), commitment_models(b), message, key);
}

/// The aggregate response does not depend on the order of the shares.
pub proof fn lemma_aggregate_order(q: int, a: Seq<int>, b: Seq<int>)
    requires
        a.to_multiset() == b.to_multiset(),
    ensures
        aggregate_value(q, a) == aggregate_value(q, b),
{
    lemma_sum_permutation(a, b);
}

/// The same of two lists of shares: where one is the other in another
/// order, the two have the same aggregate response.
pub proof fn lemma_aggregate_order_of_lists(q: int, a: Seq<Integer>, b: Seq<Integer>)
    requires
        a.to_multiset() == b.to_multiset(),
    ensures
        aggregate_value(q, values_of(a)) == aggregate_value(q, values_of(b)),
{
    let value = |n: Integer| value_of(n);
    lemma_map_permutation(a, b, value);
    assert(values_of(a) =~= a.map_values(value));
    assert(values_of(b) =~= b.map_values(value));
    lemma_aggregate_order(q, values_of(a), values_of(b));
}

/// With no participants every fold has its neutral value: the Lagrange
/// coefficient of any identifier exists and is one, the group commitment is
/// one, and the aggregate response is zero.
pub proof fn lemma_no_participants(q: int, id: int, message: Seq<char>)
    requires
        q >= 2,
    ensures
        lagrange_defined(q, id, 0),
        lagrange_value(q, id, 0) == 1,
        bindings_defined(Seq::<CommitmentModel>::empty(), message),
        group_commitment(q, Seq::<CommitmentModel>::empty(), message) == 1,
        aggregate_value(q, Seq::<int>::empty()) == 0,
{
    lemma_small_mod(1, q as nat);
    lemma_small_mod(0, q as nat);
    assert(lagrange_factors(q, id, 0) =~= Seq::<int>::empty());
    assert(commitment_terms(q, Seq::<CommitmentModel>::empty(), message) =~= Seq::<int>::empty());
}

/// The product of a sequence of ones is one.
proof fn lemma_product_of_ones(s: Seq<int>)
    requires
        forall|i: int| 0 <= i < s.len() ==> s[i] == 1,
    ensures
        seq_product(s) == 1,
    decreases s.len(),
{
    if s.len() > 0 {
        lemma_product_of_ones(s.drop_last());
    }
}

/// Over the indices `0..n` the Lagrange coefficient takes two values only.
/// It is one where there are no indices or the identifier is zero, and zero
/// for every other identifier, because the index zero then gives the factor
/// zero.
pub proof fn lemma_lagrange_value_is_zero_or_one(q: int, id: int, n: nat)
    requires
        q >= 2,
        lagrange_defined(q, id, n),
    ensures
        lagrange_value(q, id, n) == if n == 0 || id == 0 {
            1int
        } else {
            0int
        },
{
    let factors = lagrange_factors(q, id, n);
    lemma_small_mod(1, q as nat);
    lemma_small_mod(0, q as nat);
    if n == 0 {
        assert(factors =~= Seq::<int>::empty());
    } else if id == 0 {
        assert forall|j: int| 0 <= j < factors.len() implies factors[j] == 1 by {
            if j != 0 {
                assert(lagrange_factor_defined(q, id, j));
                let b = sub_mod(j, 0, q);
                lemma_inverse_exists(b, q);
                lemma_mul_mod_noop_left(j, inverse(b, q), q);
            }
        }
        lemma_product_of_ones(factors);
    } else {
        assert(lagrange_factor_defined(q, id, 0));
        assert(factors[0] == div_mod(0, sub_mod(0, id, q), q));
        lemma_mul_basics(inverse(sub_mod(0, id, q), q));
        assert(factors[0] == 0);
        lemma_product_remove(factors, 0);
        lemma_mul_basics(seq_product(factors.remove(0)));
    }
}

/// A product of three keeps its residue where each factor keeps its own.
proof fn lemma_product_of_congruent(a: int, b: int, c: int, x: int, y: int, z: int, q: int)
    requires
        q > 0,
        a % q == x % q,
        b % q == y % q,
        c % q == z % q,
    ensures
        ((a * b) * c) % q == ((x * y) * z) % q,
{
    lemma_mul_mod_noop_general(a, b, q);
    lemma_mul_mod_noop_general(x, y, q);
    lemma_mul_mod_noop_general(a * b, c, q);
    lemma_mul_mod_noop_general(x * y, z, q);
}

/// One signer, signing alone, is accepted.
///
/// Let the signer publish `g^d`, `g^e` and `g^s` for its nonces `d` and `e`
/// and its private share `s`, and answer a challenge with its share `z`,
/// computed with the Lagrange coefficient one. Where `d + e * binding + s *
/// challenge` stays below `q`, `g^z` equals the group commitment times the
/// public share to the challenge, and the signer's commitment is accepted
/// over every set of indices that gives it the coefficient one: the
/// verification of the list that holds this one commitment gives `true`.
///
/// Nothing is said where the sum reaches `q`: the share is then reduced
/// modulo `q`, and the powers of `g` do not follow.
pub proof fn lemma_single_signer(
    q: int,
    g: int,
    id: int,
    d: int,
    e: int,
    s: int,
    message: Seq<char>,
    challenge: int,
    n: nat,
)
    requires
        q >= 2,
        d >= 0,
        e >= 0,
        s >= 0,
        0 <= challenge < q,
        lagrange_value(q, id, n) == 1,
        d + e * binding_value(q, published(q, g, id, d, e, s), message) + s * challenge < q,
    ensures
        ({
            let c = published(q, g, id, d, e, s);
            let z = response_value(q, d, e, binding_value(q, c, message), 1, s, challenge);
            &&& z == d + e * binding_value(q, c, message) + s * challenge
            &&& pow_mod(g, z as nat, q) == mul_mod(
                group_commitment(q, seq![c], message),
                pow_mod(c.share, challenge as nat, q),
                q,
            )
            &&& participant_accepted(q, g, c, message, z, challenge, n)
            &&& accepted_before(q, g, seq![c], message, z, challenge, n, 1)
        }),
{
    let c = published(q, g, id, d, e, s);
    let rho = binding_value(q, c, message);
    lemma_mod_bound(hex_value(sha256_hex(binding_text(c, message))), q);
    lemma_mul_nonnegative(e, rho);
    lemma_mul_nonnegative(s, challenge);
    let total = d + e * rho + s * challenge;
    let z = response_value(q, d, e, rho, 1, s, challenge);
    assert(1 * s * challenge == s * challenge) by (nonlinear_arith);
    lemma_small_mod(total as nat, q as nat);
    assert(z == total);

    // g^total is g^d times (g^e)^rho times (g^s)^challenge
    let gd = pow(g, d as nat);
    let ge = pow(g, e as nat);
    let gs = pow(g, s as nat);
    lemma_pow_adds(g, d as nat, (e * rho) as nat);
    lemma_pow_adds(g, (d + e * rho) as nat, (s * challenge) as nat);
    lemma_pow_multiplies(g, e as nat, rho as nat);
    lemma_pow_multiplies(g, s as nat, challenge as nat);
    assert(pow(g, total as nat) == (gd * pow(ge, rho as nat)) * pow(gs, challenge as nat));

    // the published values are these powers, reduced
    lemma_pow_mod_noop(ge, rho as nat, q);
    lemma_pow_mod_noop(gs, challenge as nat, q);
    lemma_mod_bound(gd, q);
    lemma_small_mod(c.d as nat, q as nat);
    lemma_product_of_congruent(
        c.d,
        pow(c.e, rho as nat),
        pow(c.share, challenge as nat),
        gd,
        pow(ge, rho as nat),
        pow(gs, challenge as nat),
        q,
    );
    let term = commitment_term(q, c, message);
    assert(term == c.d * pow(c.e, rho as nat));
    assert((term * pow(c.share, challenge as nat)) % q == pow_mod(g, z as nat, q));

    // the exponent of the public share is the challenge itself
    lemma_mul_basics(challenge);
    lemma_small_mod(challenge as nat, q as nat);
    assert(mul_mod(challenge, lagrange_value(q, c.id, n), q) == challenge);
    assert(participant_term(q, c, message, challenge, n) == pow_mod(g, z as nat, q));

    // the group commitment of the one commitment is its term
    let terms = commitment_terms(q, seq![c], message);
    assert(terms.drop_last() =~= Seq::<int>::empty());
    assert(seq_product(terms.drop_last()) == 1);
    assert(seq_product(terms) == 1 * term);
    lemma_mul_basics(term);
    lemma_mul_mod_noop_general(term, pow(c.share, challenge as nat), q);
}

} // verus!
