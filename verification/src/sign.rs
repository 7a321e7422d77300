//! The signing round: binding factors, the group commitment and its
//! challenge, Lagrange coefficients, signature shares, their verification
//! and their aggregation.

use crate::bigint::{copy_of, decimal_of, from_u32, is_same, value_of};
use crate::digest::{hash_defined, hash_scalar, hash_to_scalar};
use crate::error::ArithmeticError;
use crate::modular::pow as power;
use crate::residue::{div_mod, has_inverse, mul_mod, pow_mod, sub_mod};
use crate::series::{seq_product, seq_sum};
use crate::state::FrostState;
use crate::text::decimal_text;
use rug::Integer;
use vstd::arithmetic::div_mod::{
    lemma_add_mod_noop, lemma_add_mod_noop_right, lemma_mul_mod_noop_general,
    lemma_mul_mod_noop_left, lemma_mul_mod_noop_right, lemma_small_mod,
};
use vstd::arithmetic::mul::lemma_mul_is_associative;
use vstd::arithmetic::power::pow;
use vstd::prelude::*;
use vstd::string::*;

verus! {

/// What one participant publishes for a signing round: its identifier, the
/// commitments `di` and `ei` to its two secret nonces, and its public key
/// share.
pub struct PublicCommitment {
    pub participant_id: Integer,
    pub di: Integer,
    pub ei: Integer,
    pub public_share: Integer,
}

/// A published commitment as four mathematical integers.
pub struct CommitmentModel {
    pub id: int,
    pub d: int,
    pub e: int,
    pub share: int,
}

impl View for PublicCommitment {
    type V = CommitmentModel;

    open spec fn view(&self) -> CommitmentModel {
        CommitmentModel {
            id: value_of(self.participant_id),
            d: value_of(self.di),
            e: value_of(self.ei),
            share: value_of(self.public_share),
        }
    }
}

/// The canonical text of a commitment: identifier, `di` and `ei` in decimal,
/// with `::` between them.
pub open spec fn commitment_text(c: CommitmentModel) -> Seq<char> {
    decimal_text(c.id) + "::"@ + decimal_text(c.d) + "::"@ + decimal_text(c.e)
}

/// The text that is hashed into a participant's binding factor: identifier,
/// message and the commitment's canonical text, with `::::` between them.
pub open spec fn binding_text(c: CommitmentModel, message: Seq<char>) -> Seq<char> {
    decimal_text(c.id) + "::::"@ + message + "::::"@ + commitment_text(c)
}

/// Whether the binding factor of `c` for `message` exists: its digest is a
/// hexadecimal numeral.
pub open spec fn binding_defined(c: CommitmentModel, message: Seq<char>) -> bool {
    hash_defined(binding_text(c, message))
}

/// The binding factor of `c` for `message`, modulo `q`.
pub open spec fn binding_value(q: int, c: CommitmentModel, message: Seq<char>) -> int {
    hash_scalar(binding_text(c, message), q)
}

impl PublicCommitment {
    /// A commitment with the given fields.
    pub fn new(participant_id: Integer, di: Integer, ei: Integer, public_share: Integer) -> (r:
        Self)
        ensures
            r.participant_id == participant_id,
            r.di == di,
            r.ei == ei,
            r.public_share == public_share,
    {
        Self { participant_id, di, ei, public_share }
    }

    /// The canonical text of the commitment.
    pub fn to_string(&self) -> (r: String)
        ensures
            r@ == commitment_text(self@),
    {
        let mut text = decimal_of(&self.participant_id);
        text.append("::");
        let d = decimal_of(&self.di);
        text.append(d.as_str());
        text.append("::");
        let e = decimal_of(&self.ei);
        text.append(e.as_str());
        text
    }
}

/// The binding factor of a participant for a message: the hash of its
/// identifier, the message and its commitment, as a residue modulo `q`.
pub fn compute_binding_value(
    state: &FrostState,
    participant_commitment: &PublicCommitment,
    message: &str,
) -> (r: Result<Integer, ArithmeticError>)
    ensures
        match r {
            Ok(v) => {
                &&& binding_defined(participant_commitment@, message@)
                &&& value_of(v) == binding_value(
                    state.modulus(),
                    participant_commitment@,
                    message@,
                )
                &&& 0 <= value_of(v) < state.modulus()
            },
            Err(e) => !binding_defined(participant_commitment@, message@) && e
                == ArithmeticError::MalformedDigest,
        },
{
    let mut text = decimal_of(&participant_commitment.participant_id);
    text.append("::::");
    text.append(message);
    text.append("::::");
    let own = participant_commitment.to_string();
    text.append(own.as_str());
    hash_to_scalar(text.as_str(), state.q())
}

/// The commitments of a list, as mathematical integers.
pub open spec fn commitment_models(cs: Seq<PublicCommitment>) -> Seq<CommitmentModel> {
    Seq::new(cs.len(), |i: int| cs[i]@)
}

/// Whether every commitment of the list has a binding factor for `message`.
pub open spec fn bindings_defined(cs: Seq<CommitmentModel>, message: Seq<char>) -> bool {
    forall|i: int| 0 <= i < cs.len() ==> binding_defined(#[trigger] cs[i], message)
}

/// What one participant adds to the group commitment: `d` times `e` to the
/// power of its binding factor.
pub open spec fn commitment_term(q: int, c: CommitmentModel, message: Seq<char>) -> int {
    c.d * pow(c.e, binding_value(q, c, message) as nat)
}

/// The terms of all commitments of the list, in its order.
pub open spec fn commitment_terms(q: int, cs: Seq<CommitmentModel>, message: Seq<char>) -> Seq<
    int,
> {
    Seq::new(cs.len(), |i: int| commitment_term(q, cs[i], message))
}

/// The group commitment: the product of all terms, modulo `q`.
pub open spec fn group_commitment(q: int, cs: Seq<CommitmentModel>, message: Seq<char>) -> int {
    seq_product(commitment_terms(q, cs, message)) % q
}

/// The text that is hashed into the challenge: group commitment, group
/// public key and message, with `::::` between them.
pub open spec fn challenge_text(commitment: int, key: int, message: Seq<char>) -> Seq<char> {
    decimal_text(commitment) + "::::"@ + decimal_text(key) + "::::"@ + message
}

/// Whether the challenge exists: its digest is a hexadecimal numeral.
pub open spec fn challenge_defined(commitment: int, key: int, message: Seq<char>) -> bool {
    hash_defined(challenge_text(commitment, key, message))
}

/// The challenge, modulo `q`.
pub open spec fn challenge_value(q: int, commitment: int, key: int, message: Seq<char>) -> int {
    hash_scalar(challenge_text(commitment, key, message), q)
}

/// One more commitment multiplies the product by its term.
proof fn lemma_group_product_step(q: int, cs: Seq<CommitmentModel>, message: Seq<char>, i: int)
    requires
        0 <= i < cs.len(),
    ensures
        seq_product(commitment_terms(q, cs.take(i + 1), message)) == seq_product(
            commitment_terms(q, cs.take(i), message),
        ) * commitment_term(q, cs[i], message),
{
    assert(commitment_terms(q, cs.take(i + 1), message).drop_last() =~= commitment_terms(
        q,
        cs.take(i),
        message,
    ));
}

/// Reducing the factors of a product of three on the way changes nothing.
proof fn lemma_reduced_product(g: int, d: int, p: int, q: int)
    requires
        q > 0,
    ensures
        (((g % q) * d) % q * (p % q)) % q == (g * (d * p)) % q,
{
    lemma_mul_mod_noop_left(g, d, q);
    lemma_mul_mod_noop_general(g * d, p, q);
    lemma_mul_is_associative(g, d, p);
}

/// The group commitment of a list of published commitments and the
/// challenge of the signing round.
///
/// The group commitment is the product, modulo `q`, of `di` times `ei` to
/// the binding factor over all participants; the challenge is the hash of
/// the group commitment, the group public key and the message. The result
/// is an error exactly where one of the digests is no hexadecimal numeral.
pub fn compute_group_commitment_and_challenge(
    state: &FrostState,
    participants_commitments: &[PublicCommitment],
    message: &str,
    group_public_key: Integer,
) -> (r: Result<(Integer, Integer), ArithmeticError>)
    ensures
        match r {
            Ok(pair) => {
                &&& bindings_defined(commitment_models(participants_commitments@), message@)
                &&& challenge_defined(
                    group_commitment(
                        state.modulus(),
                        commitment_models(participants_commitments@),
                        message@,
                    ),
                    value_of(group_public_key),
                    message@,
                )
                &&& value_of(pair.0) == group_commitment(
                    state.modulus(),
                    commitment_models(participants_commitments@),
                    message@,
                )
                &&& value_of(pair.1) == challenge_value(
                    state.modulus(),
                    value_of(pair.0),
                    value_of(group_public_key),
                    message@,
                )
                &&& 0 <= value_of(pair.0) < state.modulus()
                &&& 0 <= value_of(pair.1) < state.modulus()
            },
            Err(e) => {
                &&& e == ArithmeticError::MalformedDigest
                &&& !(bindings_defined(commitment_models(participants_commitments@), message@)
                    && challenge_defined(
                    group_commitment(
                        state.modulus(),
                        commitment_models(participants_commitments@),
                        message@,
                    ),
                    value_of(group_public_key),
                    message@,
                ))
            },
        },
{
    let q = state.q();
    let ghost models = commitment_models(participants_commitments@);
    let mut product = from_u32(1);
    let mut i: usize = 0;
    proof {
        lemma_small_mod(1, value_of(*q) as nat);
    }
    while i < participants_commitments.len()
        invariant
            i <= participants_commitments.len(),
            value_of(*q) == state.modulus(),
            value_of(*q) >= 2,
            models == commitment_models(participants_commitments@),
            bindings_defined(models.take(i as int), message@),
            value_of(product) == group_commitment(
                state.modulus(),
                models.take(i as int),
                message@,
            ),
        decreases participants_commitments.len() - i,
    {
        let pc = &participants_commitments[i];
        assert(models[i as int] == pc@);
        let binding = match compute_binding_value(state, pc, message) {
            Ok(v) => v,
            Err(e) => {
                return Err(e);
            },
        };
        let raised = match power(&pc.ei, &binding, q) {
            Ok(v) => v,
            Err(e) => {
                return Err(e);
            },
        };
        proof {
            lemma_group_product_step(state.modulus(), models, message@, i as int);
            lemma_reduced_product(
                seq_product(commitment_terms(state.modulus(), models.take(i as int), message@)),
                pc@.d,
                pow(pc@.e, binding_value(state.modulus(), pc@, message@) as nat),
                state.modulus(),
            );
            assert forall|k: int| 0 <= k < i + 1 implies binding_defined(
                #[trigger] models.take(i + 1)[k],
                message@,
            ) by {
                if k < i {
                    assert(models.take(i + 1)[k] == models.take(i as int)[k]);
                }
            }
        }
        let scaled = crate::modular::mul(product, copy_of(&pc.di), q);
        product = crate::modular::mul(scaled, raised, q);
        i = i + 1;
    }
    proof {
        assert(models.take(i as int) =~= models);
    }
    let mut text = decimal_of(&product);
    text.append("::::");
    let key = decimal_of(&group_public_key);
    text.append(key.as_str());
    text.append("::::");
    text.append(message);
    match hash_to_scalar(text.as_str(), q) {
        Ok(challenge) => Ok((product, challenge)),
        Err(e) => Err(e),
    }
}

/// Whether the factor that index `j` gives to the Lagrange coefficient of
/// `id` exists: the index is the identifier itself, which is left out, or
/// `j - id` has an inverse modulo `q`.
pub open spec fn lagrange_factor_defined(q: int, id: int, j: int) -> bool {
    j == id || has_inverse(sub_mod(j, id, q), q)
}

/// The factor that index `j` gives to the Lagrange coefficient of `id`:
/// `j / (j - id)` modulo `q`, and one for the identifier itself.
pub open spec fn lagrange_factor(q: int, id: int, j: int) -> int {
    if j == id {
        1
    } else {
        div_mod(j, sub_mod(j, id, q), q)
    }
}

/// Whether the Lagrange coefficient of `id` among `n` participants exists:
/// every factor of it does.
pub open spec fn lagrange_defined(q: int, id: int, n: nat) -> bool {
    forall|j: int| 0 <= j < n ==> lagrange_factor_defined(q, id, j)
}

/// The factors of the indices `0..n`, in order.
pub open spec fn lagrange_factors(q: int, id: int, n: nat) -> Seq<int> {
    Seq::new(n, |j: int| lagrange_factor(q, id, j))
}

/// The Lagrange coefficient of `id` among `n` participants, modulo `q`.
pub open spec fn lagrange_value(q: int, id: int, n: nat) -> int {
    seq_product(lagrange_factors(q, id, n)) % q
}

/// The Lagrange coefficient of a participant: the product over the indices
/// `j` in `0..number_of_participants`, the participant's own identifier
/// left out, of `j / (j - participant_id)` modulo `q`.
///
/// The indices are the numbers `0..number_of_participants`, whatever the
/// identifiers of the participants of the session are. The result is an
/// error exactly where one of the differences has no inverse modulo `q`.
pub fn lagrange_coefficient(
    state: &FrostState,
    participant_id: &Integer,
    number_of_participants: u32,
) -> (r: Result<Integer, ArithmeticError>)
    ensures
        match r {
            Ok(v) => {
                &&& lagrange_defined(
                    state.modulus(),
                    value_of(*participant_id),
                    number_of_participants as nat,
                )
                &&& value_of(v) == lagrange_value(
                    state.modulus(),
                    value_of(*participant_id),
                    number_of_participants as nat,
                )
                &&& 0 <= value_of(v) < state.modulus()
            },
            Err(e) => !lagrange_defined(
                state.modulus(),
                value_of(*participant_id),
                number_of_participants as nat,
            ) && e == ArithmeticError::NotInvertible,
        },
{
    let q = state.q();
    let ghost id = value_of(*participant_id);
    let mut product = from_u32(1);
    let mut j: u32 = 0;
    proof {
        lemma_small_mod(1, value_of(*q) as nat);
    }
    while j < number_of_participants
        invariant
            j <= number_of_participants,
            value_of(*q) == state.modulus(),
            value_of(*q) >= 2,
            id == value_of(*participant_id),
            lagrange_defined(state.modulus(), id, j as nat),
            value_of(product) == lagrange_value(state.modulus(), id, j as nat),
        decreases number_of_participants - j,
    {
        let index = from_u32(j);
        assert(lagrange_factors(state.modulus(), id, (j + 1) as nat).drop_last()
            =~= lagrange_factors(state.modulus(), id, j as nat));
        if !is_same(&index, participant_id) {
            let difference = crate::modular::sub(copy_of(&index), copy_of(participant_id), q);
            let factor = match crate::modular::div(index, difference, q) {
                Ok(v) => v,
                Err(e) => {
                    assert(!lagrange_factor_defined(state.modulus(), id, j as int));
                    return Err(e);
                },
            };
            proof {
                lemma_mul_mod_noop_general(
                    seq_product(lagrange_factors(state.modulus(), id, j as nat)),
                    div_mod(j as int, sub_mod(j as int, id, state.modulus()), state.modulus()),
                    state.modulus(),
                );
                lemma_small_mod(value_of(factor) as nat, state.modulus() as nat);
            }
            product = crate::modular::mul(product, factor, q);
        }
        j = j + 1;
    }
    Ok(product)
}

/// A signature share: `d + e * binding + lambda * share * challenge`,
/// modulo `q`.
pub open spec fn response_value(
    q: int,
    d: int,
    e: int,
    binding: int,
    lambda: int,
    share: int,
    challenge: int,
) -> int {
    (d + e * binding + lambda * share * challenge) % q
}

/// Reducing the summands and factors of a share on the way changes nothing.
proof fn lemma_reduced_response(
    q: int,
    d: int,
    e: int,
    binding: int,
    lambda: int,
    share: int,
    challenge: int,
)
    requires
        q > 0,
    ensures
        (d + (((e * binding) % q) + ((((lambda * share) % q) * challenge) % q)) % q) % q
            == response_value(q, d, e, binding, lambda, share, challenge),
{
    let x = e * binding;
    let y = lambda * share * challenge;
    lemma_mul_mod_noop_left(lambda * share, challenge, q);
    lemma_add_mod_noop(x, y, q);
    lemma_add_mod_noop_right(d, x + y, q);
}

/// The signature share of a participant: its first nonce, plus its second
/// nonce times its binding factor, plus its Lagrange coefficient times its
/// private key share times the challenge, modulo `q`.
///
/// A pair of nonces serves one message and no more: to call this twice with
/// one pair and two messages gives the private key share away. The caller
/// sees to that.
pub fn compute_own_response(
    state: &FrostState,
    participant_commitment: &PublicCommitment,
    private_key: &Integer,
    nonces: &(Integer, Integer),
    lagrange_coefficient: &Integer,
    challenge: &Integer,
    message: &str,
) -> (r: Result<Integer, ArithmeticError>)
    ensures
        match r {
            Ok(v) => {
                &&& binding_defined(participant_commitment@, message@)
                &&& value_of(v) == response_value(
                    state.modulus(),
                    value_of(nonces.0),
                    value_of(nonces.1),
                    binding_value(state.modulus(), participant_commitment@, message@),
                    value_of(*lagrange_coefficient),
                    value_of(*private_key),
                    value_of(*challenge),
                )
                &&& 0 <= value_of(v) < state.modulus()
            },
            Err(e) => !binding_defined(participant_commitment@, message@) && e
                == ArithmeticError::MalformedDigest,
        },
{
    let q = state.q();
    let binding = match compute_binding_value(state, participant_commitment, message) {
        Ok(v) => v,
        Err(e) => {
            return Err(e);
        },
    };
    proof {
        lemma_reduced_response(
            state.modulus(),
            value_of(nonces.0),
            value_of(nonces.1),
            value_of(binding),
            value_of(*lagrange_coefficient),
            value_of(*private_key),
            value_of(*challenge),
        );
    }
    let bound = crate::modular::mul(copy_of(&nonces.1), binding, q);
    let weighted = crate::modular::mul(copy_of(lagrange_coefficient), copy_of(private_key), q);
    let keyed = crate::modular::mul(weighted, copy_of(challenge), q);
    let rest = crate::modular::add(bound, keyed, q);
    Ok(crate::modular::add(copy_of(&nonces.0), rest, q))
}

/// What stops the verification of one participant, if anything does: a
/// binding factor that does not exist, or else a Lagrange coefficient that
/// does not.
pub open spec fn participant_fault(
    q: int,
    c: CommitmentModel,
    message: Seq<char>,
    n: nat,
) -> Option<ArithmeticError> {
    if !binding_defined(c, message) {
        Some(ArithmeticError::MalformedDigest)
    } else if !lagrange_defined(q, c.id, n) {
        Some(ArithmeticError::NotInvertible)
    } else {
        None
    }
}

/// Whether none of the first `i` commitments of the list has a fault.
pub open spec fn no_fault_before(
    q: int,
    cs: Seq<CommitmentModel>,
    message: Seq<char>,
    n: nat,
    i: int,
) -> bool {
    forall|k: int| 0 <= k < i ==> participant_fault(q, #[trigger] cs[k], message, n) is None
}

/// The value that is held against `g` to the response for one participant:
/// its term of the group commitment times its public key share to the
/// power of the challenge times its Lagrange coefficient, modulo `q`.
pub open spec fn participant_term(
    q: int,
    c: CommitmentModel,
    message: Seq<char>,
    challenge: int,
    n: nat,
) -> int {
    (commitment_term(q, c, message) * pow(
        c.share,
        mul_mod(challenge, lagrange_value(q, c.id, n), q) as nat,
    )) % q
}

/// Whether one participant passes: its value equals `g` to the response.
pub open spec fn participant_accepted(
    q: int,
    g: int,
    c: CommitmentModel,
    message: Seq<char>,
    response: int,
    challenge: int,
    n: nat,
) -> bool {
    participant_term(q, c, message, challenge, n) == pow_mod(g, response as nat, q)
}

/// Whether each of the first `i` commitments of the list passes.
pub open spec fn accepted_before(
    q: int,
    g: int,
    cs: Seq<CommitmentModel>,
    message: Seq<char>,
    response: int,
    challenge: int,
    n: nat,
    i: int,
) -> bool {
    forall|k: int|
        0 <= k < i ==> participant_accepted(q, g, #[trigger] cs[k], message, response, challenge, n)
}

/// Reducing the factors of a participant's value on the way changes nothing.
proof fn lemma_reduced_term(d: int, p: int, k: int, q: int)
    requires
        q > 0,
    ensures
        (((d * (p % q)) % q) * (k % q)) % q == ((d * p) * k) % q,
{
    lemma_mul_mod_noop_right(d, p, q);
    lemma_mul_mod_noop_general(d * p, k, q);
}

/// Verifies a response against every published commitment.
///
/// For each commitment the value `di * ei^binding * public_share^(challenge
/// * lambda)` is held against `generator^own_response`, all modulo `q`; the
/// result is `true` where all of them are equal. Each participant's own
/// value is held against the one response: this is not the verification of an
/// aggregate signature against the group commitment, and with more than one
/// participant shares that are valid in that sense do not pass it.
///
/// A mismatch is a result, not a failure. The result is an error for a
/// negative response, and else for the first commitment in the list whose
/// binding factor or Lagrange coefficient does not exist.
pub fn verify_participants(
    state: &FrostState,
    participants_commitments: &[PublicCommitment],
    message: &str,
    own_response: &Integer,
    challenge: &Integer,
    number_of_participants: u32,
) -> (r: Result<bool, ArithmeticError>)
    ensures
        match r {
            Ok(accepted) => {
                &&& value_of(*own_response) >= 0
                &&& no_fault_before(
                    state.modulus(),
                    commitment_models(participants_commitments@),
                    message@,
                    number_of_participants as nat,
                    participants_commitments@.len() as int,
                )
                &&& accepted == accepted_before(
                    state.modulus(),
                    state.base(),
                    commitment_models(participants_commitments@),
                    message@,
                    value_of(*own_response),
                    value_of(*challenge),
                    number_of_participants as nat,
                    participants_commitments@.len() as int,
                )
            },
            Err(e) => if value_of(*own_response) < 0 {
                e == ArithmeticError::NegativeExponent
            } else {
                exists|i: int|
                    {
                        &&& 0 <= i < participants_commitments@.len()
                        &&& no_fault_before(
                            state.modulus(),
                            commitment_models(participants_commitments@),
                            message@,
                            number_of_participants as nat,
                            i,
                        )
                        &&& participant_fault(
                            state.modulus(),
                            #[trigger] commitment_models(participants_commitments@)[i],
                            message@,
                            number_of_participants as nat,
                        ) == Some(e)
                    }
            },
        },
{
    let q = state.q();
    let ghost models = commitment_models(participants_commitments@);
    let ghost n = number_of_participants as nat;
    let expected = match power(state.generator(), own_response, q) {
        Ok(v) => v,
        Err(e) => {
            return Err(e);
        },
    };
    let mut accepted = true;
    let mut i: usize = 0;
    while i < participants_commitments.len()
        invariant
            i <= participants_commitments.len(),
            value_of(*q) == state.modulus(),
            value_of(*q) >= 2,
            value_of(*own_response) >= 0,
            n == number_of_participants as nat,
            models == commitment_models(participants_commitments@),
            value_of(expected) == pow_mod(
                state.base(),
                value_of(*own_response) as nat,
                state.modulus(),
            ),
            no_fault_before(state.modulus(), models, message@, n, i as int),
            accepted == accepted_before(
                state.modulus(),
                state.base(),
                models,
                message@,
                value_of(*own_response),
                value_of(*challenge),
                n,
                i as int,
            ),
        decreases participants_commitments.len() - i,
    {
        let pc = &participants_commitments[i];
        assert(models[i as int] == pc@);
        let binding = match compute_binding_value(state, pc, message) {
            Ok(v) => v,
            Err(e) => {
                assert(participant_fault(state.modulus(), models[i as int], message@, n) == Some(
                    e,
                ));
                return Err(e);
            },
        };
        let raised = match power(&pc.ei, &binding, q) {
            Ok(v) => v,
            Err(e) => {
                return Err(e);
            },
        };
        let partial = crate::modular::mul(copy_of(&pc.di), raised, q);
        let lambda = match lagrange_coefficient(state, &pc.participant_id, number_of_participants) {
            Ok(v) => v,
            Err(e) => {
                assert(participant_fault(state.modulus(), models[i as int], message@, n) == Some(
                    e,
                ));
                return Err(e);
            },
        };
        let exponent = crate::modular::mul(copy_of(challenge), lambda, q);
        let keyed = match power(&pc.public_share, &exponent, q) {
            Ok(v) => v,
            Err(e) => {
                return Err(e);
            },
        };
        proof {
            lemma_reduced_term(
                pc@.d,
                pow(pc@.e, binding_value(state.modulus(), pc@, message@) as nat),
                pow(pc@.share, value_of(exponent) as nat),
                state.modulus(),
            );
        }
        let candidate = crate::modular::mul(partial, keyed, q);
        let matches = is_same(&candidate, &expected);
        assert(matches == participant_accepted(
            state.modulus(),
            state.base(),
            models[i as int],
            message@,
            value_of(*own_response),
            value_of(*challenge),
            n,
        ));
        accepted = accepted && matches;
        i = i + 1;
    }
    Ok(accepted)
}

/// The values of a list of integers.
pub open spec fn values_of(s: Seq<Integer>) -> Seq<int> {
    Seq::new(s.len(), |i: int| value_of(s[i]))
}

/// The aggregate response of a list of signature shares: their sum, modulo `q`.
pub open spec fn aggregate_value(q: int, s: Seq<int>) -> int {
    seq_sum(s) % q
}

/// The aggregate response: the sum of all signature shares, modulo `q`.
/// Together with the group commitment it is the signature.
pub fn compute_aggregate_response(state: &FrostState, participants_responses: &[Integer]) -> (r:
    Integer)
    ensures
        value_of(r) == aggregate_value(state.modulus(), values_of(participants_responses@)),
        0 <= value_of(r) < state.modulus(),
{
    let q = state.q();
    let ghost values = values_of(participants_responses@);
    let mut total = from_u32(0);
    let mut i: usize = 0;
    proof {
        lemma_small_mod(0, value_of(*q) as nat);
    }
    while i < participants_responses.len()
        invariant
            i <= participants_responses.len(),
            value_of(*q) == state.modulus(),
            value_of(*q) >= 2,
            values == values_of(participants_responses@),
            value_of(total) == aggregate_value(state.modulus(), values.take(i as int)),
        decreases participants_responses.len() - i,
    {
        proof {
            assert(values.take(i + 1).drop_last() =~= values.take(i as int));
            lemma_add_mod_noop(
                seq_sum(values.take(i as int)),
                values[i as int],
                state.modulus(),
            );
            lemma_add_mod_noop_right(value_of(total), values[i as int], state.modulus());
        }
        total = crate::modular::add(total, copy_of(&participants_responses[i]), q);
        i = i + 1;
    }
    proof {
        assert(values.take(i as int) =~= values);
    }
    total
}

} // verus!
