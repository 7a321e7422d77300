use frost_sign::error::ArithmeticError;
use frost_sign::modular;
use frost_sign::sign::{
    compute_aggregate_response, compute_binding_value, compute_group_commitment_and_challenge,
    compute_own_response, lagrange_coefficient, verify_participants, PublicCommitment,
};
use frost_sign::FrostState;
use rug::Integer;

const LARGE_PRIME: &str = "170141183460469231731687303715884105727";

fn big(text: &str) -> Integer {
    text.parse::<Integer>().unwrap()
}

fn small_state() -> FrostState {
    FrostState::new(Integer::from(1000003), Integer::from(2)).unwrap()
}

fn large_state() -> FrostState {
    FrostState::new(big(LARGE_PRIME), Integer::from(3)).unwrap()
}

fn commitment(id: i64, d: i64, e: i64, share: i64) -> PublicCommitment {
    PublicCommitment::new(
        Integer::from(id),
        Integer::from(d),
        Integer::from(e),
        Integer::from(share),
    )
}

fn three_commitments() -> Vec<PublicCommitment> {
    vec![commitment(1, 5, 7, 11), commitment(2, 13, 17, 19), commitment(3, 23, 29, 31)]
}

/// One signer with identifier `id`, private share 3 and nonces 5 and 2.
fn lone_signer(id: i64) -> PublicCommitment {
    commitment(id, 243, 9, 27)
}

#[test]
fn a_state_needs_a_modulus_of_at_least_two() {
    assert!(FrostState::new(Integer::from(1), Integer::from(1)).is_none());
    assert!(FrostState::new(Integer::from(0), Integer::from(1)).is_none());
    assert!(FrostState::new(Integer::from(-7), Integer::from(1)).is_none());
    let state = FrostState::new(Integer::from(2), Integer::from(1)).unwrap();
    assert_eq!(*state.q(), 2);
    assert_eq!(*state.generator(), 1);
}

#[test]
fn a_state_keeps_its_parameters() {
    let state = large_state();
    assert_eq!(*state.q(), big(LARGE_PRIME));
    assert_eq!(*state.generator(), 3);
}

#[test]
fn a_commitment_keeps_its_fields() {
    let c = commitment(1, 2, 3, 4);
    assert_eq!(c.participant_id, 1);
    assert_eq!(c.di, 2);
    assert_eq!(c.ei, 3);
    assert_eq!(c.public_share, 4);
}

#[test]
fn the_text_of_a_commitment_is_id_d_e_in_decimal() {
    assert_eq!(commitment(1, 2, 3, 4).to_string(), "1::2::3");
    assert_eq!(commitment(0, 0, 0, 0).to_string(), "0::0::0");
    assert_eq!(commitment(-1, -2, -3, 4).to_string(), "-1::-2::-3");
    assert_eq!(commitment(10, 200, 3000, 4).to_string(), "10::200::3000");
    let wide = PublicCommitment::new(
        Integer::from(7),
        big(LARGE_PRIME),
        big("340282366920938463463374607431768211456"),
        Integer::from(1),
    );
    assert_eq!(
        wide.to_string(),
        "7::170141183460469231731687303715884105727::340282366920938463463374607431768211456"
    );
}

#[test]
fn the_binding_value_is_the_hash_of_id_message_and_commitment() {
    let state = small_state();
    assert_eq!(
        compute_binding_value(&state, &commitment(1, 2, 3, 4), "msg"),
        Ok(Integer::from(938654))
    );
    assert_eq!(
        compute_binding_value(&state, &commitment(-1, -2, -3, 4), "msg"),
        Ok(Integer::from(670078))
    );
    assert_eq!(
        compute_binding_value(&state, &commitment(0, 0, 0, 0), ""),
        Ok(Integer::from(954976))
    );
    assert_eq!(
        compute_binding_value(&large_state(), &commitment(1, 2, 3, 4), "msg"),
        Ok(big("136633289280620518303783541257080362433"))
    );
}

#[test]
fn the_binding_value_is_the_same_on_every_call() {
    let state = large_state();
    let first = compute_binding_value(&state, &commitment(1, 2, 3, 4), "msg");
    let second = compute_binding_value(&state, &commitment(1, 2, 3, 4), "msg");
    assert!(first.is_ok());
    assert_eq!(first, second);
}

#[test]
fn the_binding_value_changes_with_each_of_its_inputs() {
    let state = small_state();
    let base = compute_binding_value(&state, &commitment(1, 2, 3, 4), "msg");
    assert_eq!(
        compute_binding_value(&state, &commitment(1, 2, 3, 4), "msh"),
        Ok(Integer::from(556757))
    );
    assert_eq!(
        compute_binding_value(&state, &commitment(2, 2, 3, 4), "msg"),
        Ok(Integer::from(534276))
    );
    assert_eq!(
        compute_binding_value(&state, &commitment(1, 3, 3, 4), "msg"),
        Ok(Integer::from(505102))
    );
    assert_eq!(
        compute_binding_value(&state, &commitment(1, 2, 4, 4), "msg"),
        Ok(Integer::from(150965))
    );
    assert_ne!(base, compute_binding_value(&state, &commitment(1, 2, 3, 4), "msh"));
    assert_ne!(base, compute_binding_value(&state, &commitment(2, 2, 3, 4), "msg"));
    assert_ne!(base, compute_binding_value(&state, &commitment(1, 3, 3, 4), "msg"));
    assert_ne!(base, compute_binding_value(&state, &commitment(1, 2, 4, 4), "msg"));
}

#[test]
fn the_binding_value_does_not_depend_on_the_public_share() {
    let state = small_state();
    assert_eq!(
        compute_binding_value(&state, &commitment(1, 2, 3, 4), "msg"),
        compute_binding_value(&state, &commitment(1, 2, 3, 5), "msg")
    );
}

#[test]
fn the_group_commitment_is_the_product_of_the_terms() {
    let cs = three_commitments();
    assert_eq!(
        compute_group_commitment_and_challenge(&small_state(), &cs, "round one", Integer::from(12345)),
        Ok((Integer::from(42333), Integer::from(963427)))
    );
    assert_eq!(
        compute_group_commitment_and_challenge(&large_state(), &cs, "round one", Integer::from(12345)),
        Ok((
            big("118699985111166665435368079293449291950"),
            big("11595393050068180310039128330350363227")
        ))
    );
}

#[test]
fn the_group_commitment_of_one_participant_is_its_term() {
    let cs = vec![commitment(1, 5, 7, 11)];
    assert_eq!(
        compute_group_commitment_and_challenge(&small_state(), &cs, "round one", Integer::from(12345)),
        Ok((Integer::from(808230), Integer::from(612449)))
    );
}

#[test]
fn the_group_commitment_does_not_depend_on_the_order() {
    let in_order = three_commitments();
    let rotated =
        vec![commitment(3, 23, 29, 31), commitment(1, 5, 7, 11), commitment(2, 13, 17, 19)];
    let swapped =
        vec![commitment(2, 13, 17, 19), commitment(1, 5, 7, 11), commitment(3, 23, 29, 31)];
    let state = large_state();
    let expected =
        compute_group_commitment_and_challenge(&state, &in_order, "round one", Integer::from(12345));
    assert!(expected.is_ok());
    assert_eq!(
        compute_group_commitment_and_challenge(&state, &rotated, "round one", Integer::from(12345)),
        expected
    );
    assert_eq!(
        compute_group_commitment_and_challenge(&state, &swapped, "round one", Integer::from(12345)),
        expected
    );
}

#[test]
fn the_group_commitment_of_no_participants_is_one() {
    let none: Vec<PublicCommitment> = Vec::new();
    assert_eq!(
        compute_group_commitment_and_challenge(&small_state(), &none, "round one", Integer::from(12345)),
        Ok((Integer::from(1), Integer::from(663195)))
    );
    assert_eq!(
        compute_group_commitment_and_challenge(&large_state(), &none, "round one", Integer::from(12345)),
        Ok((Integer::from(1), big("165971593274053324204400769969294507028")))
    );
}

#[test]
fn the_challenge_changes_with_message_and_key() {
    let cs = three_commitments();
    let state = small_state();
    let base =
        compute_group_commitment_and_challenge(&state, &cs, "round one", Integer::from(12345)).unwrap();
    let other_key =
        compute_group_commitment_and_challenge(&state, &cs, "round one", Integer::from(12346)).unwrap();
    let other_message =
        compute_group_commitment_and_challenge(&state, &cs, "round two", Integer::from(12345)).unwrap();
    assert_eq!(base.0, other_key.0);
    assert_ne!(base.1, other_key.1);
    assert_ne!(base.0, other_message.0);
    assert_ne!(base.1, other_message.1);
}

#[test]
fn the_lagrange_coefficient_of_no_participants_is_one() {
    let state = small_state();
    assert_eq!(lagrange_coefficient(&state, &Integer::from(0), 0), Ok(Integer::from(1)));
    assert_eq!(lagrange_coefficient(&state, &Integer::from(5), 0), Ok(Integer::from(1)));
    assert_eq!(lagrange_coefficient(&state, &Integer::from(-5), 0), Ok(Integer::from(1)));
}

#[test]
fn the_lagrange_coefficient_leaves_the_own_index_out() {
    let state = small_state();
    assert_eq!(lagrange_coefficient(&state, &Integer::from(0), 1), Ok(Integer::from(1)));
    assert_eq!(lagrange_coefficient(&state, &Integer::from(0), 4), Ok(Integer::from(1)));
}

#[test]
fn the_lagrange_coefficient_over_the_index_zero_is_zero() {
    let state = small_state();
    assert_eq!(lagrange_coefficient(&state, &Integer::from(1), 3), Ok(Integer::from(0)));
    assert_eq!(lagrange_coefficient(&state, &Integer::from(5), 3), Ok(Integer::from(0)));
    assert_eq!(lagrange_coefficient(&state, &Integer::from(-1), 3), Ok(Integer::from(0)));
    let seven = FrostState::new(Integer::from(7), Integer::from(3)).unwrap();
    assert_eq!(lagrange_coefficient(&seven, &Integer::from(3), 5), Ok(Integer::from(0)));
}

#[test]
fn the_lagrange_coefficient_fails_on_a_difference_without_inverse() {
    let seven = FrostState::new(Integer::from(7), Integer::from(3)).unwrap();
    assert_eq!(
        lagrange_coefficient(&seven, &Integer::from(7), 1),
        Err(ArithmeticError::NotInvertible)
    );
    assert_eq!(
        lagrange_coefficient(&seven, &Integer::from(8), 3),
        Err(ArithmeticError::NotInvertible)
    );
    let four = FrostState::new(Integer::from(4), Integer::from(3)).unwrap();
    assert_eq!(
        lagrange_coefficient(&four, &Integer::from(1), 4),
        Err(ArithmeticError::NotInvertible)
    );
    assert_eq!(lagrange_coefficient(&four, &Integer::from(1), 3), Ok(Integer::from(0)));
}

#[test]
fn the_response_is_d_plus_e_rho_plus_lambda_s_c() {
    let nonces = (Integer::from(10), Integer::from(20));
    assert_eq!(
        compute_own_response(
            &small_state(),
            &commitment(1, 2, 3, 4),
            &Integer::from(77),
            &nonces,
            &Integer::from(30),
            &Integer::from(40),
            "msg"
        ),
        Ok(Integer::from(865436))
    );
    assert_eq!(
        compute_own_response(
            &large_state(),
            &commitment(1, 2, 3, 4),
            &Integer::from(77),
            &nonces,
            &Integer::from(30),
            &Integer::from(40),
            "msg"
        ),
        Ok(big("10406850244902658368673965687461649438"))
    );
}

#[test]
fn the_response_with_zero_nonce_and_zero_key_is_the_first_nonce() {
    let nonces = (Integer::from(10), Integer::from(0));
    assert_eq!(
        compute_own_response(
            &small_state(),
            &commitment(1, 2, 3, 4),
            &Integer::from(0),
            &nonces,
            &Integer::from(30),
            &Integer::from(40),
            "msg"
        ),
        Ok(Integer::from(10))
    );
}

#[test]
fn one_participant_signs_and_verifies() {
    let state = large_state();
    let message = "message 6";
    let private_share = Integer::from(3);
    let nonces = (Integer::from(5), Integer::from(2));
    let own = lone_signer(0);
    let published = vec![lone_signer(0)];

    let binding = compute_binding_value(&state, &own, message).unwrap();
    assert_eq!(binding, big("38794735025214840833047969391095100652"));

    let (group_commitment, challenge) =
        compute_group_commitment_and_challenge(&state, &published, message, Integer::from(27))
            .unwrap();
    assert_eq!(group_commitment, big("138230346722519632615842927596506571861"));
    assert_eq!(challenge, big("13196552590536076926216675534642835087"));

    let lambda = lagrange_coefficient(&state, &own.participant_id, 1).unwrap();
    assert_eq!(lambda, 1);

    let response = compute_own_response(
        &state,
        &own,
        &private_share,
        &nonces,
        &lambda,
        &challenge,
        message,
    )
    .unwrap();
    assert_eq!(response, big("117179127822037912444745965386118706570"));

    assert_eq!(verify_participants(&state, &published, message, &response, &challenge, 1), Ok(true));

    // g^z == R * Y^c
    let left = modular::pow(state.generator(), &response, state.q()).unwrap();
    let keyed = modular::pow(&own.public_share, &challenge, state.q()).unwrap();
    let right = modular::mul(group_commitment, keyed, state.q());
    assert_eq!(left, big("45644996458380280142217670334205211917"));
    assert_eq!(left, right);

    let aggregate = compute_aggregate_response(&state, &[response.clone()]);
    assert_eq!(aggregate, response);
}

#[test]
fn one_participant_with_another_identifier_verifies_against_no_indices() {
    let state = large_state();
    let message = "note 8";
    let own = lone_signer(1);
    let published = vec![lone_signer(1)];
    let (group_commitment, challenge) =
        compute_group_commitment_and_challenge(&state, &published, message, Integer::from(27))
            .unwrap();
    assert_eq!(group_commitment, big("53380481179077212228786371782875895933"));
    assert_eq!(challenge, big("18853297174457936797665228868500829747"));
    let response = compute_own_response(
        &state,
        &own,
        &Integer::from(3),
        &(Integer::from(5), Integer::from(2)),
        &Integer::from(1),
        &challenge,
        message,
    )
    .unwrap();
    assert_eq!(response, big("74536487050489897393046950060500951216"));
    assert_eq!(verify_participants(&state, &published, message, &response, &challenge, 0), Ok(true));
    // Over the indices 0..1 the coefficient of identifier 1 is zero, and the
    // share no longer passes.
    assert_eq!(verify_participants(&state, &published, message, &response, &challenge, 1), Ok(false));
}

#[test]
fn a_share_that_wraps_around_the_modulus_does_not_verify() {
    // d + e * binding + s * challenge is 2423044 here, above the modulus:
    // the share is 2423044 - 2 * 1000003, and 2^(2 * 1000003) is not one.
    let state = small_state();
    let own = commitment(0, 32, 4, 8);
    let published = vec![commitment(0, 32, 4, 8)];
    let (group_commitment, challenge) =
        compute_group_commitment_and_challenge(&state, &published, "msg", Integer::from(8))
            .unwrap();
    assert_eq!(group_commitment, 229330);
    assert_eq!(challenge, 150833);
    let response = compute_own_response(
        &state,
        &own,
        &Integer::from(3),
        &(Integer::from(5), Integer::from(2)),
        &Integer::from(1),
        &challenge,
        "msg",
    )
    .unwrap();
    assert_eq!(response, 423038);
    assert_eq!(verify_participants(&state, &published, "msg", &response, &challenge, 1), Ok(false));
}

#[test]
fn a_changed_message_does_not_verify() {
    let state = large_state();
    let published = vec![lone_signer(0)];
    let response = big("117179127822037912444745965386118706570");
    let challenge = big("13196552590536076926216675534642835087");
    assert_eq!(
        verify_participants(&state, &published, "message 6", &response, &challenge, 1),
        Ok(true)
    );
    // 'm' with its lowest bit flipped is 'l'
    for tampered in ["lessage 6", "message 7", "Message 6", "message 6!", "message ", ""] {
        assert_eq!(
            verify_participants(&state, &published, tampered, &response, &challenge, 1),
            Ok(false)
        );
    }
}

#[test]
fn a_changed_response_does_not_verify() {
    let state = large_state();
    let published = vec![lone_signer(0)];
    let challenge = big("13196552590536076926216675534642835087");
    let response = big("117179127822037912444745965386118706571");
    assert_eq!(
        verify_participants(&state, &published, "message 6", &response, &challenge, 1),
        Ok(false)
    );
}

#[test]
fn every_commitment_is_held_against_the_one_response() {
    let state = large_state();
    let response = big("117179127822037912444745965386118706570");
    let challenge = big("13196552590536076926216675534642835087");
    let twice = vec![lone_signer(0), lone_signer(0)];
    assert_eq!(
        verify_participants(&state, &twice, "message 6", &response, &challenge, 1),
        Ok(true)
    );
    let two = vec![lone_signer(0), lone_signer(1)];
    assert_eq!(
        verify_participants(&state, &two, "message 6", &response, &challenge, 1),
        Ok(false)
    );
    let reversed = vec![lone_signer(1), lone_signer(0)];
    assert_eq!(
        verify_participants(&state, &reversed, "message 6", &response, &challenge, 1),
        Ok(false)
    );
}

#[test]
fn no_commitments_verify_trivially() {
    let state = large_state();
    let none: Vec<PublicCommitment> = Vec::new();
    assert_eq!(
        verify_participants(&state, &none, "message 6", &Integer::from(5), &Integer::from(7), 0),
        Ok(true)
    );
}

#[test]
fn a_negative_response_is_an_error() {
    let state = large_state();
    let published = vec![lone_signer(0)];
    assert_eq!(
        verify_participants(&state, &published, "message 6", &Integer::from(-1), &Integer::from(7), 1),
        Err(ArithmeticError::NegativeExponent)
    );
    let none: Vec<PublicCommitment> = Vec::new();
    assert_eq!(
        verify_participants(&state, &none, "message 6", &Integer::from(-1), &Integer::from(7), 0),
        Err(ArithmeticError::NegativeExponent)
    );
}

#[test]
fn a_missing_lagrange_coefficient_is_an_error() {
    let seven = FrostState::new(Integer::from(7), Integer::from(3)).unwrap();
    let published = vec![commitment(7, 2, 3, 4)];
    assert_eq!(
        verify_participants(&seven, &published, "msg", &Integer::from(1), &Integer::from(2), 1),
        Err(ArithmeticError::NotInvertible)
    );
    assert!(verify_participants(&seven, &published, "msg", &Integer::from(1), &Integer::from(2), 0)
        .is_ok());
}

#[test]
fn the_aggregate_is_the_sum_of_the_shares() {
    let seven = FrostState::new(Integer::from(7), Integer::from(3)).unwrap();
    let shares = vec![Integer::from(10), Integer::from(20), Integer::from(30)];
    assert_eq!(compute_aggregate_response(&seven, &shares), 4);
    let signed = vec![Integer::from(-5), Integer::from(3)];
    assert_eq!(compute_aggregate_response(&seven, &signed), 5);
    let state = large_state();
    let wide = vec![
        big("170141183460469231731687303715884105726"),
        big("170141183460469231731687303715884105725"),
        Integer::from(5),
    ];
    assert_eq!(compute_aggregate_response(&state, &wide), 2);
}

#[test]
fn the_aggregate_does_not_depend_on_the_order() {
    let state = small_state();
    let z1 = Integer::from(999999);
    let z2 = Integer::from(123456);
    let z3 = Integer::from(777777);
    let in_order = vec![z1.clone(), z2.clone(), z3.clone()];
    let rotated = vec![z3.clone(), z1.clone(), z2.clone()];
    let reversed = vec![z3, z2, z1];
    let expected = compute_aggregate_response(&state, &in_order);
    assert_eq!(expected, 901229);
    assert_eq!(compute_aggregate_response(&state, &rotated), expected);
    assert_eq!(compute_aggregate_response(&state, &reversed), expected);
}

#[test]
fn the_aggregate_of_no_shares_is_zero() {
    let none: Vec<Integer> = Vec::new();
    assert_eq!(compute_aggregate_response(&small_state(), &none), 0);
}
