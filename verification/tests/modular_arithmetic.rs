use frost_sign::error::ArithmeticError;
use frost_sign::modular;
use rug::Integer;

fn big(text: &str) -> Integer {
    text.parse::<Integer>().unwrap()
}

#[test]
fn add_reduces_the_sum() {
    let q = Integer::from(7);
    assert_eq!(modular::add(Integer::from(5), Integer::from(4), &q), 2);
    assert_eq!(modular::add(Integer::from(0), Integer::from(0), &q), 0);
    assert_eq!(modular::add(Integer::from(3), Integer::from(4), &q), 0);
    assert_eq!(modular::add(Integer::from(-5), Integer::from(3), &q), 5);
}

#[test]
fn sub_reduces_the_difference_into_the_range() {
    let q = Integer::from(7);
    assert_eq!(modular::sub(Integer::from(2), Integer::from(5), &q), 4);
    assert_eq!(modular::sub(Integer::from(5), Integer::from(2), &q), 3);
    assert_eq!(modular::sub(Integer::from(0), Integer::from(7), &q), 0);
    assert_eq!(modular::sub(Integer::from(0), Integer::from(1), &q), 6);
}

#[test]
fn mul_reduces_the_product() {
    let q = Integer::from(1000003);
    assert_eq!(modular::mul(Integer::from(10), Integer::from(4), &q), 40);
    assert_eq!(modular::mul(Integer::from(1000002), Integer::from(1000002), &q), 1);
    assert_eq!(modular::mul(Integer::from(-1), Integer::from(1), &q), 1000002);
}

#[test]
fn mul_works_on_numbers_beyond_machine_words() {
    let q = big("170141183460469231731687303715884105727");
    let a = big("170141183460469231731687303715884105726");
    assert_eq!(modular::mul(a.clone(), a, &q), 1);
}

#[test]
fn div_multiplies_by_the_inverse() {
    let q = Integer::from(1000003);
    assert_eq!(modular::div(Integer::from(10), Integer::from(4), &q), Ok(Integer::from(500004)));
    assert_eq!(modular::div(Integer::from(1), Integer::from(4), &q), Ok(Integer::from(250001)));
    assert_eq!(modular::div(Integer::from(1), Integer::from(7), &Integer::from(1000)), Ok(Integer::from(143)));
    assert_eq!(modular::div(Integer::from(0), Integer::from(5), &q), Ok(Integer::from(0)));
}

#[test]
fn div_by_a_residue_without_inverse_fails() {
    let q = Integer::from(1000003);
    assert_eq!(
        modular::div(Integer::from(10), Integer::from(0), &q),
        Err(ArithmeticError::NotInvertible)
    );
    assert_eq!(
        modular::div(Integer::from(10), Integer::from(1000003), &q),
        Err(ArithmeticError::NotInvertible)
    );
    assert_eq!(
        modular::div(Integer::from(1), Integer::from(2), &Integer::from(4)),
        Err(ArithmeticError::NotInvertible)
    );
}

#[test]
fn div_undoes_mul() {
    let q = Integer::from(1000003);
    for a in [0u32, 1, 2, 999, 1000002] {
        for b in [1u32, 2, 3, 500000, 1000002] {
            let product = modular::mul(Integer::from(a), Integer::from(b), &q);
            assert_eq!(modular::div(product, Integer::from(b), &q), Ok(Integer::from(a)));
        }
    }
}

#[test]
fn div_undoes_mul_for_every_unit_of_a_composite_modulus() {
    let q = Integer::from(12);
    for a in 0u32..12 {
        for b in [1u32, 5, 7, 11] {
            let product = modular::mul(Integer::from(a), Integer::from(b), &q);
            assert_eq!(modular::div(product, Integer::from(b), &q), Ok(Integer::from(a)));
        }
    }
}

#[test]
fn pow_raises_and_reduces() {
    let q = Integer::from(1000003);
    assert_eq!(modular::pow(&Integer::from(3), &Integer::from(200), &q), Ok(Integer::from(333986)));
    assert_eq!(
        modular::pow(&Integer::from(7), &Integer::from(5), &Integer::from(1000)),
        Ok(Integer::from(807))
    );
    assert_eq!(
        modular::pow(&Integer::from(2), &Integer::from(10), &Integer::from(1000)),
        Ok(Integer::from(24))
    );
}

#[test]
fn pow_of_a_negative_base_lies_in_the_range() {
    let q = Integer::from(1000003);
    assert_eq!(modular::pow(&Integer::from(-3), &Integer::from(5), &q), Ok(Integer::from(999760)));
}

#[test]
fn pow_with_exponent_zero_is_one() {
    let q = Integer::from(1000003);
    for g in [0u32, 1, 2, 3, 1000002] {
        assert_eq!(modular::pow(&Integer::from(g), &Integer::from(0), &q), Ok(Integer::from(1)));
    }
}

#[test]
fn pow_with_a_negative_exponent_fails() {
    let q = Integer::from(1000003);
    assert_eq!(
        modular::pow(&Integer::from(3), &Integer::from(-1), &q),
        Err(ArithmeticError::NegativeExponent)
    );
    assert_eq!(
        modular::pow(&Integer::from(7), &Integer::from(-5), &Integer::from(1000)),
        Err(ArithmeticError::NegativeExponent)
    );
}

#[test]
fn pow_to_the_modulus_less_one_is_one_for_a_prime_modulus() {
    let q = Integer::from(1000003);
    assert_eq!(modular::pow(&Integer::from(5), &Integer::from(1000002), &q), Ok(Integer::from(1)));
    let inverse = modular::pow(&Integer::from(5), &Integer::from(1000001), &q).unwrap();
    assert_eq!(inverse, 600002);
    assert_eq!(modular::div(Integer::from(1), Integer::from(5), &q), Ok(inverse));
}

#[test]
fn exponents_count_modulo_the_prime_less_one() {
    let q = Integer::from(1000003);
    let direct = modular::pow(&Integer::from(5), &Integer::from(1000009), &q);
    let reduced = modular::pow(&Integer::from(5), &Integer::from(7), &q);
    assert_eq!(reduced, Ok(Integer::from(78125)));
    assert_eq!(direct, reduced);
}

#[test]
fn the_power_below_the_prime_less_one_is_not_one() {
    let q = Integer::from(5);
    assert_eq!(modular::pow(&Integer::from(2), &Integer::from(4), &q), Ok(Integer::from(1)));
    assert_eq!(modular::pow(&Integer::from(2), &Integer::from(3), &q), Ok(Integer::from(3)));
    assert_eq!(modular::div(Integer::from(1), Integer::from(2), &q), Ok(Integer::from(3)));
}
