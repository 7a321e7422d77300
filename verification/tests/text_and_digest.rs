use frost_sign::digest::{hash_to_scalar, scalar_from_digest};
use frost_sign::error::ArithmeticError;
use frost_sign::text::is_hex_str;
use rug::Integer;

#[test]
fn hexadecimal_numerals_are_recognised() {
    assert!(is_hex_str("0"));
    assert!(is_hex_str("ff"));
    assert!(is_hex_str("FF"));
    assert!(is_hex_str("0123456789abcdefABCDEF"));
    assert!(is_hex_str("2cf24dba5fb0a30e26e83b2ac5b9e29e1b161e5c1fa7425e73043362938b9824"));
}

#[test]
fn other_texts_are_no_hexadecimal_numerals() {
    assert!(!is_hex_str(""));
    assert!(!is_hex_str("g"));
    assert!(!is_hex_str("-ff"));
    assert!(!is_hex_str("+ff"));
    assert!(!is_hex_str("f f"));
    assert!(!is_hex_str("f_f"));
    assert!(!is_hex_str("0x10"));
    assert!(!is_hex_str("ab\u{e9}"));
    assert!(!is_hex_str("/"));
    assert!(!is_hex_str(":"));
    assert!(!is_hex_str("@"));
    assert!(!is_hex_str("G"));
    assert!(!is_hex_str("`"));
}

#[test]
fn a_digest_is_read_as_a_hexadecimal_number() {
    let q = Integer::from(7);
    assert_eq!(scalar_from_digest("ff", &q), Ok(Integer::from(3)));
    assert_eq!(scalar_from_digest("FF", &q), Ok(Integer::from(3)));
    assert_eq!(scalar_from_digest("0", &q), Ok(Integer::from(0)));
    assert_eq!(scalar_from_digest("000a", &Integer::from(1000)), Ok(Integer::from(10)));
    assert_eq!(
        scalar_from_digest(
            "2cf24dba5fb0a30e26e83b2ac5b9e29e1b161e5c1fa7425e73043362938b9824",
            &Integer::from(1000003)
        ),
        Ok(Integer::from(501190))
    );
}

#[test]
fn a_malformed_digest_is_refused() {
    let q = Integer::from(7);
    assert_eq!(scalar_from_digest("", &q), Err(ArithmeticError::MalformedDigest));
    assert_eq!(scalar_from_digest("xyz", &q), Err(ArithmeticError::MalformedDigest));
    assert_eq!(scalar_from_digest("-ff", &q), Err(ArithmeticError::MalformedDigest));
    assert_eq!(scalar_from_digest("f f", &q), Err(ArithmeticError::MalformedDigest));
    assert_eq!(scalar_from_digest("ff\n", &q), Err(ArithmeticError::MalformedDigest));
}

#[test]
fn a_text_is_hashed_with_sha256() {
    assert_eq!(hash_to_scalar("hello", &Integer::from(1000003)), Ok(Integer::from(501190)));
    assert_eq!(hash_to_scalar("", &Integer::from(1000003)), Ok(Integer::from(597209)));
    let q = "170141183460469231731687303715884105727".parse::<Integer>().unwrap();
    assert_eq!(
        hash_to_scalar("hello", &q),
        Ok("155492290519943899792941124755396713824".parse::<Integer>().unwrap())
    );
}

#[test]
fn the_hash_of_a_text_is_not_the_text() {
    let q = "170141183460469231731687303715884105727".parse::<Integer>().unwrap();
    assert_ne!(hash_to_scalar("ff", &q), Ok(Integer::from(255)));
    assert_ne!(hash_to_scalar("hello", &q), hash_to_scalar("hellp", &q));
}
