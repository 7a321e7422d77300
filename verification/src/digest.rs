//! From a text to a residue: the SHA-256 digest of the text, read as a
//! hexadecimal numeral and reduced modulo `q`.

use crate::bigint::{parse_in_radix, remainder_of, value_of};
use crate::error::ArithmeticError;
use crate::text::{hex_value, is_hex_str, is_hex_text};
use rug::Integer;
use vstd::prelude::*;

verus! {

/// The digest that `sha256::digest` returns for a text: the SHA-256 hash of
/// its UTF-8 bytes, as text. The crate writes it in hexadecimal digits; the
/// library does not take that as given, and examines each digest.
pub uninterp spec fn sha256_hex(text: Seq<char>) -> Seq<char>;

/// `sha256::digest` on a `&str`: the digest of the text, which depends on
/// the text alone.
#[verifier::external_body]
pub(crate) fn sha256_of(text: &str) -> (r: String)
    ensures
        r@ == sha256_hex(text@),
{
    sha256::digest(text)
}

/// Whether the digest of `text` can be read as a number.
pub open spec fn hash_defined(text: Seq<char>) -> bool {
    is_hex_text(sha256_hex(text))
}

/// The digest of `text`, read as a hexadecimal numeral and reduced modulo `q`.
pub open spec fn hash_scalar(text: Seq<char>, q: int) -> int {
    hex_value(sha256_hex(text)) % q
}

/// Reads a digest as a hexadecimal numeral and reduces it modulo `q`. A
/// digest that is no hexadecimal numeral is refused.
pub fn scalar_from_digest(digest: &str, q: &Integer) -> (r: Result<Integer, ArithmeticError>)
    requires
        value_of(*q) > 0,
    ensures
        match r {
            Ok(v) => is_hex_text(digest@) && value_of(v) == hex_value(digest@) % value_of(*q) && 0
                <= value_of(v) < value_of(*q),
            Err(e) => !is_hex_text(digest@) && e == ArithmeticError::MalformedDigest,
        },
{
    if !is_hex_str(digest) {
        return Err(ArithmeticError::MalformedDigest);
    }
    match parse_in_radix(digest, 16) {
        Ok(n) => Ok(remainder_of(n, q)),
        Err(_) => Err(ArithmeticError::MalformedDigest),
    }
}

/// Hashes a text to a residue modulo `q`. It fails where the digest is no
/// hexadecimal numeral, and only there.
pub fn hash_to_scalar(text: &str, q: &Integer) -> (r: Result<Integer, ArithmeticError>)
    requires
        value_of(*q) > 0,
    ensures
        match r {
            Ok(v) => hash_defined(text@) && value_of(v) == hash_scalar(text@, value_of(*q)) && 0
                <= value_of(v) < value_of(*q),
            Err(e) => !hash_defined(text@) && e == ArithmeticError::MalformedDigest,
        },
{
    let digest = sha256_of(text);
    scalar_from_digest(digest.as_str(), q)
}

} // verus!
