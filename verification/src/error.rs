//! The ways in which the arithmetic of a signing round can fail.

use vstd::prelude::*;

verus! {

/// An arithmetic failure. None of them can be recovered from inside the
/// library: each is handed to the caller as it is.
#[derive(Clone, Copy, Debug, PartialEq, Eq, Structural)]
pub enum ArithmeticError {
    /// A division by a residue that has no inverse modulo `q`.
    NotInvertible,
    /// A power with a negative exponent.
    NegativeExponent,
    /// A hash digest that is not a hexadecimal numeral.
    MalformedDigest,
}

} // verus!
