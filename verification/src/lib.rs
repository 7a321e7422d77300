//! The signing round of a threshold Schnorr signature scheme.
//!
//! A set of participants, each with a share of a signing key, signs a
//! message together. Every participant publishes a commitment to two secret
//! nonces. From the published commitments and the message this library
//! computes each participant's binding factor, the group commitment and the
//! challenge; from these and its own secrets each participant computes its
//! signature share; the shares are verified and summed up into the response
//! of the signature.
//!
//! All numbers are integers of any size, and all arithmetic is done modulo
//! the modulus `q` of a [`FrostState`]. Every function is a pure function of
//! its arguments. What each computes is stated in its contract over
//! mathematical integers, and proved.
//!
//! - [`state`]: the group parameters.
//! - [`modular`]: addition, subtraction, multiplication, division and powers
//!   modulo `q`.
//! - [`sign`]: the operations of the signing round.
//! - [`digest`]: hashing a text to a residue.
//! - [`text`]: decimal and hexadecimal numerals.
//! - [`residue`], [`series`], [`fermat`], [`laws`]: the mathematics behind
//!   the contracts, and what is proved of the operations taken together.
//! - [`bigint`]: what is taken as given of the integers of `rug`.
//! - [`error`]: arithmetic failures.

pub mod bigint;
pub mod digest;
pub mod error;
pub mod fermat;
pub mod laws;
pub mod modular;
pub mod residue;
pub mod series;
pub mod sign;
pub mod state;
pub mod text;

pub use state::FrostState;
