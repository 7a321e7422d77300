//! The parameters of the group that a signing session works in.

use crate::bigint::{from_u32, is_less, value_of};
use rug::Integer;
use vstd::prelude::*;

verus! {

/// The group parameters: the modulus `q`, which is also taken as the order of
/// the group, and a generator. A value is made once and never changed; every
/// operation of a signing round takes a reference to it.
///
/// The modulus is meant to be a prime, and the generator to generate the
/// group. Neither is examined: a value of this type always has a modulus of
/// at least two, and no more is known of it. What holds for a prime modulus
/// only says so.
pub struct FrostState {
    q: Integer,
    generator: Integer,
}

impl FrostState {
    #[verifier::type_invariant]
    spec fn well_formed(self) -> bool {
        value_of(self.q) >= 2
    }

    /// The modulus.
    pub closed spec fn modulus(self) -> int {
        value_of(self.q)
    }

    /// The generator.
    pub closed spec fn base(self) -> int {
        value_of(self.generator)
    }

    /// The parameters with modulus `q` and generator `generator`; `None`
    /// for a modulus below two.
    pub fn new(q: Integer, generator: Integer) -> (r: Option<FrostState>)
        ensures
            match r {
                Some(state) => value_of(q) >= 2 && state.modulus() == value_of(q) && state.base()
                    == value_of(generator),
                None => value_of(q) < 2,
            },
    {
        let two = from_u32(2);
        if is_less(&q, &two) {
            None
        } else {
            Some(FrostState { q, generator })
        }
    }

    /// The modulus.
    pub fn q(&self) -> (r: &Integer)
        ensures
            value_of(*r) == self.modulus(),
            self.modulus() >= 2,
    {
        proof {
            use_type_invariant(self);
        }
        &self.q
    }

    /// The generator.
    pub fn generator(&self) -> (r: &Integer)
        ensures
            value_of(*r) == self.base(),
    {
        &self.generator
    }
}

} // verus!
