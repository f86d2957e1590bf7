//! The random generator that the treap draws from.

use rand::rngs::StdRng;
use rand::{Rng, SeedableRng};
use vstd::prelude::*;

verus! {

/// `rand::rngs::StdRng`, the generator that a treap draws its priorities
/// from. Nothing of what is inside it is visible here.
#[verifier::external_type_specification]
#[verifier::external_body]
pub struct ExStdRng(StdRng);

/// `StdRng::from_seed`: a generator that starts from `seed`. Its state is
/// hidden, so nothing is stated of it.
#[verifier::external_body]
pub(crate) fn seeded(seed: [u8; 32]) -> (rng: StdRng) {
    StdRng::from_seed(seed)
}

/// `Rng::gen` for `u64`: the generator's next value. It may be any number,
/// and the generator moves on.
#[verifier::external_body]
pub(crate) fn next_priority(rng: &mut StdRng) -> (priority: u64) {
    rng.gen()
}

} // verus!
