//! Randomness for the map: a seeded pseudo-random generator from the `rand`
//! crate behind trusted wrappers. Nothing is assumed of the drawn values
//! beyond their documented range, and nothing of the generator's state, so
//! every verified caller holds for every outcome.

use vstd::prelude::*;
use rand::Rng;
use rand::SeedableRng;
use rand::seq::SliceRandom;
use crate::node::Input;

verus! {

/// The `rand::rngs::StdRng` pseudo-random generator, opaque to the library.
#[verifier::external_type_specification]
#[verifier::external_body]
pub struct ExStdRng(rand::rngs::StdRng);

/// Smallest multiplicative noise factor, per mille.
pub const NOISE_MIN: i64 = 950;

/// Largest multiplicative noise factor, per mille.
pub const NOISE_MAX: i64 = 1050;

/// Relies on `rand::SeedableRng::seed_from_u64`: builds a generator from a
/// seed. Nothing is stated of its state.
#[verifier::external_body]
pub fn seeded_rng(seed: u64) -> rand::rngs::StdRng {
    rand::rngs::StdRng::seed_from_u64(seed)
}

/// Relies on `rand::Rng::gen_range` over the inclusive range
/// `NOISE_MIN..=NOISE_MAX`: the drawn value lies in that range.
#[verifier::external_body]
pub fn noise_factor(rng: &mut rand::rngs::StdRng) -> (r: i64)
    ensures
        NOISE_MIN <= r <= NOISE_MAX,
{
    rng.gen_range(NOISE_MIN..=NOISE_MAX)
}

/// Relies on `rand::seq::SliceRandom::shuffle`: permutes the slice in place,
/// so the multiset of items is kept.
#[verifier::external_body]
pub fn shuffle_inputs(rng: &mut rand::rngs::StdRng, items: &mut Vec<Input>)
    ensures
        final(items)@.to_multiset() == old(items)@.to_multiset(),
{
    items.shuffle(rng);
}

} // verus!
