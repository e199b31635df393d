use rand::rngs::StdRng;
use rand::seq::SliceRandom;
use rand::SeedableRng;
use vstd::prelude::*;

use super::draw::CardInstance;

verus! {

#[verifier::external_type_specification]
#[verifier::external_body]
pub struct ExStdRng(StdRng);

/// Calls `rand::SeedableRng::seed_from_u64` for `StdRng`. Nothing is claimed
/// of the generator that comes back.
#[verifier::external_body]
pub(crate) fn rng_from_seed(seed: u64) -> StdRng {
    StdRng::seed_from_u64(seed)
}

/// Calls `rand::seq::SliceRandom::shuffle` on the pile. The claim is only
/// that the pile comes back as a permutation of itself (the crate's source
/// shuffles by swapping elements); which order comes out is left unsaid.
#[verifier::external_body]
pub(crate) fn shuffle_pile(pile: &mut Vec<CardInstance>, rng: &mut StdRng)
    ensures
        final(pile)@.len() == old(pile)@.len(),
        final(pile)@.to_multiset() == old(pile)@.to_multiset(),
{
    pile.shuffle(rng);
}

} // verus!
