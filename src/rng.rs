use vstd::prelude::*;

use rand::rngs::{OsRng, StdRng};
use rand::seq::SliceRandom;
use rand::{SeedableRng, TryRngCore};

verus! {

/// rand's standard seeded generator, carried through opaquely.
#[verifier::external_type_specification]
#[verifier::external_body]
pub struct ExStdRng(StdRng);

/// The state of a standard generator seeded with `seed`.
pub uninterp spec fn rng_from_seed(seed: u64) -> StdRng;

/// The permuted items and the generator's next state, after shuffling
/// `items` with a generator in state `rng`.
pub uninterp spec fn shuffle_outcome(items: Seq<char>, rng: StdRng) -> (Seq<char>, StdRng);

/// The permuted indices and the generator's next state, after shuffling
/// `items` with a generator in state `rng`.
pub uninterp spec fn shuffle_index_outcome(items: Seq<usize>, rng: StdRng) -> (Seq<usize>, StdRng);

/// Relies on rand's `SeedableRng::seed_from_u64` for `StdRng`: the state is a
/// function of the seed alone.
#[verifier::external_body]
pub(crate) fn seeded_rng(seed: u64) -> (r: StdRng)
    ensures
        r == rng_from_seed(seed),
{
    StdRng::seed_from_u64(seed)
}

/// Relies on rand's `SliceRandom::shuffle`: the items are permuted in place, the
/// permutation depending on the generator's state alone, and the generator advances.
#[verifier::external_body]
pub(crate) fn shuffle_chars(items: &mut Vec<char>, rng: &mut StdRng)
    ensures
        (final(items)@, *final(rng)) == shuffle_outcome(old(items)@, *old(rng)),
        final(items)@.to_multiset() == old(items)@.to_multiset(),
{
    items.shuffle(rng)
}

/// Relies on rand's `SliceRandom::shuffle`: the indices are permuted in place,
/// the permutation depending on the generator's state alone, and the
/// generator advances.
#[verifier::external_body]
pub(crate) fn shuffle_indices(items: &mut Vec<usize>, rng: &mut StdRng)
    ensures
        (final(items)@, *final(rng)) == shuffle_index_outcome(old(items)@, *old(rng)),
        final(items)@.to_multiset() == old(items)@.to_multiset(),
{
    items.shuffle(rng)
}

/// Relies on rand's `OsRng::try_next_u64`: a seed from the operating system's
/// source, `None` where that source fails.
#[verifier::external_body]
pub(crate) fn os_seed() -> (r: Option<u64>) {
    OsRng.try_next_u64().ok()
}

} // verus!
