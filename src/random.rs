//! The random choices of the search, drawn from rand's seeded `StdRng`.
use crate::packing::DemandPiece;
use rand::rngs::StdRng;
use rand::seq::SliceRandom;
use rand::Rng;
use rand::SeedableRng;
use vstd::prelude::*;

verus! {

#[verifier::external_type_specification]
#[verifier::external_body]
pub struct ExStdRng(rand::rngs::StdRng);

/// Relies on rand's `SeedableRng::seed_from_u64` for `StdRng`: a generator
/// whose stream is fixed by the seed.
#[verifier::external_body]
pub(crate) fn seeded_rng(seed: u64) -> StdRng {
    StdRng::seed_from_u64(seed)
}

/// Relies on rand's `Rng::gen_range(low, high)`: a value in the half-open
/// range `[low, high)`; it panics when `low >= high`.
#[verifier::external_body]
pub(crate) fn random_index(rng: &mut StdRng, low: usize, high: usize) -> (r: usize)
    requires
        low < high,
    ensures
        low <= r < high,
{
    rng.gen_range(low, high)
}

/// Relies on rand's `SliceRandom::shuffle`: it only swaps elements, so the
/// result is a permutation of its input.
#[verifier::external_body]
pub(crate) fn shuffle_pieces(rng: &mut StdRng, pieces: &mut Vec<DemandPiece>)
    ensures
        final(pieces)@.to_multiset() == old(pieces)@.to_multiset(),
        final(pieces)@.len() == old(pieces)@.len(),
{
    pieces.shuffle(rng)
}

/// Relies on rand's `SliceRandom::choose`: `None` on an empty slice, else one
/// of its elements.
#[verifier::external_body]
pub(crate) fn choose_length(rng: &mut StdRng, lengths: &Vec<usize>) -> (r: Option<usize>)
    ensures
        r.is_none() <==> lengths@.len() == 0,
        r.is_some() ==> lengths@.contains(r.unwrap()),
{
    lengths.choose(rng).copied()
}

} // verus!
