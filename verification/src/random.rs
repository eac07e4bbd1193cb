//! Drawing integers from the seeded generator of the `rand` crate.

use rand::RngExt;
use rand::rngs::StdRng;
use vstd::prelude::*;

verus! {

/// The generator `rand::rngs::StdRng`, whose state is not described.
#[verifier::external_type_specification]
#[verifier::external_body]
pub struct ExStdRng(StdRng);

/// Calls `RngExt::random_range` on the range from 0 to `bound`: some number of that range.
/// Which one it is depends on the state of the generator and is left unsaid. The call
/// panics on an empty range.
#[verifier::external_body]
pub(crate) fn draw_below(rng: &mut StdRng, bound: i32) -> (drawn: i32)
    requires
        bound > 0,
    ensures
        0 <= drawn < bound,
{
    rng.random_range(0..bound)
}

/// Calls `RngExt::random` for a `u64`. Every value can come back: which one it is depends
/// on the state of the generator and is left unsaid.
#[verifier::external_body]
pub(crate) fn draw_seed(rng: &mut StdRng) -> (seed: u64) {
    rng.random()
}

/// Calls `rand::seq::index::sample`: `amount` different indices below `length`. Which ones,
/// and in which order, depends on the state of the generator and is left unsaid. The call
/// panics when `amount` exceeds `length`, and may do so when both are the same number above
/// `u32::MAX`.
#[verifier::external_body]
pub(crate) fn draw_indices(rng: &mut StdRng, length: usize, amount: usize) -> (indices: Vec<usize>)
    requires
        amount <= length,
        length <= u32::MAX || amount < length,
    ensures
        indices@.len() == amount,
        indices@.no_duplicates(),
        forall|i: int| 0 <= i < indices@.len() ==> (#[trigger] indices@[i]) < length,
{
    rand::seq::index::sample(rng, length, amount).into_vec()
}

/// The seeds `base + i` for `i` from `first` up to but not including `end`. A sum that does
/// not fit wraps around.
pub open spec fn seed_list(base: u64, first: int, end: int) -> Seq<u64> {
    Seq::new((end - first) as nat, |i: int| base.wrapping_add((first + i) as u64))
}

/// The seeds `base + i` for `i` from `first` up to but not including `end`: see `seed_list`.
pub fn seeds_from(base: u64, first: usize, end: usize) -> (seeds: Vec<u64>)
    requires
        first <= end,
    ensures
        seeds@ == seed_list(base, first as int, end as int),
{
    let mut seeds: Vec<u64> = Vec::new();
    for i in first..end
        invariant
            first <= end,
            seeds@ == seed_list(base, first as int, i as int),
    {
        seeds.push(base.wrapping_add(i as u64));
        assert(seeds@ =~= seed_list(base, first as int, i + 1));
    }
    seeds
}

/// Draws the seeds of `count` games: consecutive numbers from a random one on.
pub fn game_seeds(rng: &mut StdRng, count: usize) -> (seeds: Vec<u64>)
    ensures
        exists|base: u64| seeds@ == #[trigger] seed_list(base, 0, count as int),
{
    let base: u64 = draw_seed(rng);
    seeds_from(base, 0, count)
}

/// No two games have the same seed.
pub proof fn law_seeds_differ(base: u64, end: int, i: int, j: int)
    requires
        0 <= i < j < end <= u64::MAX,
    ensures
        seed_list(base, 0, end)[i] != seed_list(base, 0, end)[j],
{
}

} // verus!
