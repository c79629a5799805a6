use vstd::prelude::*;

use rand::seq::SliceRandom;
use rand::{Rng, SeedableRng};
use rand_xoshiro::Xoshiro256StarStar;

verus! {

#[verifier::external_type_specification]
#[verifier::external_body]
pub struct ExXoshiro256StarStar(Xoshiro256StarStar);

/// Relies on rand_core's `SeedableRng::from_entropy`: a generator seeded by the OS.
#[verifier::external_body]
pub(crate) fn entropy_source() -> (r: Xoshiro256StarStar) {
    Xoshiro256StarStar::from_entropy()
}

/// Relies on rand_core's `SeedableRng::seed_from_u64`: a generator fixed by `seed`.
#[verifier::external_body]
pub(crate) fn seeded_source(seed: u64) -> (r: Xoshiro256StarStar) {
    Xoshiro256StarStar::seed_from_u64(seed)
}

/// Relies on rand's `Rng::gen_range` over the inclusive range `lo..=hi`.
#[verifier::external_body]
pub(crate) fn draw_between(rng: &mut Xoshiro256StarStar, lo: u32, hi: u32) -> (r: u32)
    requires
        lo <= hi,
    ensures
        lo <= r <= hi,
{
    rng.gen_range(lo..=hi)
}

/// Relies on rand's `SliceRandom::shuffle`: the same items, in some order.
#[verifier::external_body]
pub(crate) fn shuffle_indices(rng: &mut Xoshiro256StarStar, v: &mut Vec<usize>)
    ensures
        final(v)@.len() == old(v)@.len(),
        final(v)@.to_multiset() == old(v)@.to_multiset(),
{
    v.shuffle(rng)
}

/// Relies on std's `slice::sort_unstable`: the same pairs, ascending (pairs
/// compare by their first component first).
#[verifier::external_body]
pub(crate) fn sort_quotes(v: &mut Vec<(u32, usize)>)
    ensures
        final(v)@.len() == old(v)@.len(),
        final(v)@.to_multiset() == old(v)@.to_multiset(),
        forall|i: int, j: int| 0 <= i < j < final(v)@.len() ==> final(v)@[i].0 <= final(v)@[j].0,
{
    v.sort_unstable()
}

} // verus!
