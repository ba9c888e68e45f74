//! The pseudo-random source: rand's ISAAC-64 generator.
use rand::{Rng, SeedableRng};
use vstd::prelude::*;



verus! {

#[verifier::external_type_specification]
#[verifier::external_body]
pub struct ExIsaac64Rng(rand::Isaac64Rng);

/// The generator that a seed builds.
pub uninterp spec fn rng_from_seed(seed: Seq<u64>) -> rand::Isaac64Rng;

/// Relies on `<Isaac64Rng as SeedableRng<&[u64]>>::from_seed`, which starts
/// from a fixed empty state and mixes in the seed words alone: equal seeds
/// give equal generators.
#[verifier::external_body]
fn seeded(seed: &Vec<u64>) -> (r: rand::Isaac64Rng)
    ensures
        r == rng_from_seed(seed@),
{
    rand::Isaac64Rng::from_seed(seed.as_slice())
}

/// Relies on `Rng::gen::<u32>`: any 32-bit value.
#[verifier::external_body]
pub(crate) fn draw_u32(rng: &mut rand::Isaac64Rng) -> (r: u32) {
    rng.gen::<u32>()
}

/// Relies on `Rng::gen_weighted_bool`, which returns `true` outright when `n <= 1`
/// and otherwise with probability `1 / n`.
#[verifier::external_body]
pub(crate) fn weighted_bool(rng: &mut rand::Isaac64Rng, n: u32) -> (r: bool)
    ensures
        n <= 1 ==> r,
{
    rng.gen_weighted_bool(n)
}

/// Relies on `Rng::shuffle`, a Fisher-Yates shuffle that only swaps elements:
/// the result holds the same values, each as often as before.
#[verifier::external_body]
pub(crate) fn shuffle_in_place(rng: &mut rand::Isaac64Rng, v: &mut Vec<u32>)
    ensures
        final(v)@.to_multiset() == old(v)@.to_multiset(),
        final(v)@.len() == old(v)@.len(),
{
    rng.shuffle(v.as_mut_slice())
}

/// The generator for one worker in one era, seeded deterministically from a
/// master seed, so that workers never share a generator and equal master seeds
/// give equal runs.
pub fn worker_rng(master_seed: u64, era: u64, worker: u64) -> (r: rand::Isaac64Rng)
    ensures
        r == rng_from_seed(seq![master_seed, era, worker]),
{
    let mut seed: Vec<u64> = Vec::new();
    seed.push(master_seed);
    seed.push(era);
    seed.push(worker);
    assert(seed@ =~= seq![master_seed, era, worker]);
    seeded(&seed)
}

} // verus!
