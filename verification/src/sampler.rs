use rand::Rng;
use rand::SeedableRng;
use rand_xoshiro::Xoshiro256PlusPlus;
use vstd::prelude::*;

verus! {

/// The generator that drives the block resampling.
#[verifier::external_type_specification]
#[verifier::external_body]
pub struct ExXoshiro256PlusPlus(Xoshiro256PlusPlus);

/// The value that `Rng::random_range(0..bound)` returns on a
/// `Xoshiro256PlusPlus` seeded by `seed_from_u64(seed)` after draws with the
/// upper bounds `earlier`, in that order.
///
/// The generator is deterministic (SplitMix64 expansion of the seed, then
/// xoshiro256++), and `random_range` on `usize` gives the same values on 32-
/// and 64-bit targets, so this depends on the three arguments alone.
pub uninterp spec fn xoshiro_range_draw(seed: u64, earlier: Seq<usize>, bound: usize) -> usize;

/// A seeded generator together with what it has done: its seed and the
/// upper bounds of the draws made so far.
///
/// Only the two functions of this module create and advance it, so the
/// generator inside always is the one that seed and history describe.
pub struct IndexSampler {
    rng: Xoshiro256PlusPlus,
    seed: Ghost<u64>,
    bounds: Ghost<Seq<usize>>,
}

impl View for IndexSampler {
    type V = (u64, Seq<usize>);

    /// The seed and the bounds of the draws made so far.
    closed spec fn view(&self) -> (u64, Seq<usize>) {
        (self.seed@, self.bounds@)
    }
}

/// Calls `Xoshiro256PlusPlus::seed_from_u64(seed)`; the new sampler has the
/// seed `seed` and no draws behind it.
#[verifier::external_body]
pub fn seeded_sampler(seed: u64) -> (s: IndexSampler)
    ensures
        s@ == (seed, Seq::<usize>::empty()),
{
    IndexSampler {
        rng: Xoshiro256PlusPlus::seed_from_u64(seed),
        seed: Ghost(seed),
        bounds: Ghost(Seq::empty()),
    }
}

/// Calls `Rng::random_range(0..bound)` on the sampler's generator, which
/// returns a value in `0..bound` (and panics on an empty range, which
/// `requires` rules out). The value is the name `xoshiro_range_draw` of the
/// seed, the earlier bounds and `bound`; the draw joins the history.
#[verifier::external_body]
pub fn draw_below(s: &mut IndexSampler, bound: usize) -> (r: usize)
    requires
        bound > 0,
    ensures
        r < bound,
        r == xoshiro_range_draw(old(s)@.0, old(s)@.1, bound),
        final(s)@ == (old(s)@.0, old(s)@.1.push(bound)),
{
    s.rng.random_range(0..bound)
}

} // verus!
