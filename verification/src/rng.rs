//! The random number generator that the library draws from.

use vstd::prelude::*;
use rand::seq::SliceRandom;
use rand::{Rng, SeedableRng};
use rand_pcg::Pcg64Mcg;

verus! {

/// The generator type of `rand_pcg`, carried through as an opaque value.
#[verifier::external_type_specification]
#[verifier::external_body]
pub struct ExMcg128Xsl64(rand_pcg::Mcg128Xsl64);

/// `Pcg64Mcg::seed_from_u64`: a generator whose draws are fixed by the seed.
/// Nothing is claimed of the generator.
#[verifier::external_body]
pub(crate) fn seeded_rng(seed: u64) -> (rng: Pcg64Mcg) {
    Pcg64Mcg::seed_from_u64(seed)
}

/// `Pcg64Mcg::try_from_os_rng`: a generator seeded by the operating system,
/// or `None` when the system gives no entropy. Nothing is claimed of the
/// generator.
#[verifier::external_body]
pub(crate) fn os_rng() -> (rng: Option<Pcg64Mcg>) {
    Pcg64Mcg::try_from_os_rng().ok()
}

/// `Rng::random_range` on the range `0..bound`: some number below the bound.
/// The call panics on an empty range, which the precondition excludes.
#[verifier::external_body]
pub(crate) fn random_below(rng: &mut Pcg64Mcg, bound: usize) -> (r: usize)
    requires
        bound > 0,
    ensures
        r < bound,
{
    rng.random_range(0..bound)
}

/// `SliceRandom::shuffle` on the items of a vector: the same items in some
/// order.
#[verifier::external_body]
pub(crate) fn shuffle(items: &mut Vec<usize>, rng: &mut Pcg64Mcg)
    ensures
        final(items)@.to_multiset() == old(items)@.to_multiset(),
{
    items.shuffle(rng)
}

} // verus!
