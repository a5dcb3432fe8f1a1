//! Trusted boundary around the pseudo-random generator: the generator type
//! itself and the few operations the engine draws on.

use vstd::prelude::*;

use rand::seq::SliceRandom;
use rand::Rng;
use rand::SeedableRng;

verus! {

#[verifier::external_type_specification]
#[verifier::external_body]
pub struct ExLcg64Xsh32(rand_pcg::Lcg64Xsh32);

/// Relies on rand_pcg::Pcg32::from_entropy (rand_core::SeedableRng): a fresh
/// generator seeded from the operating system's entropy source. Nothing is
/// promised of its state.
#[verifier::external_body]
pub(crate) fn fresh_rng() -> rand_pcg::Pcg32 {
    rand_pcg::Pcg32::from_entropy()
}

/// Relies on the derived Clone of rand_pcg::Lcg64Xsh32: a copy of the
/// generator. Nothing is promised of the copy's state.
#[verifier::external_body]
pub(crate) fn clone_rng(rng: &rand_pcg::Pcg32) -> rand_pcg::Pcg32 {
    rng.clone()
}

/// Relies on rand::Rng::gen_range over `0..n`: a draw below `n`, uniform over
/// that range. The call panics on an empty range, so `n` must be positive.
#[verifier::external_body]
pub(crate) fn rand_below(rng: &mut rand_pcg::Pcg32, n: usize) -> (r: usize)
    requires
        n > 0,
    ensures
        r < n,
{
    rng.gen_range(0..n)
}

/// Relies on rand::seq::SliceRandom::shuffle: an in-place permutation of the
/// elements, so the multiset of elements and the length are unchanged.
#[verifier::external_body]
pub(crate) fn shuffle_vec<T>(v: &mut Vec<T>, rng: &mut rand_pcg::Pcg32)
    ensures
        final(v)@.to_multiset() == old(v)@.to_multiset(),
        final(v)@.len() == old(v)@.len(),
{
    v.shuffle(rng)
}

} // verus!
