//! Chance, drawn from the thread's random number generator.
use vstd::prelude::*;
use rand::Rng;
use rand::seq::SliceRandom;

verus! {

/// Calls `rand::seq::SliceRandom::shuffle` with `rand::thread_rng()`.
/// Claimed: the vector afterwards holds the same items, each as often as before, in an
/// order that chance decides; nothing is claimed of that order.
#[verifier::external_body]
pub fn shuffle<T>(v: &mut Vec<T>)
    ensures
        final(v)@.len() == old(v)@.len(),
        final(v)@.to_multiset() == old(v)@.to_multiset(),
{
    v.shuffle(&mut rand::thread_rng());
}

/// Calls `rand::Rng::gen_range(0, n)` on `rand::thread_rng()`, which panics when `n` is 0.
/// Claimed: the result is below `n`; nothing is claimed of which value it is.
#[verifier::external_body]
pub fn random_below(n: usize) -> (r: usize)
    requires
        n > 0,
    ensures
        r < n,
{
    rand::thread_rng().gen_range(0, n)
}

} // verus!
