//! The one source of chance: a uniform shuffle from the `rand` crate.
use rand::seq::SliceRandom;
use vstd::prelude::*;

verus! {

/// Relies on rand's `SliceRandom::shuffle`, driven by `rand::thread_rng`: it
/// reorders the elements in place (a Fisher-Yates run of swaps), so the
/// result is a permutation of what was there.
#[verifier::external_body]
pub(crate) fn shuffle(v: &mut Vec<usize>)
    ensures
        final(v)@.to_multiset() == old(v)@.to_multiset(),
{
    v.shuffle(&mut rand::thread_rng());
}

} // verus!
