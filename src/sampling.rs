use vstd::prelude::*;

use rand::seq::SliceRandom;

verus! {

/// Relies on rand's `SliceRandom::shuffle` with `rand::thread_rng()`: an
/// in-place Fisher-Yates shuffle, made only of swaps, so the vector holds the
/// same values as before, in an order that chance decides. The generator
/// panics only where the system's entropy source fails, when it is first
/// seeded or when it is later reseeded; no argument decides that.
#[verifier::external_body]
pub(crate) fn shuffle(v: &mut Vec<usize>)
    ensures
        final(v)@.to_multiset() == old(v)@.to_multiset(),
{
    v.as_mut_slice().shuffle(&mut rand::thread_rng());
}

} // verus!
