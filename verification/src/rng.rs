//! Trusted wrappers around the process-wide random-number generator.

use vstd::prelude::*;

use rand::seq::SliceRandom;
use rand::Rng;

verus! {

/// Relies on rand's `Rng::gen_range`: a draw from the inclusive range
/// `lo..=hi`, which panics only when the range is empty.
#[verifier::external_body]
pub(crate) fn rand_in_range(lo: u16, hi: u16) -> (r: u16)
    requires
        lo <= hi,
    ensures
        lo <= r <= hi,
{
    rand::thread_rng().gen_range(lo..=hi)
}

/// Relies on rand's `SliceRandom::shuffle`: an in-place permutation of the
/// elements (a sequence of swaps).
#[verifier::external_body]
pub(crate) fn shuffle_vec<T>(v: &mut Vec<T>)
    ensures
        final(v)@.len() == old(v)@.len(),
        final(v)@.to_multiset() == old(v)@.to_multiset(),
{
    v.shuffle(&mut rand::thread_rng());
}

} // verus!
