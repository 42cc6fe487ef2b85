//! The generator's only outside dependency: a uniform random draw and an
//! in-place shuffle, both from the rand crate.
use vstd::prelude::*;

use rand::seq::SliceRandom;
use rand::Rng;

verus! {

/// Relies on rand's `Rng::gen_range` over `low..high`: it panics on an
/// empty range and otherwise returns a value drawn from inside the range.
#[verifier::external_body]
pub(crate) fn rand_in_range(low: usize, high: usize) -> (r: usize)
    requires
        low < high,
    ensures
        low <= r < high,
{
    rand::thread_rng().gen_range(low..high)
}

/// Relies on rand's `SliceRandom::shuffle`: an in-place Fisher-Yates pass
/// that only swaps elements, so afterwards the vector holds the same
/// elements, as many times each, in some order of the generator's choosing.
#[verifier::external_body]
pub(crate) fn shuffle_dirs(v: &mut Vec<usize>)
    ensures
        final(v)@.to_multiset() == old(v)@.to_multiset(),
        final(v)@.len() == old(v)@.len(),
{
    v.shuffle(&mut rand::thread_rng())
}

} // verus!
