//! Chance, from the `rand` crate.

use vstd::prelude::*;
use rand::Rng;

verus! {

/// A random number below `n`.
///
/// Trusted: calls `rand::Rng::gen_range` on `rand::thread_rng()` with the
/// range `0..n`. rand documents that `gen_range` samples a value from the
/// range and panics when the range is empty; the contract states only that
/// the value lies in the range (which value comes is chance) and leaves the
/// empty range out by `requires`.
#[verifier::external_body]
pub(crate) fn random_below(n: usize) -> (r: usize)
    requires
        n > 0,
    ensures
        r < n,
{
    rand::thread_rng().gen_range(0..n)
}

} // verus!
