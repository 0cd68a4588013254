//! The library's access to randomness.
use vstd::prelude::*;

verus! {

/// Relies on rand::random::<bool>: a fair coin drawn from the thread-local generator.
#[verifier::external_body]
pub(crate) fn coin_flip() -> (r: bool) {
    rand::random::<bool>()
}

/// Relies on rand::random_range: a value drawn uniformly from `0..n` by the
/// thread-local generator, always inside the range; it panics on an empty one.
#[verifier::external_body]
pub(crate) fn random_below(n: usize) -> (r: usize)
    requires
        n > 0,
    ensures
        r < n,
{
    rand::random_range(0..n)
}

} // verus!
