//! The random draws, taken from the thread-local generator of `rand`.
//!
//! Nothing here is proved: each function states only what holds of every
//! value that the generator may hand back.

use rand::Rng;
use vstd::prelude::*;

verus! {

/// `rand::random::<usize>()`: any `usize`. Nothing is claimed of the result.
#[verifier::external_body]
pub(crate) fn any_index() -> usize {
    rand::random::<usize>()
}

/// `rand::random::<bool>()`: either value. Nothing is claimed of the result.
#[verifier::external_body]
pub(crate) fn coin() -> bool {
    rand::random::<bool>()
}

/// `Rng::gen_range(low, high)` on `rand::thread_rng()`: a value of the
/// half-open range from `low` to `high`. The range must not be empty, or
/// the call panics.
#[verifier::external_body]
pub(crate) fn between(low: u32, high: u32) -> (r: u32)
    requires
        low < high,
    ensures
        low <= r < high,
{
    rand::thread_rng().gen_range(low, high)
}

} // verus!
