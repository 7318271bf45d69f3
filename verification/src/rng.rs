//! The source of the initial weights: the thread-local generator of the
//! `rand` crate. Nothing here is verified; the contracts say what the
//! library relies on.

use rand::rngs::ThreadRng;
use rand::Rng;
use vstd::prelude::*;

verus! {

/// `rand::rngs::ThreadRng`, of which the library knows nothing but that it
/// can be asked for numbers.
#[verifier::external_type_specification]
#[verifier::external_body]
pub struct ExThreadRng(rand::rngs::ThreadRng);

/// Calls `rand::thread_rng`, which hands out the generator of the current
/// thread. Nothing is claimed of it.
#[verifier::external_body]
pub(crate) fn thread_generator() -> ThreadRng {
    rand::thread_rng()
}

/// Calls `Rng::gen_range` on the inclusive range from `low` to `high`. The
/// call panics on an empty range, so `low` may not exceed `high`; whatever
/// number comes back lies in the range. Which one it is, is not said: two
/// calls may differ.
#[verifier::external_body]
pub(crate) fn draw_between(rng: &mut ThreadRng, low: i64, high: i64) -> (value: i64)
    requires
        low <= high,
    ensures
        low <= value <= high,
{
    rng.gen_range(low..=high)
}

} // verus!
