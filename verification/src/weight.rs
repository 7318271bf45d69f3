//! Fixed-point weights.
//!
//! A weight is an `i64` counting millionths: `WEIGHT_ONE` stands for 1.0.
//! All thresholds and rates of the learning rule are multiples of that unit,
//! so the arithmetic of the network is exact.

use vstd::prelude::*;

verus! {

/// The fixed-point representation of 1.0.
pub const WEIGHT_ONE: i64 = 1_000_000;

/// A neuron switches on when its activation reaches this value (0.5).
pub const NEURON_SENSITIVITY: i64 = 500_000;

/// Amount by which a link is strengthened (0.02).
pub const WEIGHT_INCREASE_RATE: i64 = 20_000;

/// Amount by which a link is weakened (0.02).
pub const WEIGHT_DECREASE_RATE: i64 = 20_000;

/// Numerator of the share of outgoing weight (4/5) that has to be blamed
/// before a neuron passes the blame on to its own inputs.
pub const PUNISH_BACK_NUMERATOR: i64 = 4;

/// Denominator of that share.
pub const PUNISH_BACK_DENOMINATOR: i64 = 5;

/// Largest magnitude a weight may have. It leaves room for the sums of the
/// two passes in 128-bit accumulators whatever the number of links.
pub const WEIGHT_LIMIT: i64 = 1_000_000_000_000_000_000;

/// Whether `part / whole` is a ratio strictly above the blame share. A zero
/// `whole` has no ratio, and the answer is no.
pub open spec fn exceeds_punish_share(part: int, whole: int) -> bool {
    ||| whole > 0 && PUNISH_BACK_DENOMINATOR * part > PUNISH_BACK_NUMERATOR * whole
    ||| whole < 0 && PUNISH_BACK_DENOMINATOR * part < PUNISH_BACK_NUMERATOR * whole
}

/// The largest magnitude of a sum of weights for which [`exceeds_share`]
/// can compare in 128 bits: as many links as a machine word counts, each at
/// the limit.
pub open spec fn sum_limit() -> int {
    18_446_744_073_709_551_615_000_000_000_000_000_000
}

/// Decides whether `part / whole` is above the blame share, without dividing.
pub fn exceeds_share(part: i128, whole: i128) -> (above: bool)
    requires
        -sum_limit() <= part <= sum_limit(),
        -sum_limit() <= whole <= sum_limit(),
    ensures
        above == exceeds_punish_share(part as int, whole as int),
{
    let denominator: i128 = PUNISH_BACK_DENOMINATOR as i128;
    let numerator: i128 = PUNISH_BACK_NUMERATOR as i128;
    assert(denominator == 5 && numerator == 4);
    let scaled_part: i128 = denominator * part;
    let scaled_whole: i128 = numerator * whole;
    (whole > 0 && scaled_part > scaled_whole) || (whole < 0 && scaled_part < scaled_whole)
}

} // verus!
