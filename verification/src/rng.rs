//! Randomness for wandering and spawning, drawn from the process-wide
//! generator. Nothing is assumed of an outcome beyond its range.

use vstd::prelude::*;
use rand::Rng;

verus! {

/// Relies on rand's `Rng::gen_range` over an inclusive integer range: the
/// result lies within the range. The range `lo..=hi` is non-empty, so the
/// call does not panic.
#[verifier::external_body]
pub(crate) fn rand_between(lo: u64, hi: u64) -> (r: u64)
    requires
        lo <= hi,
    ensures
        lo <= r <= hi,
{
    rand::thread_rng().gen_range(lo..=hi)
}

/// Relies on rand's `Rng::gen_ratio`: a coin flip that comes up true with
/// probability `num` in `den`. Nothing is promised of the outcome; the
/// arguments form a valid ratio, so the call does not panic.
#[verifier::external_body]
pub(crate) fn rand_chance(num: u32, den: u32) -> bool
    requires
        0 < den,
        num <= den,
{
    rand::thread_rng().gen_ratio(num, den)
}

} // verus!
