//! The source of random keys, priorities and identifiers.

use vstd::prelude::*;
use rand::distributions::Distribution;
use rand::Rng;
use crate::{ID, Key};

verus! {

/// Largest value that `random_10_7` hands out.
pub const RANDOM_MAX: u32 = 10_000_000;

/// One draw from the uniform distribution over `0..=max`.
///
/// Trusted: the body builds `rand::distributions::Uniform` from the inclusive
/// range `0..=max` and samples it with `rand::thread_rng()`. Of the outcome
/// only the range is claimed; two draws need not agree.
#[verifier::external_body]
fn uniform_up_to(max: u32) -> (r: u32)
    ensures
        r <= max,
{
    rand::distributions::Uniform::from(0..=max).sample(&mut rand::thread_rng())
}

/// One draw from the uniform distribution over `low..high`.
///
/// Trusted: the body calls `rand::Rng::gen_range` on `rand::thread_rng()` with
/// the half-open range `low..high`, which panics when the range is empty;
/// hence the precondition. Of the outcome only the range is claimed.
#[verifier::external_body]
fn uniform_between(low: u64, high: u64) -> (r: u64)
    requires
        low < high,
    ensures
        low <= r < high,
{
    rand::thread_rng().gen_range(low..high)
}

/// A random value in `0..=RANDOM_MAX`, used both as a key and as a priority.
pub fn random_10_7() -> (r: Key)
    ensures
        r <= RANDOM_MAX,
{
    uniform_up_to(RANDOM_MAX)
}

/// A random identifier among those already given out, `1..next_id`.
pub(crate) fn random_issued_id(next_id: ID) -> (r: ID)
    requires
        1 < next_id,
    ensures
        1 <= r < next_id,
{
    uniform_between(1, next_id)
}

} // verus!
