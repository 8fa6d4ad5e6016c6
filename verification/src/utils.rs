//! Random draws for population initialization, provided by the `rand`
//! crate behind trusted wrappers. Nothing can be promised of which value
//! comes back, only its range; everything the library proves holds for
//! every outcome.

use vstd::prelude::*;
use rand::Rng;

verus! {

/// Relies on `rand::Rng::gen_range` on `rand::thread_rng`: returns a
/// uniformly drawn value in `[0, max)`; panics on an empty range, so
/// `max` must be positive.
#[verifier::external_body]
pub fn rand_int(max: u32) -> (r: u32)
    requires
        max > 0,
    ensures
        r < max,
{
    rand::thread_rng().gen_range(0..max)
}

/// Relies on `rand::Rng::gen_range` on `rand::thread_rng`: returns a
/// uniformly drawn value in `[0, max)`; panics on an empty range, so
/// `max` must be positive.
#[verifier::external_body]
pub fn rand_usize(max: usize) -> (r: usize)
    requires
        max > 0,
    ensures
        r < max,
{
    rand::thread_rng().gen_range(0..max)
}

/// Relies on `rand::Rng::gen_range` on `rand::thread_rng`: returns a
/// uniformly drawn value in `[min, max)`; panics on an empty range, so
/// `min` must be below `max`.
#[verifier::external_body]
pub fn rand_intr(min: i32, max: i32) -> (r: i32)
    requires
        min < max,
    ensures
        min <= r < max,
{
    rand::thread_rng().gen_range(min..max)
}

} // verus!
