//! The one source of randomness: the thread-local generator of `rand`.

use rand::Rng;
use vstd::prelude::*;

use crate::fixed::{Fixed, ONE_RAW};

verus! {

/// Calls `rand::Rng::gen_range` on `rand::thread_rng()` with the half-open
/// range `lo..hi` of `i64`. The range must not be empty, or `gen_range`
/// panics. Nothing is claimed of the draw but that it lies in the range:
/// two calls on the same bounds may differ. (`thread_rng` panics where the
/// random source of the operating system cannot seed the generator of the
/// thread, and the generator panics where a later reseeding from that
/// source fails; no argument can rule either out.)
#[verifier::external_body]
fn draw_raw(lo: i64, hi: i64) -> (r: i64)
    requires
        lo < hi,
    ensures
        lo <= r < hi,
{
    rand::thread_rng().gen_range(lo..hi)
}

/// A random number in `[lo, hi)`, every raw value being equally likely.
pub fn random_between(lo: Fixed, hi: Fixed) -> (r: Fixed)
    requires
        lo@ < hi@,
    ensures
        lo@ <= r@ < hi@,
{
    Fixed { raw: draw_raw(lo.raw, hi.raw) }
}

/// A random number in `[0, 1)`.
pub fn random_unit() -> (r: Fixed)
    ensures
        0 <= r@ < ONE_RAW,
{
    Fixed { raw: draw_raw(0, ONE_RAW) }
}

} // verus!
