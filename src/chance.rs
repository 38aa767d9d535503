//! Random draws, in parts per million.

use vstd::prelude::*;

verus! {

/// One in a million: probabilities are parts per million of certainty.
pub const PPM: u32 = 1000000;

/// Relies on `rand::random_range`: the value drawn from the thread-local
/// generator lies in the half-open range that it is given (which must not be
/// empty).
#[verifier::external_body]
fn random_below(bound: u32) -> (r: u32)
    requires
        bound > 0,
    ensures
        r < bound,
{
    rand::random_range(0..bound)
}

/// A uniform draw in `[0, PPM)`; an event of probability `p` (in parts per
/// million) happens when the draw is below `p`.
pub fn roll() -> (r: u32)
    ensures
        r < PPM,
{
    random_below(PPM)
}

/// A uniform draw in `[-half_width, half_width)`.
pub fn roll_offset(half_width: u32) -> (r: i64)
    requires
        0 < half_width <= PPM,
    ensures
        -(half_width as int) <= r < half_width as int,
{
    let d = random_below(2 * half_width);
    d as i64 - half_width as i64
}

} // verus!
