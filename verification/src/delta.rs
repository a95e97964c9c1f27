//! Signed-magnitude deltas between consecutive quantized codes.
//!
//! A delta is the distance between two codes, doubled, with the direction in
//! the lowest bit: clear when the code grew, set when it fell or stayed. A
//! delta of no movement is therefore `1`, never `0`.

use vstd::prelude::*;

verus! {

/// The delta that leads from `before` to `after`.
pub open spec fn spec_difference(before: u64, after: u64) -> int {
    if after > before {
        2 * (after - before)
    } else {
        2 * (before - after) + 1
    }
}

/// The code reached from `current` by `delta`.
pub open spec fn spec_apply_delta(current: int, delta: u64) -> int {
    if delta % 2 == 0 {
        current + delta / 2
    } else {
        current - delta / 2
    }
}

/// Encodes the step from `before` to `after`.
pub fn calculate_difference(before: u64, after: u64) -> (delta: u64)
    requires
        spec_difference(before, after) <= u64::MAX,
    ensures
        delta == spec_difference(before, after),
{
    let (direction, magnitude): (u64, u64) = if after > before {
        (0, after - before)
    } else {
        (1, before - after)
    };
    assert(((magnitude << 1) | direction) == 2 * magnitude + direction) by (bit_vector)
        requires
            magnitude < 0x8000_0000_0000_0000,
            direction <= 1,
    ;
    (magnitude << 1) | direction
}

/// Moves `current` by the encoded `delta`.
pub fn apply_delta(current: u64, delta: u64) -> (next: u64)
    requires
        0 <= spec_apply_delta(current as int, delta) <= u64::MAX,
    ensures
        next == spec_apply_delta(current as int, delta),
{
    assert(delta & 1 == delta % 2 && delta >> 1 == delta / 2) by (bit_vector);
    let is_positive = (delta & 1) == 0;
    let magnitude = delta >> 1;
    if is_positive {
        current + magnitude
    } else {
        current - magnitude
    }
}

/// Applying the delta between two codes to the first code gives the second.
pub proof fn lemma_difference_then_apply(before: u64, after: u64)
    requires
        spec_difference(before, after) <= u64::MAX,
    ensures
        spec_apply_delta(before as int, spec_difference(before, after) as u64) == after,
{
}

} // verus!
