//! How finely a rotating component is animated.

use vstd::prelude::*;

verus! {

/// How often in a second a rotation advances.
pub const STEPS_PER_SECOND: u64 = 30;

/// How often a rotation advances in `duration` seconds: once at least.
pub open spec fn steps_in(duration: int) -> int {
    if duration * STEPS_PER_SECOND < 1 {
        1
    } else if duration * STEPS_PER_SECOND > u64::MAX {
        u64::MAX as int
    } else {
        duration * STEPS_PER_SECOND
    }
}

/// The number of steps in which a component turns once in `duration` seconds.
///
/// Some thirty steps a second look smooth for something the size of an icon, and
/// spare a redraw of the whole window at every frame.
pub fn rotation_steps(duration: u64) -> (steps: usize)
    ensures
        steps == steps_in(duration as int) as usize,
        steps_in(duration as int) <= usize::MAX ==> steps == steps_in(duration as int),
{
    let steps: u64 = match duration.checked_mul(STEPS_PER_SECOND) {
        Some(0) => 1,
        Some(steps) => steps,
        None => u64::MAX,
    };
    #[verifier::truncate]
    (steps as usize)
}

} // verus!
