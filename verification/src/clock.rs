//! Instants in milliseconds and in whole seconds.

use vstd::prelude::*;

verus! {

/// The whole second in which an instant given in milliseconds falls: the
/// quotient rounded down, also for instants before the epoch.
pub open spec fn second_of(millis: int) -> int {
    millis / 1000
}

/// Rounds an instant in milliseconds down to whole seconds.
pub fn whole_seconds(millis: i64) -> (seconds: i64)
    ensures
        seconds == second_of(millis as int),
{
    millis.checked_div_euclid(1000).unwrap()
}

} // verus!
