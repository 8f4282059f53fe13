//! The wall clock.

use vstd::prelude::*;

verus! {

/// Latest tick time the engine accepts: later, the deadlines it computes
/// would no longer fit a timestamp.
pub const MAX_TICK_TIME: i64 = 0x7FFF_FFFF_FFFF_0000;

/// Reads the wall clock through `chrono::Utc::now().timestamp_millis()`:
/// milliseconds since the Unix epoch. Nothing is claimed of the value read:
/// two readings may differ in either direction. `chrono` panics where the
/// system clock stands before the epoch.
#[verifier::external_body]
pub(crate) fn now_millis() -> (now: i64) {
    chrono::Utc::now().timestamp_millis()
}

/// The wall clock in milliseconds since the Unix epoch, or `None` where the
/// reading lies beyond [`MAX_TICK_TIME`].
pub fn tick_time() -> (now: Option<i64>)
    ensures
        now matches Some(t) ==> t <= MAX_TICK_TIME,
{
    accept(now_millis())
}

/// What a clock reading is worth as a tick time: itself, up to
/// [`MAX_TICK_TIME`]; beyond that, nothing.
pub open spec fn accepted(reading: i64) -> Option<i64> {
    if reading <= MAX_TICK_TIME {
        Some(reading)
    } else {
        None
    }
}

/// The tick time that a clock reading gives, if it gives one.
pub fn accept(reading: i64) -> (now: Option<i64>)
    ensures
        now == accepted(reading),
{
    if reading <= MAX_TICK_TIME {
        Some(reading)
    } else {
        None
    }
}

} // verus!
