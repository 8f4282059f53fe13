//! State shared by all entities of a world.

use vstd::prelude::*;

verus! {

/// Milliseconds between two decays of hunger.
pub const HUNGER_INTERVAL_MS: i64 = 10_000;

/// The time at which hunger decays next.
#[derive(Debug, Clone, Copy, PartialEq, Eq, Structural)]
pub struct HungerTimer(pub i64);

impl HungerTimer {
    /// At time `now` a decay is due.
    pub open spec fn due_at(&self, now: int) -> bool {
        self.0 <= now
    }

    /// Whether a decay is due at time `now`.
    pub fn is_due(&self, now: i64) -> (b: bool)
        ensures
            b == self.due_at(now as int),
    {
        self.0 <= now
    }
}

} // verus!
