//! Component data attached to world entities.
//!
//! All lengths and coordinates are fixed-point integers: one world unit is
//! [`UNIT`] steps, so a radius of one and a half units is `1500`. All
//! timestamps and durations are milliseconds.

use vstd::prelude::*;

verus! {

/// Number of fixed-point steps in one world unit.
pub const UNIT: i32 = 1000;

/// Hunger level of an entity that has just eaten.
pub const HUNGER_FULL: u8 = 100;

/// An entity whose hunger level is below this becomes hungry.
pub const HUNGRY_BELOW: u8 = 10;

/// An entity whose hunger level is above this stops being hungry.
pub const FED_ABOVE: u8 = 50;

/// A point of the world, in fixed-point steps.
#[derive(Debug, Clone, Copy, PartialEq, Eq, Structural)]
pub struct Position {
    pub x: i32,
    pub y: i32,
    pub z: i32,
}

/// The square proximity test: `b` lies within `radius` of `a` on the x axis
/// and on the z axis. Height is ignored, and the region is a square, not a
/// disc: corners reach further than `radius`.
pub open spec fn in_radius(radius: int, a: Position, b: Position) -> bool {
    &&& a.x - radius <= b.x <= a.x + radius
    &&& a.z - radius <= b.z <= a.z + radius
}

/// The squared straight-line distance between two points.
pub open spec fn distance_squared(a: Position, b: Position) -> int {
    (a.x - b.x) * (a.x - b.x) + (a.y - b.y) * (a.y - b.y) + (a.z - b.z) * (a.z - b.z)
}

/// `r` is the square root of `n`, rounded down.
pub open spec fn is_floor_sqrt(r: int, n: int) -> bool {
    0 <= r && r * r <= n < (r + 1) * (r + 1)
}

/// The square root of `n`, rounded down.
pub open spec fn floor_sqrt(n: int) -> int {
    choose|r: int| is_floor_sqrt(r, n)
}

/// The straight-line distance between two points, rounded down to a whole step.
pub open spec fn distance(a: Position, b: Position) -> int {
    floor_sqrt(distance_squared(a, b))
}

/// A number has at most one rounded-down square root.
pub proof fn lemma_floor_sqrt_unique(r1: int, r2: int, n: int)
    requires
        is_floor_sqrt(r1, n),
        is_floor_sqrt(r2, n),
    ensures
        r1 == r2,
{
    if r1 < r2 {
        assert((r1 + 1) * (r1 + 1) <= r2 * r2) by (nonlinear_arith)
            requires
                0 <= r1,
                r1 + 1 <= r2,
        ;
    } else if r2 < r1 {
        assert((r2 + 1) * (r2 + 1) <= r1 * r1) by (nonlinear_arith)
            requires
                0 <= r2,
                r2 + 1 <= r1,
        ;
    }
}

/// Swapping the two points does not change the proximity test.
pub proof fn lemma_in_radius_symmetric(radius: int, a: Position, b: Position)
    requires
        radius >= 0,
    ensures
        in_radius(radius, a, b) == in_radius(radius, b, a),
{
}

/// Exchanging the x and z axes of both points does not change the proximity
/// test.
pub proof fn lemma_in_radius_axes_interchangeable(radius: int, a: Position, b: Position)
    requires
        radius >= 0,
    ensures
        in_radius(radius, a, b) == in_radius(
            radius,
            Position { x: a.z, y: a.y, z: a.x },
            Position { x: b.z, y: b.y, z: b.x },
        ),
{
}

/// The heights of the two points do not enter the proximity test.
pub proof fn lemma_in_radius_ignores_height(
    radius: int,
    a: Position,
    b: Position,
    height_a: i32,
    height_b: i32,
)
    requires
        radius >= 0,
    ensures
        in_radius(radius, a, b) == in_radius(
            radius,
            Position { x: a.x, y: height_a, z: a.z },
            Position { x: b.x, y: height_b, z: b.z },
        ),
{
}

/// The square root of `n`, rounded down, for `n` below 2^68.
fn isqrt(n: u128) -> (r: u64)
    requires
        n < 0x10_0000_0000_0000_0000,
    ensures
        is_floor_sqrt(r as int, n as int),
        r < 0x4_0000_0000,
{
    let mut lo: u128 = 0;
    let mut hi: u128 = 0x4_0000_0000;
    assert(0x4_0000_0000int * 0x4_0000_0000int == 0x10_0000_0000_0000_0000int) by (nonlinear_arith);
    while hi - lo > 1
        invariant
            lo < hi <= 0x4_0000_0000,
            lo * lo <= n < hi * hi,
        decreases hi - lo,
    {
        let mid: u128 = lo + (hi - lo) / 2;
        assert(mid * mid <= 0x4_0000_0000int * 0x4_0000_0000int) by (nonlinear_arith)
            requires
                0 <= mid <= 0x4_0000_0000,
        ;
        if mid * mid <= n {
            lo = mid;
        } else {
            hi = mid;
        }
    }
    lo as u64
}

impl Position {
    /// The straight-line distance from `self` to `other`, rounded down to a
    /// whole step.
    pub fn distance(&self, other: &Position) -> (d: u64)
        ensures
            d == distance(*self, *other),
            is_floor_sqrt(d as int, distance_squared(*self, *other)),
            d < 0x4_0000_0000,
    {
        let dx: i128 = self.x as i128 - other.x as i128;
        let dy: i128 = self.y as i128 - other.y as i128;
        let dz: i128 = self.z as i128 - other.z as i128;
        assert(0 <= dx * dx <= 0x1_0000_0000int * 0x1_0000_0000int) by (nonlinear_arith)
            requires
                -0x1_0000_0000 < dx < 0x1_0000_0000,
        ;
        assert(0 <= dy * dy <= 0x1_0000_0000int * 0x1_0000_0000int) by (nonlinear_arith)
            requires
                -0x1_0000_0000 < dy < 0x1_0000_0000,
        ;
        assert(0 <= dz * dz <= 0x1_0000_0000int * 0x1_0000_0000int) by (nonlinear_arith)
            requires
                -0x1_0000_0000 < dz < 0x1_0000_0000,
        ;
        assert(0x1_0000_0000int * 0x1_0000_0000int == 0x1_0000_0000_0000_0000int)
            by (nonlinear_arith);
        let sum: i128 = dx * dx + dy * dy + dz * dz;
        let d = isqrt(sum as u128);
        proof {
            lemma_floor_sqrt_unique(
                d as int,
                floor_sqrt(distance_squared(*self, *other)),
                distance_squared(*self, *other),
            );
        }
        d
    }
}

/// The token by which the host names one of its entities. The engine never
/// looks inside it; it only hands it back in the commands it issues.
#[derive(Debug, Clone, Copy, PartialEq, Eq, Structural)]
pub struct EntityHandle(pub u64);

/// The host's character identifier of an entity.
#[derive(Debug, Clone)]
pub struct CharacterId(pub String);

impl View for CharacterId {
    type V = Seq<char>;

    open spec fn view(&self) -> Seq<char> {
        self.0@
    }
}

impl CharacterId {
    /// A copy of this identifier.
    pub fn duplicate(&self) -> (copy: CharacterId)
        ensures
            copy@ == self@,
    {
        CharacterId(self.0.clone())
    }
}

/// A trap, with the radius within which it goes off.
#[derive(Debug, Clone, Copy, PartialEq, Eq, Structural)]
pub struct Trap(pub i32);

/// What an entity is.
#[derive(Debug, Clone, Copy, PartialEq, Eq, Structural)]
pub enum EntityKind {
    Player,
    Zombie,
    Wolf,
    Bear,
    Deer,
    Trap(Trap),
}

/// Whether an entity lives. Every entity is in exactly one of the two states.
#[derive(Debug, Clone, Copy, PartialEq, Eq, Structural)]
pub enum Life {
    Alive,
    Dead,
}

/// An attack in flight: the entity aimed at, and the time of impact.
#[derive(Debug, Clone, Copy, PartialEq, Eq, Structural)]
pub struct IsAttacking {
    pub target: u64,
    pub time_to_hit: i64,
}

/// A meal in progress, with the time it began.
#[derive(Debug, Clone, Copy, PartialEq, Eq, Structural)]
pub struct Eating {
    pub time: i64,
}

/// How well fed an entity is, from 0 (starving) to [`HUNGER_FULL`].
#[derive(Debug, Clone, Copy, PartialEq, Eq, Structural)]
pub struct HungerLevel(pub u8);

/// The hunger level that follows `level` after one decay interval.
pub open spec fn decayed(level: int) -> int {
    if level > 0 {
        level - 1
    } else {
        0
    }
}

/// The hunger level that follows `level` after `intervals` decay intervals
/// without a meal.
pub open spec fn decayed_by(level: int, intervals: nat) -> int
    decreases intervals,
{
    if intervals == 0 {
        level
    } else {
        decayed(decayed_by(level, (intervals - 1) as nat))
    }
}

/// After any number of decay intervals a non-negative hunger level has
/// dropped by one per interval, and stops at zero.
pub proof fn lemma_decay_reaches(level: int, intervals: nat)
    requires
        level >= 0,
    ensures
        decayed_by(level, intervals) == if level >= intervals {
            level - intervals
        } else {
            0
        },
    decreases intervals,
{
    if intervals > 0 {
        lemma_decay_reaches(level, (intervals - 1) as nat);
    }
}

/// Starting from a full stomach, after `intervals >= 1` decay intervals
/// without a meal the hunger level is `max(0, 100 - intervals)`; it never
/// goes below zero.
pub proof fn lemma_hunger_decay_from_full(intervals: nat)
    requires
        intervals >= 1,
    ensures
        decayed_by(HUNGER_FULL as int, intervals) == vstd::math::max(0, 100 - intervals),
        decayed_by(HUNGER_FULL as int, intervals) >= 0,
{
    lemma_decay_reaches(HUNGER_FULL as int, intervals);
}

impl HungerLevel {
    /// The level lies between 0 and [`HUNGER_FULL`].
    pub open spec fn wf(&self) -> bool {
        self.0 <= HUNGER_FULL
    }

    /// A hunger level of `level`, lowered to [`HUNGER_FULL`] where it exceeds it.
    pub fn new(level: u8) -> (h: HungerLevel)
        ensures
            h.wf(),
            h.0 == vstd::math::min(level as int, HUNGER_FULL as int),
    {
        if level > HUNGER_FULL {
            HungerLevel(HUNGER_FULL)
        } else {
            HungerLevel(level)
        }
    }

    /// The level one decay interval later.
    pub fn decay(&self) -> (h: HungerLevel)
        ensures
            h.0 == decayed(self.0 as int),
            self.wf() ==> h.wf(),
    {
        if self.0 > 0 {
            HungerLevel(self.0 - 1)
        } else {
            HungerLevel(0)
        }
    }
}

/// A rate limit: after `last`, nothing happens for `cooldown` milliseconds.
#[derive(Debug, Clone, Copy, PartialEq, Eq, Structural)]
pub struct Cooldown {
    pub last: i64,
    pub cooldown: i64,
}

impl Cooldown {
    /// At time `now` the period that began at `last` is still running.
    pub open spec fn in_cooldown_at(&self, now: int) -> bool {
        now < self.last + self.cooldown
    }

    /// A cooldown of the given period that has never been triggered.
    pub fn new(cooldown: i64) -> (c: Cooldown)
        ensures
            c == (Cooldown { last: 0, cooldown }),
    {
        Cooldown { last: 0, cooldown }
    }

    /// Whether the period is still running at time `now`.
    pub fn is_in_cooldown(&self, now: i64) -> (b: bool)
        ensures
            b == self.in_cooldown_at(now as int),
    {
        (now as i128) < self.last as i128 + self.cooldown as i128
    }
}

/// A lifetime that ends when nothing has happened for `ttl` milliseconds.
#[derive(Debug, Clone, Copy, PartialEq, Eq, Structural)]
pub struct DespawnCooldown {
    pub last_activity: i64,
    pub ttl: i64,
}

impl DespawnCooldown {
    /// At time `now` more than `ttl` has passed since the last activity.
    pub open spec fn expired_at(&self, now: int) -> bool {
        now - self.last_activity > self.ttl
    }

    /// A timer of lifetime `ttl` whose last activity is `now`.
    pub fn new(ttl: i64, now: i64) -> (d: DespawnCooldown)
        ensures
            d == (DespawnCooldown { last_activity: now, ttl }),
    {
        DespawnCooldown { last_activity: now, ttl }
    }

    /// Whether the lifetime has run out at time `now`.
    pub fn has_expired(&self, now: i64) -> (b: bool)
        ensures
            b == self.expired_at(now as int),
    {
        now as i128 - self.last_activity as i128 > self.ttl as i128
    }

    /// Records activity at time `now`, which starts the lifetime afresh.
    pub fn register_activity(&mut self, now: i64)
        ensures
            *final(self) == (DespawnCooldown { last_activity: now, ttl: old(self).ttl }),
    {
        self.last_activity = now;
    }
}

} // verus!
