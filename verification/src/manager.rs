//! The engine as the host sees it.

use vstd::prelude::*;
use crate::chunck_schemas::NavDataError;
use crate::clock::{accept, accepted, now_millis, MAX_TICK_TIME};
use crate::commands::{issued, HostCommand, HostCommandView};
use crate::components::{
    CharacterId, Cooldown, DespawnCooldown, EntityHandle, EntityKind, HungerLevel, Life, Position,
    Trap,
};
use crate::navmesh::{lz4_expanded, nav_mesh_of, NavCellView, NavMesh};
use crate::ressources::HungerTimer;
use crate::systems::common::{collected, despawn_inactive, destroy_commands, survivors};
use crate::systems::navigation::{
    follow_breadscrum, get_target_breadscrum, hunt_target_sys, navigated, update_current_cell,
    walk_commands,
};
use crate::systems::traps::{sprung, trap_commands, trap_sys};
use crate::systems::zombies::{
    attack_commands, attack_hit_sys, carnivore_eating_sys, coward_sys, eating_commands,
    engage_commands, engaged, famished, fed, fed_commands, finish_eating_sys, frights,
    hostile_to_player_sys, hunger_sys, hungry_sys, rearmed, remove_hungry_sys, resolved, sated,
    served, starved, FleeSignal,
};
use crate::world::{
    first_match, known_as, placed_at, settled, EntityRecord, EntityView, World,
};

verus! {

/// The sorts of creature the host can add.
#[derive(Debug, Clone, Copy, PartialEq, Eq, Structural)]
pub enum EntityType {
    Zombie,
    Player,
    Deer,
    Wolf,
    Bear,
    Screamer,
}

/// Figures on the state of the engine.
#[derive(Debug, Clone, Copy, PartialEq, Eq, Structural)]
pub struct Stats {
    /// The number of entities in the world.
    pub entities: u32,
}

/// What one tick asks of the host.
#[derive(Debug)]
pub struct Tick {
    /// The commands to carry out, in this order.
    pub commands: Vec<HostCommand>,
    /// The cowards that took fright, with what they fled from.
    pub fleeing: Vec<FleeSignal>,
}

/// The engine: a world, the clockwork that goes with it, and the
/// navigation mesh once one has been loaded.
pub struct AiManager {
    pub world: World,
    pub hunger_timer: HungerTimer,
    /// Whether the systems that drive creatures run at all.
    pub allow_zombies: bool,
    pub navmesh: Option<NavMesh>,
}

/// The creature of the given sort as it enters the world.
pub open spec fn newcomer(
    handle: EntityHandle,
    entity_type: EntityType,
    position: Position,
    character_id: Seq<char>,
) -> EntityView {
    let plain = |kind: EntityKind| EntityView::fresh(handle, kind, position, Some(character_id));
    match entity_type {
        EntityType::Player => plain(EntityKind::Player),
        EntityType::Zombie => EntityView {
            hostile_to_player: true,
            carnivore: true,
            hunger_level: Some(HungerLevel(0)),
            ..plain(EntityKind::Zombie)
        },
        EntityType::Screamer => EntityView { hostile_to_player: true, ..plain(EntityKind::Zombie) },
        EntityType::Wolf => EntityView { hostile_to_player: true, ..plain(EntityKind::Wolf) },
        EntityType::Bear => EntityView { hostile_to_player: true, ..plain(EntityKind::Bear) },
        EntityType::Deer => EntityView { coward: true, ..plain(EntityKind::Deer) },
    }
}

/// The trap with the given radius and timers as it enters the world at
/// time `now`. Its cooldown has never run; its despawn timer, if it has
/// one, starts at `now`.
pub open spec fn new_trap(
    handle: EntityHandle,
    position: Position,
    radius: i32,
    trigger_cooldown: i64,
    despawn_cooldown: Option<i64>,
    now: i64,
) -> EntityView {
    EntityView {
        cooldown: Some(Cooldown { last: 0, cooldown: trigger_cooldown }),
        despawn_cooldown: match despawn_cooldown {
            Some(ttl) => Some(DespawnCooldown { last_activity: now, ttl }),
            None => None,
        },
        ..EntityView::fresh(handle, EntityKind::Trap(Trap(radius)), position, None)
    }
}

/// The world when the creature systems have run at time `now`, one after
/// the other: hunger noticed, satiety noticed, hunger grown, attacks
/// started, attacks resolved, meals started, meals ended.
pub open spec fn creatures_ticked(w: Seq<EntityView>, timer: HungerTimer, now: i64) -> Seq<
    EntityView,
> {
    fed(
        served(resolved(engaged(starved(sated(famished(w)), timer, now), now), now), now),
        now,
    )
}

/// The commands that the creature systems issue at time `now`, each
/// system's after those of the systems before it.
pub open spec fn creature_commands(w: Seq<EntityView>, timer: HungerTimer, now: i64) -> Seq<
    HostCommandView,
> {
    let hungry = starved(sated(famished(w)), timer, now);
    let attacking = engaged(hungry, now);
    let struck = resolved(attacking, now);
    let eating = served(struck, now);
    collected(hungry.len() as int, engage_commands(hungry)) + collected(
        attacking.len() as int,
        attack_commands(attacking, now),
    ) + collected(struck.len() as int, eating_commands(struck)) + collected(
        eating.len() as int,
        fed_commands(eating, now),
    )
}

/// What the engine knows of the mesh it has loaded, if any.
pub open spec fn mesh_of(navmesh: Option<NavMesh>) -> Option<Seq<NavCellView>> {
    match navmesh {
        Some(mesh) => Some(mesh@),
        None => None,
    }
}

/// The world when the navigation systems have run, where a mesh is loaded.
pub open spec fn before_creatures(w: Seq<EntityView>, mesh: Option<Seq<NavCellView>>) -> Seq<
    EntityView,
> {
    match mesh {
        Some(m) => navigated(w, m),
        None => w,
    }
}

/// The world before the systems that always run take their turn: where
/// creatures are allowed, the navigation systems have run, if a mesh is
/// loaded, and then the creature systems.
pub open spec fn before_traps(
    w: Seq<EntityView>,
    timer: HungerTimer,
    allow_zombies: bool,
    mesh: Option<Seq<NavCellView>>,
    now: i64,
) -> Seq<EntityView> {
    if allow_zombies {
        creatures_ticked(before_creatures(w, mesh), timer, now)
    } else {
        w
    }
}

/// The world after one tick at time `now`: the navigation and creature
/// systems have run if they are allowed, then traps were sprung and lapsed
/// traps removed, and nobody counts as moved any more.
pub open spec fn ticked_world(
    w: Seq<EntityView>,
    timer: HungerTimer,
    allow_zombies: bool,
    mesh: Option<Seq<NavCellView>>,
    now: i64,
) -> Seq<EntityView> {
    let quiet = sprung(before_traps(w, timer, allow_zombies, mesh, now), now);
    settled(collected(quiet.len() as int, survivors(quiet, now)))
}

/// The commands of one tick at time `now`, in the order of the systems.
pub open spec fn ticked_commands(
    w: Seq<EntityView>,
    timer: HungerTimer,
    allow_zombies: bool,
    mesh: Option<Seq<NavCellView>>,
    now: i64,
) -> Seq<HostCommandView> {
    let armed = before_traps(w, timer, allow_zombies, mesh, now);
    let quiet = sprung(armed, now);
    (if allow_zombies {
        (match mesh {
            Some(m) => collected(w.len() as int, walk_commands(w, m)),
            None => Seq::empty(),
        }) + creature_commands(before_creatures(w, mesh), timer, now)
    } else {
        Seq::empty()
    }) + collected(armed.len() as int, trap_commands(armed, now)) + collected(
        quiet.len() as int,
        destroy_commands(quiet, now),
    )
}

/// The frights of one tick at time `now`: those of the cowards as the
/// creature systems leave them, or none where those systems do not run.
pub open spec fn ticked_frights(
    w: Seq<EntityView>,
    timer: HungerTimer,
    allow_zombies: bool,
    mesh: Option<Seq<NavCellView>>,
    now: i64,
) -> Seq<FleeSignal> {
    if allow_zombies {
        let calm = creatures_ticked(before_creatures(w, mesh), timer, now);
        collected(calm.len() as int, frights(calm))
    } else {
        Seq::empty()
    }
}

/// The hunger timer after one tick at time `now`.
pub open spec fn ticked_timer(timer: HungerTimer, allow_zombies: bool, now: i64) -> HungerTimer {
    if allow_zombies {
        rearmed(timer, now)
    } else {
        timer
    }
}

impl AiManager {
    /// The engine is consistent: its world is, and its mesh, if any.
    pub open spec fn wf(&self) -> bool {
        &&& self.world.wf()
        &&& self.navmesh matches Some(mesh) ==> mesh.wf()
    }

    /// `self` after a tick at time `now` that returned `tick`.
    pub open spec fn ticks_to(self, after: AiManager, tick: Tick, now: i64) -> bool {
        &&& after.world@ == ticked_world(
            self.world@,
            self.hunger_timer,
            self.allow_zombies,
            mesh_of(self.navmesh),
            now,
        )
        &&& after.world.next_id == self.world.next_id
        &&& after.hunger_timer == ticked_timer(self.hunger_timer, self.allow_zombies, now)
        &&& after.allow_zombies == self.allow_zombies
        &&& after.navmesh == self.navmesh
        &&& issued(tick.commands@) == ticked_commands(
            self.world@,
            self.hunger_timer,
            self.allow_zombies,
            mesh_of(self.navmesh),
            now,
        )
        &&& tick.fleeing@ == ticked_frights(
            self.world@,
            self.hunger_timer,
            self.allow_zombies,
            mesh_of(self.navmesh),
            now,
        )
    }

    /// `self` after a tick that returned `tick`, at some time up to
    /// [`MAX_TICK_TIME`].
    pub open spec fn ticks_once(self, after: AiManager, tick: Tick) -> bool {
        exists|now: i64| now <= MAX_TICK_TIME && #[trigger] self.ticks_to(after, tick, now)
    }

    /// An engine with an empty world and no mesh, set up at time `now`.
    /// The creature systems run only if `allow_zombies` is `Some(true)`.
    /// Hunger is due to decay at once.
    pub fn initialize_at(allow_zombies: Option<bool>, now: i64) -> (ai: AiManager)
        ensures
            ai.wf(),
            ai.world@.len() == 0,
            ai.world.next_id == 0,
            ai.hunger_timer == HungerTimer(now),
            ai.allow_zombies == (allow_zombies == Some(true)),
            ai.navmesh is None,
    {
        AiManager {
            world: World::new(),
            hunger_timer: HungerTimer(now),
            allow_zombies: match allow_zombies {
                Some(allow) => allow,
                None => false,
            },
            navmesh: None,
        }
    }

    /// An engine with an empty world and no mesh, set up at the time the
    /// clock shows.
    pub fn initialize(allow_zombies: Option<bool>) -> (ai: AiManager)
        ensures
            ai.wf(),
            ai.world@.len() == 0,
            ai.world.next_id == 0,
            ai.allow_zombies == (allow_zombies == Some(true)),
            ai.navmesh is None,
    {
        AiManager::initialize_at(allow_zombies, now_millis())
    }

    /// Figures on the state of the engine.
    pub fn get_stats(&self) -> (stats: Stats)
        requires
            self.wf(),
        ensures
            stats.entities == self.world@.len(),
    {
        Stats { entities: self.world.len() as u32 }
    }

    /// Runs one tick at time `now`. Where creatures are allowed, the
    /// navigation systems run first, if a mesh is loaded, then the creature
    /// systems, each in its order; then, always, the traps and the removal
    /// of lapsed traps. Returns what the host is to do.
    pub fn run_at(&mut self, now: i64) -> (tick: Tick)
        requires
            old(self).wf(),
            now <= MAX_TICK_TIME,
        ensures
            final(self).wf(),
            old(self).ticks_to(*final(self), tick, now),
    {
        let mut commands: Vec<HostCommand> = Vec::new();
        let mut fleeing: Vec<FleeSignal> = Vec::new();
        assert(issued(commands@) =~= Seq::<HostCommandView>::empty());
        if self.allow_zombies {
            if let Some(mesh) = &self.navmesh {
                follow_breadscrum(&mut self.world, mesh, &mut commands);
                update_current_cell(&mut self.world, mesh);
                hunt_target_sys(&mut self.world);
                get_target_breadscrum(&mut self.world, mesh);
            }
            let ghost walking = issued(commands@);
            let ghost ready = self.world@;
            hungry_sys(&mut self.world);
            remove_hungry_sys(&mut self.world);
            hunger_sys(&mut self.world, &mut self.hunger_timer, now);
            hostile_to_player_sys(&mut self.world, now, &mut commands);
            attack_hit_sys(&mut self.world, now, &mut commands);
            carnivore_eating_sys(&mut self.world, now, &mut commands);
            finish_eating_sys(&mut self.world, now, &mut commands);
            fleeing = coward_sys(&self.world);
            assert(ready == before_creatures(old(self).world@, mesh_of(old(self).navmesh)));
            assert(issued(commands@) =~= walking + creature_commands(
                ready,
                old(self).hunger_timer,
                now,
            ));
        }
        trap_sys(&mut self.world, now, &mut commands);
        despawn_inactive(&mut self.world, now, &mut commands);
        self.world.settle();
        Tick { commands, fleeing }
    }

    /// Runs one tick at the time the clock shows. Returns `None`, and
    /// leaves everything as it is, where the clock shows a time beyond
    /// [`MAX_TICK_TIME`].
    pub fn run(&mut self) -> (tick: Option<Tick>)
        requires
            old(self).wf(),
        ensures
            final(self).wf(),
            match tick {
                Some(t) => old(self).ticks_once(*final(self), t),
                None => *final(self) == *old(self),
            },
    {
        let reading = now_millis();
        let tick = self.try_run_at(reading);
        assert(tick matches Some(t) ==> reading <= MAX_TICK_TIME && old(self).ticks_to(
            *self,
            t,
            reading,
        ));
        tick
    }

    /// Runs one tick at the time that the clock reading `reading` gives.
    /// Returns `None`, and leaves everything as it is, where the reading
    /// lies beyond [`MAX_TICK_TIME`].
    pub fn try_run_at(&mut self, reading: i64) -> (tick: Option<Tick>)
        requires
            old(self).wf(),
        ensures
            final(self).wf(),
            match accepted(reading) {
                Some(now) => tick is Some && old(self).ticks_to(*final(self), tick->0, now),
                None => tick is None && *final(self) == *old(self),
            },
    {
        match accept(reading) {
            Some(now) => Some(self.run_at(now)),
            None => None,
        }
    }

    /// Tells the engine where the entity known as `entity_id` stands. The
    /// entity counts as moved if that is a new position. Returns whether
    /// there is such an entity; if not, nothing changes.
    pub fn update_pos(&mut self, entity_id: u64, position: Position) -> (found: bool)
        requires
            old(self).wf(),
        ensures
            final(self).wf(),
            final(self).world.next_id == old(self).world.next_id,
            final(self).hunger_timer == old(self).hunger_timer,
            final(self).allow_zombies == old(self).allow_zombies,
            final(self).navmesh == old(self).navmesh,
            match first_match(old(self).world@, known_as(entity_id)) {
                Some(k) => found && final(self).world@ == old(self).world@.update(
                    k,
                    placed_at(old(self).world@[k], position),
                ),
                None => !found && final(self).world@ == old(self).world@,
            },
    {
        self.world.set_position(entity_id, position)
    }

    /// Adds a creature of the given sort, alive and just placed at
    /// `position`. Returns its identifier, or `None`, with nothing
    /// changed, where the world is full.
    pub fn add_entity(
        &mut self,
        handle: EntityHandle,
        entity_type: EntityType,
        position: Position,
        character_id: CharacterId,
    ) -> (id: Option<u64>)
        requires
            old(self).wf(),
        ensures
            final(self).wf(),
            old(self).joined_by(
                *final(self),
                id,
                newcomer(handle, entity_type, position, character_id@),
            ),
    {
        let kind = match entity_type {
            EntityType::Player => EntityKind::Player,
            EntityType::Zombie => EntityKind::Zombie,
            EntityType::Screamer => EntityKind::Zombie,
            EntityType::Wolf => EntityKind::Wolf,
            EntityType::Bear => EntityKind::Bear,
            EntityType::Deer => EntityKind::Deer,
        };
        let mut record = EntityRecord::new(handle, kind, position, Some(character_id));
        match entity_type {
            EntityType::Player => {},
            EntityType::Zombie => {
                record.hostile_to_player = true;
                record.carnivore = true;
                record.hunger_level = Some(HungerLevel(0));
            },
            EntityType::Screamer => {
                record.hostile_to_player = true;
            },
            EntityType::Wolf => {
                record.hostile_to_player = true;
            },
            EntityType::Bear => {
                record.hostile_to_player = true;
            },
            EntityType::Deer => {
                record.coward = true;
            },
        }
        assert(record@ == newcomer(handle, entity_type, position, character_id@));
        self.world.spawn(record)
    }

    /// Marks the entity known as `entity_id` as dead. Returns whether there
    /// is such an entity; if not, nothing changes.
    pub fn entity_dead(&mut self, entity_id: u64) -> (found: bool)
        requires
            old(self).wf(),
        ensures
            final(self).wf(),
            final(self).world.next_id == old(self).world.next_id,
            final(self).hunger_timer == old(self).hunger_timer,
            final(self).allow_zombies == old(self).allow_zombies,
            final(self).navmesh == old(self).navmesh,
            match first_match(old(self).world@, known_as(entity_id)) {
                Some(k) => found && final(self).world@ == old(self).world@.update(
                    k,
                    EntityView { life: Life::Dead, ..old(self).world@[k] },
                ),
                None => !found && final(self).world@ == old(self).world@,
            },
    {
        self.world.set_life(entity_id, Life::Dead)
    }

    /// Marks the entity known as `entity_id` as alive. Returns whether
    /// there is such an entity; if not, nothing changes.
    pub fn entity_alive(&mut self, entity_id: u64) -> (found: bool)
        requires
            old(self).wf(),
        ensures
            final(self).wf(),
            final(self).world.next_id == old(self).world.next_id,
            final(self).hunger_timer == old(self).hunger_timer,
            final(self).allow_zombies == old(self).allow_zombies,
            final(self).navmesh == old(self).navmesh,
            match first_match(old(self).world@, known_as(entity_id)) {
                Some(k) => found && final(self).world@ == old(self).world@.update(
                    k,
                    EntityView { life: Life::Alive, ..old(self).world@[k] },
                ),
                None => !found && final(self).world@ == old(self).world@,
            },
    {
        self.world.set_life(entity_id, Life::Alive)
    }

    /// Takes the entity known as `entity_id` out of the world, with all
    /// its components. Returns whether there was such an entity; if not,
    /// nothing changes. The identifier is not given out again.
    pub fn remove_entity(&mut self, entity_id: u64) -> (removed: bool)
        requires
            old(self).wf(),
        ensures
            final(self).wf(),
            final(self).world.next_id == old(self).world.next_id,
            final(self).hunger_timer == old(self).hunger_timer,
            final(self).allow_zombies == old(self).allow_zombies,
            final(self).navmesh == old(self).navmesh,
            match first_match(old(self).world@, known_as(entity_id)) {
                Some(k) => removed && final(self).world@ == old(self).world@.remove(k),
                None => !removed && final(self).world@ == old(self).world@,
            },
            forall|k: int|
                0 <= k < final(self).world@.len() ==> (#[trigger] final(self).world@[k]).id
                    != entity_id,
    {
        self.world.despawn(entity_id)
    }

    /// Adds a trap at time `now`. It goes off within `radius`, then rests
    /// for `trigger_cooldown`; with a `despawn_cooldown` it is removed once
    /// nothing has happened to it for that long. Returns its identifier, or
    /// `None`, with nothing changed, where the world is full.
    pub fn add_trap_at(
        &mut self,
        handle: EntityHandle,
        position: Position,
        radius: i32,
        trigger_cooldown: i64,
        despawn_cooldown: Option<i64>,
        now: i64,
    ) -> (id: Option<u64>)
        requires
            old(self).wf(),
        ensures
            final(self).wf(),
            old(self).joined_by(
                *final(self),
                id,
                new_trap(handle, position, radius, trigger_cooldown, despawn_cooldown, now),
            ),
    {
        let mut record = EntityRecord::new(handle, EntityKind::Trap(Trap(radius)), position, None);
        record.cooldown = Some(Cooldown::new(trigger_cooldown));
        if let Some(ttl) = despawn_cooldown {
            record.despawn_cooldown = Some(DespawnCooldown::new(ttl, now));
        }
        self.world.spawn(record)
    }

    /// `self` after an attempt to add `entity` that returned `id`: a full
    /// world is as before; else the entity has joined it under the next
    /// identifier, which is `id`.
    pub open spec fn joined_by(self, after: AiManager, id: Option<u64>, entity: EntityView) -> bool {
        &&& after.hunger_timer == self.hunger_timer
        &&& after.allow_zombies == self.allow_zombies
        &&& after.navmesh == self.navmesh
        &&& if self.world.is_full() {
            id is None && after.world@ == self.world@ && after.world.next_id == self.world.next_id
        } else {
            id == Some(self.world.next_id) && after.world.next_id == self.world.next_id + 1
                && after.world@ == self.world@.push(EntityView { id: self.world.next_id, ..entity })
        }
    }

    /// Adds a trap at the time the clock shows.
    pub fn add_trap(
        &mut self,
        handle: EntityHandle,
        position: Position,
        radius: i32,
        trigger_cooldown: i64,
        despawn_cooldown: Option<i64>,
    ) -> (id: Option<u64>)
        requires
            old(self).wf(),
        ensures
            final(self).wf(),
            exists|now: i64| #[trigger]
                old(self).joined_by(
                    *final(self),
                    id,
                    new_trap(handle, position, radius, trigger_cooldown, despawn_cooldown, now),
                ),
    {
        let now = now_millis();
        self.add_trap_at(handle, position, radius, trigger_cooldown, despawn_cooldown, now)
    }

    /// Loads a navigation mesh from its compressed form. On failure the
    /// mesh loaded before, if any, stays in place.
    pub fn load_nav_data(&mut self, compressed: &[u8]) -> (r: Result<(), NavDataError>)
        requires
            old(self).wf(),
        ensures
            final(self).wf(),
            final(self).world == old(self).world,
            final(self).hunger_timer == old(self).hunger_timer,
            final(self).allow_zombies == old(self).allow_zombies,
            match (lz4_expanded(compressed@), r) {
                (Some(raw), Ok(_)) => final(self).navmesh matches Some(mesh) && nav_mesh_of(raw)
                    == Some(mesh@),
                (Some(raw), Err(NavDataError::Truncated)) => nav_mesh_of(raw) is None
                    && final(self).navmesh == old(self).navmesh,
                (None, Err(NavDataError::Corrupt)) => final(self).navmesh == old(self).navmesh,
                _ => false,
            },
    {
        match NavMesh::load(compressed) {
            Ok(mesh) => {
                self.navmesh = Some(mesh);
                Ok(())
            },
            Err(e) => Err(e),
        }
    }
}

} // verus!
