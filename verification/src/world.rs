//! The entity/component world: one record per entity, in spawn order.

use vstd::prelude::*;
use crate::components::{
    in_radius, CharacterId, Cooldown, DespawnCooldown, Eating, EntityHandle, EntityKind,
    HungerLevel, IsAttacking, Life, Position, HUNGER_FULL,
};

verus! {

/// Most entities a world holds at one time.
pub const MAX_ENTITIES: usize = 0xFFFF_FFFF;

/// The polygons an entity still has to walk through, next one first.
#[derive(Debug, Clone)]
pub struct BreadScrumPath(pub Vec<usize>);

impl View for BreadScrumPath {
    type V = Seq<usize>;

    open spec fn view(&self) -> Seq<usize> {
        self.0@
    }
}

/// All that the world knows of one entity.
#[derive(Debug)]
pub struct EntityRecord {
    /// The identifier under which the world knows the entity.
    pub id: u64,
    /// The host's name for the entity.
    pub handle: EntityHandle,
    pub kind: EntityKind,
    pub position: Position,
    /// The position has changed since the last tick ended.
    pub moved: bool,
    pub character_id: Option<CharacterId>,
    pub life: Life,
    pub hostile_to_player: bool,
    pub coward: bool,
    pub carnivore: bool,
    pub hungry: bool,
    pub hunger_level: Option<HungerLevel>,
    pub is_attacking: Option<IsAttacking>,
    pub eating: Option<Eating>,
    pub cooldown: Option<Cooldown>,
    pub despawn_cooldown: Option<DespawnCooldown>,
    /// Index of the navigation cell the entity stands in.
    pub current_cell: Option<usize>,
    /// The point the entity hunts towards.
    pub target: Option<Position>,
    pub path: Option<BreadScrumPath>,
}

/// The mathematical content of an [`EntityRecord`].
pub struct EntityView {
    pub id: u64,
    pub handle: EntityHandle,
    pub kind: EntityKind,
    pub position: Position,
    pub moved: bool,
    pub character_id: Option<Seq<char>>,
    pub life: Life,
    pub hostile_to_player: bool,
    pub coward: bool,
    pub carnivore: bool,
    pub hungry: bool,
    pub hunger_level: Option<HungerLevel>,
    pub is_attacking: Option<IsAttacking>,
    pub eating: Option<Eating>,
    pub cooldown: Option<Cooldown>,
    pub despawn_cooldown: Option<DespawnCooldown>,
    pub current_cell: Option<usize>,
    pub target: Option<Position>,
    pub path: Option<Seq<usize>>,
}

impl View for EntityRecord {
    type V = EntityView;

    open spec fn view(&self) -> EntityView {
        EntityView {
            id: self.id,
            handle: self.handle,
            kind: self.kind,
            position: self.position,
            moved: self.moved,
            character_id: match self.character_id {
                Some(c) => Some(c@),
                None => None,
            },
            life: self.life,
            hostile_to_player: self.hostile_to_player,
            coward: self.coward,
            carnivore: self.carnivore,
            hungry: self.hungry,
            hunger_level: self.hunger_level,
            is_attacking: self.is_attacking,
            eating: self.eating,
            cooldown: self.cooldown,
            despawn_cooldown: self.despawn_cooldown,
            current_cell: self.current_cell,
            target: self.target,
            path: match self.path {
                Some(p) => Some(p@),
                None => None,
            },
        }
    }
}

impl EntityView {
    /// The entity as it is when it enters the world: alive, just placed, and
    /// with no component beyond those every entity has.
    pub open spec fn fresh(
        handle: EntityHandle,
        kind: EntityKind,
        position: Position,
        character_id: Option<Seq<char>>,
    ) -> EntityView {
        EntityView {
            id: 0,
            handle,
            kind,
            position,
            moved: true,
            character_id,
            life: Life::Alive,
            hostile_to_player: false,
            coward: false,
            carnivore: false,
            hungry: false,
            hunger_level: None,
            is_attacking: None,
            eating: None,
            cooldown: None,
            despawn_cooldown: None,
            current_cell: None,
            target: None,
            path: None,
        }
    }

    /// The hunger level, where there is one, is in range.
    pub open spec fn wf(self) -> bool {
        self.hunger_level matches Some(h) ==> h.0 <= HUNGER_FULL
    }
}

impl EntityRecord {
    /// A record for an entity about to enter the world.
    pub fn new(
        handle: EntityHandle,
        kind: EntityKind,
        position: Position,
        character_id: Option<CharacterId>,
    ) -> (record: EntityRecord)
        ensures
            record@ == EntityView::fresh(
                handle,
                kind,
                position,
                match character_id {
                    Some(c) => Some(c@),
                    None => None,
                },
            ),
    {
        EntityRecord {
            id: 0,
            handle,
            kind,
            position,
            moved: true,
            character_id,
            life: Life::Alive,
            hostile_to_player: false,
            coward: false,
            carnivore: false,
            hungry: false,
            hunger_level: None,
            is_attacking: None,
            eating: None,
            cooldown: None,
            despawn_cooldown: None,
            current_cell: None,
            target: None,
            path: None,
        }
    }
}

/// What a filter asks of one tag or component.
#[derive(Debug, Clone, Copy, PartialEq, Eq, Structural)]
pub enum Presence {
    /// Nothing.
    Any,
    /// That the entity has it.
    With,
    /// That the entity lacks it.
    Without,
}

impl Presence {
    /// The demand is met by an entity on which the tag is present or not.
    pub open spec fn holds(self, present: bool) -> bool {
        match self {
            Presence::Any => true,
            Presence::With => present,
            Presence::Without => !present,
        }
    }

    /// Whether the demand is met.
    pub fn check(&self, present: bool) -> (b: bool)
        ensures
            b == self.holds(present),
    {
        match self {
            Presence::Any => true,
            Presence::With => present,
            Presence::Without => !present,
        }
    }
}

/// A conjunction of demands, one per tag and component.
#[derive(Debug, Clone, Copy, PartialEq, Eq, Structural)]
pub struct Filter {
    pub player: Presence,
    pub zombie: Presence,
    pub wolf: Presence,
    pub bear: Presence,
    pub deer: Presence,
    pub trap: Presence,
    pub hostile_to_player: Presence,
    pub coward: Presence,
    pub carnivore: Presence,
    pub alive: Presence,
    pub dead: Presence,
    pub hungry: Presence,
    pub hunger_level: Presence,
    pub is_attacking: Presence,
    pub eating: Presence,
    pub cooldown: Presence,
    pub despawn_cooldown: Presence,
    pub character_id: Presence,
    pub moved: Presence,
    pub current_cell: Presence,
    pub target: Presence,
    pub path: Presence,
}

impl Filter {
    /// The filter that asks nothing.
    pub open spec fn spec_any() -> Filter {
        Filter {
            player: Presence::Any,
            zombie: Presence::Any,
            wolf: Presence::Any,
            bear: Presence::Any,
            deer: Presence::Any,
            trap: Presence::Any,
            hostile_to_player: Presence::Any,
            coward: Presence::Any,
            carnivore: Presence::Any,
            alive: Presence::Any,
            dead: Presence::Any,
            hungry: Presence::Any,
            hunger_level: Presence::Any,
            is_attacking: Presence::Any,
            eating: Presence::Any,
            cooldown: Presence::Any,
            despawn_cooldown: Presence::Any,
            character_id: Presence::Any,
            moved: Presence::Any,
            current_cell: Presence::Any,
            target: Presence::Any,
            path: Presence::Any,
        }
    }

    /// The filter that asks nothing.
    #[verifier::when_used_as_spec(spec_any)]
    pub fn any() -> (f: Filter)
        ensures
            f == Filter::spec_any(),
    {
        Filter {
            player: Presence::Any,
            zombie: Presence::Any,
            wolf: Presence::Any,
            bear: Presence::Any,
            deer: Presence::Any,
            trap: Presence::Any,
            hostile_to_player: Presence::Any,
            coward: Presence::Any,
            carnivore: Presence::Any,
            alive: Presence::Any,
            dead: Presence::Any,
            hungry: Presence::Any,
            hunger_level: Presence::Any,
            is_attacking: Presence::Any,
            eating: Presence::Any,
            cooldown: Presence::Any,
            despawn_cooldown: Presence::Any,
            character_id: Presence::Any,
            moved: Presence::Any,
            current_cell: Presence::Any,
            target: Presence::Any,
            path: Presence::Any,
        }
    }

    /// The demands on what the entity is are met.
    pub open spec fn admits_kind(self, kind: EntityKind) -> bool {
        &&& self.player.holds(kind is Player)
        &&& self.zombie.holds(kind is Zombie)
        &&& self.wolf.holds(kind is Wolf)
        &&& self.bear.holds(kind is Bear)
        &&& self.deer.holds(kind is Deer)
        &&& self.trap.holds(kind is Trap)
    }

    /// The demands on the entity's tags are met.
    pub open spec fn admits_tags(self, e: EntityView) -> bool {
        &&& self.hostile_to_player.holds(e.hostile_to_player)
        &&& self.coward.holds(e.coward)
        &&& self.carnivore.holds(e.carnivore)
        &&& self.alive.holds(e.life is Alive)
        &&& self.dead.holds(e.life is Dead)
        &&& self.hungry.holds(e.hungry)
        &&& self.moved.holds(e.moved)
    }

    /// The demands on the entity's components are met.
    pub open spec fn admits_components(self, e: EntityView) -> bool {
        &&& self.hunger_level.holds(e.hunger_level is Some)
        &&& self.is_attacking.holds(e.is_attacking is Some)
        &&& self.eating.holds(e.eating is Some)
        &&& self.cooldown.holds(e.cooldown is Some)
        &&& self.despawn_cooldown.holds(e.despawn_cooldown is Some)
        &&& self.character_id.holds(e.character_id is Some)
        &&& self.current_cell.holds(e.current_cell is Some)
        &&& self.target.holds(e.target is Some)
        &&& self.path.holds(e.path is Some)
    }

    /// Every demand of the filter is met by the entity.
    pub open spec fn admits(self, e: EntityView) -> bool {
        &&& self.admits_kind(e.kind)
        &&& self.admits_tags(e)
        &&& self.admits_components(e)
    }

    fn kind_admitted(&self, kind: &EntityKind) -> (b: bool)
        ensures
            b == self.admits_kind(*kind),
    {
        let player = self.player.check(matches!(kind, EntityKind::Player));
        let zombie = self.zombie.check(matches!(kind, EntityKind::Zombie));
        let wolf = self.wolf.check(matches!(kind, EntityKind::Wolf));
        let bear = self.bear.check(matches!(kind, EntityKind::Bear));
        let deer = self.deer.check(matches!(kind, EntityKind::Deer));
        let trap = self.trap.check(matches!(kind, EntityKind::Trap(_)));
        player && zombie && wolf && bear && deer && trap
    }

    fn tags_admitted(&self, e: &EntityRecord) -> (b: bool)
        ensures
            b == self.admits_tags(e@),
    {
        let hostile = self.hostile_to_player.check(e.hostile_to_player);
        let coward = self.coward.check(e.coward);
        let carnivore = self.carnivore.check(e.carnivore);
        let alive = self.alive.check(matches!(e.life, Life::Alive));
        let dead = self.dead.check(matches!(e.life, Life::Dead));
        let hungry = self.hungry.check(e.hungry);
        let moved = self.moved.check(e.moved);
        hostile && coward && carnivore && alive && dead && hungry && moved
    }

    fn components_admitted(&self, e: &EntityRecord) -> (b: bool)
        ensures
            b == self.admits_components(e@),
    {
        let hunger = self.hunger_level.check(e.hunger_level.is_some());
        let attacking = self.is_attacking.check(e.is_attacking.is_some());
        let eating = self.eating.check(e.eating.is_some());
        let cooldown = self.cooldown.check(e.cooldown.is_some());
        let despawn = self.despawn_cooldown.check(e.despawn_cooldown.is_some());
        let character = self.character_id.check(e.character_id.is_some());
        let cell = self.current_cell.check(e.current_cell.is_some());
        let target = self.target.check(e.target.is_some());
        let path = self.path.check(e.path.is_some());
        hunger && attacking && eating && cooldown && despawn && character && cell && target && path
    }

    /// Whether every demand of the filter is met by the entity.
    pub fn matches(&self, e: &EntityRecord) -> (b: bool)
        ensures
            b == self.admits(e@),
    {
        let kind = self.kind_admitted(&e.kind);
        let tags = self.tags_admitted(e);
        let parts = self.components_admitted(e);
        kind && tags && parts
    }
}

/// `at` is the first place of `w`, if any, whose item meets `wanted`.
pub open spec fn is_first_match<T>(w: Seq<T>, wanted: spec_fn(T) -> bool, at: Option<int>) -> bool {
    match at {
        Some(k) => {
            &&& 0 <= k < w.len()
            &&& wanted(w[k])
            &&& forall|j: int| 0 <= j < k ==> !wanted(#[trigger] w[j])
        },
        None => forall|j: int| 0 <= j < w.len() ==> !wanted(#[trigger] w[j]),
    }
}

/// The first place of `w` whose item meets `wanted`.
pub open spec fn first_match<T>(w: Seq<T>, wanted: spec_fn(T) -> bool) -> Option<int> {
    if exists|k: int| is_first_match(w, wanted, Some(k)) {
        Some(choose|k: int| is_first_match(w, wanted, Some(k)))
    } else {
        None
    }
}

/// There is exactly one answer to "which is the first match": the one that
/// [`first_match`] gives.
pub proof fn lemma_first_match<T>(w: Seq<T>, wanted: spec_fn(T) -> bool, at: Option<int>)
    requires
        is_first_match(w, wanted, at),
    ensures
        first_match(w, wanted) == at,
{
    match at {
        Some(k) => {
            let c = choose|c: int| is_first_match(w, wanted, Some(c));
            assert(is_first_match(w, wanted, Some(c)));
            if c < k {
                assert(!wanted(w[c]));
            } else if k < c {
                assert(!wanted(w[k]));
            }
        },
        None => {
            if exists|k: int| is_first_match(w, wanted, Some(k)) {
                let c = choose|c: int| is_first_match(w, wanted, Some(c));
                assert(!wanted(w[c]));
            }
        },
    }
}

/// Two sequences whose items meet `wanted` at the same places have the same
/// first match.
pub proof fn lemma_first_match_agrees<T>(
    w1: Seq<T>,
    w2: Seq<T>,
    wanted: spec_fn(T) -> bool,
    at: Option<int>,
)
    requires
        w1.len() == w2.len(),
        forall|j: int| 0 <= j < w1.len() ==> wanted(#[trigger] w1[j]) == wanted(w2[j]),
        is_first_match(w1, wanted, at),
    ensures
        first_match(w2, wanted) == at,
{
    match at {
        Some(k) => {
            assert(wanted(w1[k]));
            assert forall|j: int| 0 <= j < k implies !wanted(#[trigger] w2[j]) by {
                assert(!wanted(w1[j]));
            }
        },
        None => {
            assert forall|j: int| 0 <= j < w2.len() implies !wanted(#[trigger] w2[j]) by {
                assert(!wanted(w1[j]));
            }
        },
    }
    lemma_first_match(w2, wanted, at);
}

/// The entities that meet `filter` and stand within `radius` of `center`.
pub open spec fn near(filter: Filter, center: Position, radius: int) -> spec_fn(EntityView) -> bool {
    |e: EntityView| filter.admits(e) && in_radius(radius, e.position, center)
}

/// The entity known as `id`.
pub open spec fn known_as(id: u64) -> spec_fn(EntityView) -> bool {
    |e: EntityView| e.id == id
}

/// The world: its entities in spawn order, and the identifier the next
/// entity will get.
pub struct World {
    pub entities: Vec<EntityRecord>,
    pub next_id: u64,
}

/// The identifiers of `w` grow from each entity to the next, and stay below
/// `next_id`: no identifier occurs twice, none is given out again.
pub open spec fn ids_ascend(w: Seq<EntityView>, next_id: u64) -> bool {
    &&& forall|i: int, j: int| 0 <= i < j < w.len() ==> (#[trigger] w[i]).id < (#[trigger] w[j]).id
    &&& forall|i: int| 0 <= i < w.len() ==> (#[trigger] w[i]).id < next_id
}

impl View for World {
    type V = Seq<EntityView>;

    open spec fn view(&self) -> Seq<EntityView> {
        Seq::new(self.entities@.len(), |i: int| self.entities@[i]@)
    }
}

impl World {
    /// The world is consistent: identifiers are unique and never reused,
    /// every entity is well formed, and the world is not over its capacity.
    pub open spec fn wf(&self) -> bool {
        &&& ids_ascend(self@, self.next_id)
        &&& forall|i: int| 0 <= i < self@.len() ==> (#[trigger] self@[i]).wf()
        &&& self@.len() <= MAX_ENTITIES
    }

    /// No entity can be added: the world is at capacity, or the identifiers
    /// have run out.
    pub open spec fn is_full(&self) -> bool {
        self@.len() >= MAX_ENTITIES || self.next_id == u64::MAX
    }

    /// An empty world.
    pub fn new() -> (world: World)
        ensures
            world.wf(),
            world@.len() == 0,
            world.next_id == 0,
    {
        World { entities: Vec::new(), next_id: 0 }
    }

    /// The number of entities.
    pub fn len(&self) -> (n: usize)
        ensures
            n == self@.len(),
    {
        self.entities.len()
    }

    /// Adds an entity. It gets the next identifier, which is returned;
    /// whatever `record.id` held is ignored. A full world stays as it is.
    pub fn spawn(&mut self, record: EntityRecord) -> (id: Option<u64>)
        requires
            old(self).wf(),
            record@.wf(),
        ensures
            final(self).wf(),
            old(self).is_full() ==> id is None && final(self)@ == old(self)@ && final(self).next_id
                == old(self).next_id,
            !old(self).is_full() ==> id == Some(old(self).next_id) && final(self).next_id == old(
                self,
            ).next_id + 1 && final(self)@ == old(self)@.push(
                EntityView { id: old(self).next_id, ..record@ },
            ),
    {
        if self.entities.len() >= MAX_ENTITIES || self.next_id == u64::MAX {
            return None;
        }
        let id = self.next_id;
        let mut record = record;
        record.id = id;
        self.entities.push(record);
        self.next_id = id + 1;
        assert(self@ =~= old(self)@.push(EntityView { id, ..record@ }));
        assert forall|i: int, j: int| 0 <= i < j < self@.len() implies (#[trigger] self@[i]).id < (
        #[trigger] self@[j]).id by {
            if j < old(self)@.len() {
                assert(old(self)@[i].id < old(self)@[j].id);
            } else {
                assert(old(self)@[i].id < id);
            }
        }
        assert forall|i: int| 0 <= i < self@.len() implies (#[trigger] self@[i]).wf() by {
            if i < old(self)@.len() {
                assert(old(self)@[i].wf());
            }
        }
        Some(id)
    }

    /// The place of the entity known as `id`: the first of that name, if
    /// any.
    pub fn index_of(&self, id: u64) -> (at: Option<usize>)
        ensures
            is_first_match(
                self@,
                known_as(id),
                match at {
                    Some(k) => Some(k as int),
                    None => None,
                },
            ),
    {
        let mut i: usize = 0;
        while i < self.entities.len()
            invariant
                i <= self.entities@.len(),
                forall|j: int| 0 <= j < i ==> (#[trigger] self@[j]).id != id,
            decreases self.entities@.len() - i,
        {
            if self.entities[i].id == id {
                return Some(i);
            }
            i += 1;
        }
        None
    }

    /// Whether the world holds an entity known as `id`.
    pub fn contains(&self, id: u64) -> (b: bool)
        ensures
            b == exists|k: int| 0 <= k < self@.len() && (#[trigger] self@[k]).id == id,
    {
        self.index_of(id).is_some()
    }

    /// The entity known as `id`: the first of that name, if any.
    pub fn get(&self, id: u64) -> (found: Option<&EntityRecord>)
        ensures
            match first_match(self@, known_as(id)) {
                Some(k) => found is Some && found->0@ == self@[k],
                None => found is None,
            },
    {
        let at = self.index_of(id);
        proof {
            lemma_first_match(
                self@,
                known_as(id),
                match at {
                    Some(k) => Some(k as int),
                    None => None,
                },
            );
        }
        match at {
            Some(k) => {
                assert(self@[k as int] == self.entities@[k as int]@);
                Some(&self.entities[k])
            },
            None => None,
        }
    }

    /// Removes the entity known as `id`, with all its components. Returns
    /// whether there was one; if not, the world stays as it is.
    pub fn despawn(&mut self, id: u64) -> (removed: bool)
        requires
            old(self).wf(),
        ensures
            final(self).wf(),
            final(self).next_id == old(self).next_id,
            match first_match(old(self)@, known_as(id)) {
                Some(k) => removed && final(self)@ == old(self)@.remove(k),
                None => !removed && final(self)@ == old(self)@,
            },
            forall|k: int| 0 <= k < final(self)@.len() ==> (#[trigger] final(self)@[k]).id != id,
    {
        let at = self.index_of(id);
        proof {
            lemma_first_match(
                self@,
                known_as(id),
                match at {
                    Some(k) => Some(k as int),
                    None => None,
                },
            );
        }
        match at {
            Some(k) => {
                self.entities.remove(k);
                proof {
                    let before = old(self)@;
                    assert(self@ =~= before.remove(k as int));
                    lemma_remove_keeps_ids(before, k as int, self.next_id);
                    assert forall|i: int| 0 <= i < self@.len() implies (#[trigger] self@[i]).wf() by {
                        let i0 = if i < k { i } else { i + 1 };
                        assert(before[i0].wf());
                    }
                }
                true
            },
            None => false,
        }
    }

    /// Puts the entity known as `id` at `position`, and marks it as moved
    /// where that is a new position. Returns whether there is such an
    /// entity; if not, the world stays as it is.
    pub fn set_position(&mut self, id: u64, position: Position) -> (found: bool)
        requires
            old(self).wf(),
        ensures
            final(self).wf(),
            final(self).next_id == old(self).next_id,
            match first_match(old(self)@, known_as(id)) {
                Some(k) => found && final(self)@ == old(self)@.update(
                    k,
                    placed_at(old(self)@[k], position),
                ),
                None => !found && final(self)@ == old(self)@,
            },
    {
        let at = self.index_of(id);
        proof {
            lemma_first_match(
                self@,
                known_as(id),
                match at {
                    Some(k) => Some(k as int),
                    None => None,
                },
            );
        }
        match at {
            Some(k) => {
                if !same_position(&self.entities[k].position, &position) {
                    self.entities[k].position = position;
                    self.entities[k].moved = true;
                }
                proof {
                    assert(self@ =~= old(self)@.update(
                        k as int,
                        placed_at(old(self)@[k as int], position),
                    ));
                    lemma_rewrite_keeps_ids(old(self)@, self@, self.next_id);
                    assert forall|i: int| 0 <= i < self@.len() implies (#[trigger] self@[i]).wf() by {
                        assert(old(self)@[i].wf());
                    }
                }
                true
            },
            None => false,
        }
    }

    /// Marks the entity known as `id` as alive or dead. Returns whether
    /// there is such an entity; if not, the world stays as it is.
    pub fn set_life(&mut self, id: u64, life: Life) -> (found: bool)
        requires
            old(self).wf(),
        ensures
            final(self).wf(),
            final(self).next_id == old(self).next_id,
            match first_match(old(self)@, known_as(id)) {
                Some(k) => found && final(self)@ == old(self)@.update(
                    k,
                    EntityView { life, ..old(self)@[k] },
                ),
                None => !found && final(self)@ == old(self)@,
            },
    {
        let at = self.index_of(id);
        proof {
            lemma_first_match(
                self@,
                known_as(id),
                match at {
                    Some(k) => Some(k as int),
                    None => None,
                },
            );
        }
        match at {
            Some(k) => {
                self.entities[k].life = life;
                proof {
                    assert(self@ =~= old(self)@.update(
                        k as int,
                        EntityView { life, ..old(self)@[k as int] },
                    ));
                    lemma_rewrite_keeps_ids(old(self)@, self@, self.next_id);
                    assert forall|i: int| 0 <= i < self@.len() implies (#[trigger] self@[i]).wf() by {
                        assert(old(self)@[i].wf());
                    }
                }
                true
            },
            None => false,
        }
    }

    /// Ends a tick: no entity counts as moved any longer.
    pub fn settle(&mut self)
        requires
            old(self).wf(),
        ensures
            final(self).wf(),
            final(self).next_id == old(self).next_id,
            final(self)@ == settled(old(self)@),
    {
        let mut i: usize = 0;
        while i < self.entities.len()
            invariant
                self.next_id == old(self).next_id,
                self.entities@.len() == old(self)@.len(),
                i <= self.entities@.len(),
                forall|j: int|
                    0 <= j < i ==> (#[trigger] self.entities@[j])@ == (EntityView {
                        moved: false,
                        ..old(self)@[j]
                    }),
                forall|j: int| i <= j < self.entities@.len() ==> (#[trigger] self.entities@[j])@ == old(self)@[j],
            decreases self.entities@.len() - i,
        {
            self.entities[i].moved = false;
            i += 1;
        }
        proof {
            assert(self@ =~= settled(old(self)@));
            lemma_rewrite_keeps_ids(old(self)@, self@, self.next_id);
            assert forall|i: int| 0 <= i < self@.len() implies (#[trigger] self@[i]).wf() by {
                assert(old(self)@[i].wf());
            }
        }
    }

    /// The first entity that meets `filter` and stands within `radius` of
    /// `center`.
    pub fn first_near(&self, filter: &Filter, center: &Position, radius: i32) -> (at: Option<usize>)
        ensures
            is_first_match(
                self@,
                near(*filter, *center, radius as int),
                match at {
                    Some(k) => Some(k as int),
                    None => None,
                },
            ),
            at matches Some(k) ==> k < self@.len(),
    {
        let mut i: usize = 0;
        while i < self.entities.len()
            invariant
                i <= self.entities@.len(),
                forall|j: int|
                    0 <= j < i ==> !near(*filter, *center, radius as int)(#[trigger] self@[j]),
            decreases self.entities@.len() - i,
        {
            let e = &self.entities[i];
            if filter.matches(e) && within(radius, &e.position, center) {
                return Some(i);
            }
            i += 1;
        }
        None
    }

    /// The identifiers of the entities that meet `filter`, in spawn order.
    pub fn query(&self, filter: &Filter) -> (ids: Vec<u64>)
        ensures
            ids@ == matching_ids(self@, *filter, self@.len() as int),
    {
        let mut ids: Vec<u64> = Vec::new();
        let mut i: usize = 0;
        while i < self.entities.len()
            invariant
                i <= self.entities@.len(),
                ids@ == matching_ids(self@, *filter, i as int),
            decreases self.entities@.len() - i,
        {
            let e = &self.entities[i];
            if filter.matches(e) {
                ids.push(e.id);
            }
            i += 1;
        }
        ids
    }
}

/// Taking one entity out keeps the identifiers of the others in order.
pub proof fn lemma_remove_keeps_ids(before: Seq<EntityView>, k: int, next_id: u64)
    requires
        ids_ascend(before, next_id),
        0 <= k < before.len(),
    ensures
        ids_ascend(before.remove(k), next_id),
        forall|i: int|
            0 <= i < before.remove(k).len() ==> (#[trigger] before.remove(k)[i]).id
                != before[k].id,
{
    let after = before.remove(k);
    assert forall|i: int, j: int| 0 <= i < j < after.len() implies (#[trigger] after[i]).id < (
    #[trigger] after[j]).id by {
        let i0 = if i < k { i } else { i + 1 };
        let j0 = if j < k { j } else { j + 1 };
        assert(before[i0].id < before[j0].id);
    }
    assert forall|i: int| 0 <= i < after.len() implies (#[trigger] after[i]).id < next_id
        && after[i].id != before[k].id by {
        let i0 = if i < k { i } else { i + 1 };
        assert(before[i0].id < next_id);
        if i0 < k {
            assert(before[i0].id < before[k].id);
        } else {
            assert(before[k].id < before[i0].id);
        }
    }
}

/// Rewriting entities in place, each keeping its identifier, keeps the
/// identifiers in order.
pub proof fn lemma_rewrite_keeps_ids(before: Seq<EntityView>, after: Seq<EntityView>, next_id: u64)
    requires
        ids_ascend(before, next_id),
        before.len() == after.len(),
        forall|i: int| 0 <= i < before.len() ==> (#[trigger] after[i]).id == before[i].id,
    ensures
        ids_ascend(after, next_id),
{
    assert forall|i: int, j: int| 0 <= i < j < after.len() implies (#[trigger] after[i]).id < (
    #[trigger] after[j]).id by {
        assert(before[i].id < before[j].id);
    }
    assert forall|i: int| 0 <= i < after.len() implies (#[trigger] after[i]).id < next_id by {
        assert(before[i].id < next_id);
    }
}

/// The identifiers of those among the first `n` entities of `w` that meet
/// `filter`, in order.
pub open spec fn matching_ids(w: Seq<EntityView>, filter: Filter, n: int) -> Seq<u64>
    decreases n,
{
    if n <= 0 {
        Seq::empty()
    } else if filter.admits(w[n - 1]) {
        matching_ids(w, filter, n - 1).push(w[n - 1].id)
    } else {
        matching_ids(w, filter, n - 1)
    }
}

/// The entity after it has been told to stand at `position`: it counts as
/// moved if that is not where it stood.
pub open spec fn placed_at(e: EntityView, position: Position) -> EntityView {
    if e.position == position {
        e
    } else {
        EntityView { position, moved: true, ..e }
    }
}

/// The world after the end of a tick: as before, but nobody counts as moved.
pub open spec fn settled(w: Seq<EntityView>) -> Seq<EntityView> {
    Seq::new(w.len(), |i: int| EntityView { moved: false, ..w[i] })
}

/// Whether two positions are the same point.
pub(crate) fn same_position(a: &Position, b: &Position) -> (same: bool)
    ensures
        same == (*a == *b),
{
    a.x == b.x && a.y == b.y && a.z == b.z
}

/// The square proximity test of [`in_radius`].
pub(crate) fn within(radius: i32, a: &Position, b: &Position) -> (r: bool)
    ensures
        r == in_radius(radius as int, *a, *b),
{
    let ax: i64 = a.x as i64;
    let az: i64 = a.z as i64;
    let bx: i64 = b.x as i64;
    let bz: i64 = b.z as i64;
    let rd: i64 = radius as i64;
    (ax - rd <= bx && bx <= ax + rd) && (az - rd <= bz && bz <= az + rd)
}

} // verus!
