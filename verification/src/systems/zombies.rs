//! Aggression, attack, hunger, eating and flight.

use vstd::prelude::*;
use crate::clock::MAX_TICK_TIME;
use crate::commands::{issued, Animation, HostCommand, HostCommandView};
use crate::components::{
    decayed, in_radius, Eating, EntityHandle, EntityKind, HungerLevel, IsAttacking, Life,
    FED_ABOVE, HUNGER_FULL, HUNGRY_BELOW,
};
use crate::ressources::{HungerTimer, HUNGER_INTERVAL_MS};
use crate::systems::common::{
    collected, find_report, issue, lemma_rewrite_keeps_wf, report_on, HostReport,
};
use crate::world::{
    first_match, known_as, lemma_first_match, lemma_first_match_agrees, near, within, EntityView,
    Filter, Presence, World,
};

verus! {

/// Reach of an attack: one and a half units.
pub const ATTACK_RANGE: i32 = 1500;

/// Milliseconds from the start of an attack to its impact.
pub const ATTACK_WINDUP_MS: i64 = 1000;

/// The entities that may start an attack: hostile, alive, and not attacking
/// already.
pub open spec fn idle_hostiles() -> Filter {
    Filter {
        hostile_to_player: Presence::With,
        alive: Presence::With,
        is_attacking: Presence::Without,
        ..Filter::spec_any()
    }
}

/// The players that are alive.
pub open spec fn living_players() -> Filter {
    Filter { player: Presence::With, alive: Presence::With, ..Filter::spec_any() }
}

/// The place of the player that entity `i` engages: the first living player
/// within reach, where `i` may start an attack at all.
pub open spec fn engagement(w: Seq<EntityView>, i: int) -> Option<int> {
    if idle_hostiles().admits(w[i]) {
        first_match(w, near(living_players(), w[i].position, ATTACK_RANGE as int))
    } else {
        None
    }
}

/// Entity `i` after aggression has been settled at time `now`: if it
/// engages a player, an attack on that player is in flight, due at
/// `now + ATTACK_WINDUP_MS`.
pub open spec fn engaged_entity(w: Seq<EntityView>, i: int, now: i64) -> EntityView {
    match engagement(w, i) {
        Some(t) => EntityView {
            is_attacking: Some(
                IsAttacking { target: w[t].id, time_to_hit: (now + ATTACK_WINDUP_MS) as i64 },
            ),
            ..w[i]
        },
        None => w[i],
    }
}

/// The world after aggression has been settled at time `now`.
pub open spec fn engaged(w: Seq<EntityView>, now: i64) -> Seq<EntityView> {
    Seq::new(w.len(), |i: int| engaged_entity(w, i, now))
}

/// The command that goes with an engagement: the attacker plays its slash.
pub open spec fn engage_commands(w: Seq<EntityView>) -> spec_fn(int) -> Option<HostCommandView> {
    |i: int|
        match engagement(w, i) {
            Some(_) => Some(
                HostCommandView::PlayAnimation {
                    handle: w[i].handle,
                    animation: Animation::KnifeSlash,
                },
            ),
            None => None,
        }
}

fn idle_hostiles_filter() -> (f: Filter)
    ensures
        f == idle_hostiles(),
{
    Filter {
        hostile_to_player: Presence::With,
        alive: Presence::With,
        is_attacking: Presence::Without,
        ..Filter::any()
    }
}

fn living_players_filter() -> (f: Filter)
    ensures
        f == living_players(),
{
    Filter { player: Presence::With, alive: Presence::With, ..Filter::any() }
}

/// Starts attacks. Every hostile, living entity that is not attacking yet
/// engages the first living player within [`ATTACK_RANGE`], if there is one:
/// it plays its slash, and its attack is due [`ATTACK_WINDUP_MS`] later.
pub fn hostile_to_player_sys(world: &mut World, now: i64, commands: &mut Vec<HostCommand>)
    requires
        old(world).wf(),
        now <= MAX_TICK_TIME,
    ensures
        final(world).wf(),
        final(world).next_id == old(world).next_id,
        final(world)@ == engaged(old(world)@, now),
        issued(final(commands)@) == issued(old(commands)@) + collected(
            old(world)@.len() as int,
            engage_commands(old(world)@),
        ),
{
    let seekers = idle_hostiles_filter();
    let prey = living_players_filter();
    let mut i: usize = 0;
    assert(issued(commands@) =~= issued(old(commands)@) + collected(
        0,
        engage_commands(old(world)@),
    ));
    while i < world.entities.len()
        invariant
            seekers == idle_hostiles(),
            prey == living_players(),
            now <= MAX_TICK_TIME,
            world.next_id == old(world).next_id,
            world.entities@.len() == old(world)@.len(),
            i <= world.entities@.len(),
            forall|j: int|
                0 <= j < i ==> (#[trigger] world.entities@[j])@ == engaged_entity(
                    old(world)@,
                    j,
                    now,
                ),
            forall|j: int|
                i <= j < world.entities@.len() ==> (#[trigger] world.entities@[j])@ == old(
                    world,
                )@[j],
            issued(commands@) == issued(old(commands)@) + collected(
                i as int,
                engage_commands(old(world)@),
            ),
        decreases world.entities@.len() - i,
    {
        let mut engages = false;
        if seekers.matches(&world.entities[i]) {
            let center = world.entities[i].position;
            let found = world.first_near(&prey, &center, ATTACK_RANGE);
            proof {
                let wanted = near(living_players(), center, ATTACK_RANGE as int);
                assert forall|j: int| 0 <= j < world@.len() implies wanted(#[trigger] world@[j])
                    == wanted(old(world)@[j]) by {
                    assert(world@[j] == world.entities@[j]@);
                }
                lemma_first_match_agrees(
                    world@,
                    old(world)@,
                    wanted,
                    match found {
                        Some(k) => Some(k as int),
                        None => None,
                    },
                );
            }
            if let Some(t) = found {
                assert(world.entities@[t as int]@.id == old(world)@[t as int].id);
                let target = world.entities[t].id;
                world.entities[i].is_attacking = Some(
                    IsAttacking { target, time_to_hit: now + ATTACK_WINDUP_MS },
                );
                engages = true;
            }
        }
        if engages {
            issue(
                commands,
                HostCommand::PlayAnimation {
                    handle: world.entities[i].handle,
                    animation: Animation::KnifeSlash,
                },
                Ghost(issued(old(commands)@)),
                Ghost(i as int),
                Ghost(engage_commands(old(world)@)),
            );
        }
        i += 1;
    }
    proof {
        assert(world@ =~= engaged(old(world)@, now));
        assert forall|k: int| 0 <= k < world@.len() implies (#[trigger] world@[k]).id == old(
            world,
        )@[k].id && world@[k].wf() by {
            assert(old(world)@[k].wf());
        }
        lemma_rewrite_keeps_wf(*old(world), *world);
    }
}

/// The attack of the entity is due: the entity is alive, and the time of
/// impact has come.
pub open spec fn resolves(e: EntityView, now: i64) -> bool {
    &&& e.life is Alive
    &&& e.is_attacking matches Some(a) && now >= a.time_to_hit
}

/// The character that the attack of entity `i` hits on impact: its target,
/// if that is still in the world, alive, and within [`ATTACK_RANGE`].
pub open spec fn struck(w: Seq<EntityView>, i: int) -> Option<Seq<char>> {
    match w[i].is_attacking {
        Some(a) => match first_match(w, known_as(a.target)) {
            Some(t) => if w[t].life is Alive && in_radius(
                ATTACK_RANGE as int,
                w[i].position,
                w[t].position,
            ) {
                w[t].character_id
            } else {
                None
            },
            None => None,
        },
        None => None,
    }
}

/// The entity after attacks have been resolved at time `now`: an attack
/// that was due is over, hit or miss.
pub open spec fn resolved_entity(e: EntityView, now: i64) -> EntityView {
    if resolves(e, now) {
        EntityView { is_attacking: None, ..e }
    } else {
        e
    }
}

/// The world after attacks have been resolved at time `now`.
pub open spec fn resolved(w: Seq<EntityView>, now: i64) -> Seq<EntityView> {
    Seq::new(w.len(), |i: int| resolved_entity(w[i], now))
}

/// The command that goes with an attack that is due and hits: damage to
/// the character hit.
pub open spec fn attack_commands(w: Seq<EntityView>, now: i64) -> spec_fn(int) -> Option<
    HostCommandView,
> {
    |i: int|
        if resolves(w[i], now) {
            match struck(w, i) {
                Some(c) => Some(
                    HostCommandView::ApplyDamage { handle: w[i].handle, character_id: c },
                ),
                None => None,
            }
        } else {
            None
        }
}

/// Resolves the attacks that are due. The attacker must be alive. Damage is
/// applied if the target is still in the world, alive and within
/// [`ATTACK_RANGE`] of the attacker; either way the attack is over.
pub fn attack_hit_sys(world: &mut World, now: i64, commands: &mut Vec<HostCommand>)
    requires
        old(world).wf(),
    ensures
        final(world).wf(),
        final(world).next_id == old(world).next_id,
        final(world)@ == resolved(old(world)@, now),
        issued(final(commands)@) == issued(old(commands)@) + collected(
            old(world)@.len() as int,
            attack_commands(old(world)@, now),
        ),
{
    let mut i: usize = 0;
    assert(issued(commands@) =~= issued(old(commands)@) + collected(
        0,
        attack_commands(old(world)@, now),
    ));
    while i < world.entities.len()
        invariant
            world.next_id == old(world).next_id,
            world.entities@.len() == old(world)@.len(),
            i <= world.entities@.len(),
            forall|j: int|
                0 <= j < i ==> (#[trigger] world.entities@[j])@ == resolved_entity(
                    old(world)@[j],
                    now,
                ),
            forall|j: int|
                i <= j < world.entities@.len() ==> (#[trigger] world.entities@[j])@ == old(
                    world,
                )@[j],
            issued(commands@) == issued(old(commands)@) + collected(
                i as int,
                attack_commands(old(world)@, now),
            ),
        decreases world.entities@.len() - i,
    {
        let mut hit: Option<HostCommand> = None;
        let mut due = false;
        if let Some(attack) = world.entities[i].is_attacking {
            if matches!(world.entities[i].life, Life::Alive) && now >= attack.time_to_hit {
                due = true;
                let found = world.index_of(attack.target);
                proof {
                    let wanted = known_as(attack.target);
                    assert forall|j: int| 0 <= j < world@.len() implies wanted(
                        #[trigger] world@[j],
                    ) == wanted(old(world)@[j]) by {
                        assert(world@[j] == world.entities@[j]@);
                    }
                    lemma_first_match_agrees(
                        world@,
                        old(world)@,
                        wanted,
                        match found {
                            Some(k) => Some(k as int),
                            None => None,
                        },
                    );
                }
                if let Some(t) = found {
                    let attacker = &world.entities[i];
                    let target = &world.entities[t];
                    assert(target@.life == old(world)@[t as int].life);
                    assert(target@.position == old(world)@[t as int].position);
                    assert(target@.character_id == old(world)@[t as int].character_id);
                    if matches!(target.life, Life::Alive) && within(
                        ATTACK_RANGE,
                        &attacker.position,
                        &target.position,
                    ) {
                        if let Some(c) = &target.character_id {
                            hit = Some(
                                HostCommand::ApplyDamage {
                                    handle: attacker.handle,
                                    character_id: c.duplicate(),
                                },
                            );
                        }
                    }
                }
            }
        }
        if due {
            world.entities[i].is_attacking = None;
        }
        if let Some(command) = hit {
            issue(
                commands,
                command,
                Ghost(issued(old(commands)@)),
                Ghost(i as int),
                Ghost(attack_commands(old(world)@, now)),
            );
        }
        i += 1;
    }
    proof {
        assert(world@ =~= resolved(old(world)@, now));
        assert forall|k: int| 0 <= k < world@.len() implies (#[trigger] world@[k]).id == old(
            world,
        )@[k].id && world@[k].wf() by {
            assert(old(world)@[k].wf());
        }
        lemma_rewrite_keeps_wf(*old(world), *world);
    }
}

/// An attack never lands early, and always ends. Let entity `i` engage a
/// player at time `start`, and let `later` be any world in which that attack
/// is still in flight. Resolving attacks in `later` at a time before
/// `start + ATTACK_WINDUP_MS` issues no damage for `i` and leaves the attack
/// in flight. At or after that time, with the attacker alive, the attack is
/// over; and if its target has left the world, has died, or stands out of
/// reach, no damage is issued for `i`.
pub proof fn lemma_attack_cycle(
    before: Seq<EntityView>,
    i: int,
    start: i64,
    later: Seq<EntityView>,
    now: i64,
)
    requires
        0 <= i < before.len(),
        i < later.len(),
        start <= MAX_TICK_TIME,
        engagement(before, i) is Some,
        later[i].is_attacking == engaged(before, start)[i].is_attacking,
    ensures
        now < start + ATTACK_WINDUP_MS ==> attack_commands(later, now)(i) is None && resolved(
            later,
            now,
        )[i].is_attacking == later[i].is_attacking,
        now >= start + ATTACK_WINDUP_MS && later[i].life is Alive ==> resolved(
            later,
            now,
        )[i].is_attacking is None,
        match first_match(later, known_as(later[i].is_attacking->0.target)) {
            Some(t) => later[t].life is Dead || !in_radius(
                ATTACK_RANGE as int,
                later[i].position,
                later[t].position,
            ),
            None => true,
        } ==> attack_commands(later, now)(i) is None,
{
}

/// An attack started in a tick is not resolved in that tick: resolving
/// attacks at the time of engagement leaves every attack just started in
/// flight, and issues no damage for it.
pub proof fn lemma_attack_waits_a_tick(w: Seq<EntityView>, i: int, now: i64)
    requires
        0 <= i < w.len(),
        now <= MAX_TICK_TIME,
        engagement(w, i) is Some,
    ensures
        resolved(engaged(w, now), now)[i] == engaged(w, now)[i],
        engaged(w, now)[i].is_attacking is Some,
        attack_commands(engaged(w, now), now)(i) is None,
{
}

/// Reach of a meal: one and a half units.
pub const EATING_RANGE: i32 = 1500;

/// Milliseconds a meal takes.
pub const EATING_DURATION_MS: i64 = 10_000;

/// The entities that may start a meal: hungry, living carnivores that are
/// not eating already.
pub open spec fn hungry_carnivores() -> Filter {
    Filter {
        carnivore: Presence::With,
        alive: Presence::With,
        eating: Presence::Without,
        hungry: Presence::With,
        ..Filter::spec_any()
    }
}

/// The players that are dead.
pub open spec fn dead_players() -> Filter {
    Filter { player: Presence::With, dead: Presence::With, ..Filter::spec_any() }
}

/// Entity `i` starts a meal: it may, and a dead player lies within
/// [`EATING_RANGE`].
pub open spec fn starts_eating(w: Seq<EntityView>, i: int) -> bool {
    &&& hungry_carnivores().admits(w[i])
    &&& first_match(w, near(dead_players(), w[i].position, EATING_RANGE as int)) is Some
}

/// Entity `i` after meals have been started at time `now`.
pub open spec fn served_entity(w: Seq<EntityView>, i: int, now: i64) -> EntityView {
    if starts_eating(w, i) {
        EntityView { eating: Some(Eating { time: now }), ..w[i] }
    } else {
        w[i]
    }
}

/// The world after meals have been started at time `now`.
pub open spec fn served(w: Seq<EntityView>, now: i64) -> Seq<EntityView> {
    Seq::new(w.len(), |i: int| served_entity(w, i, now))
}

/// The command that goes with the start of a meal: the eater plays its
/// eating animation.
pub open spec fn eating_commands(w: Seq<EntityView>) -> spec_fn(int) -> Option<HostCommandView> {
    |i: int|
        if starts_eating(w, i) {
            Some(HostCommandView::PlayAnimation { handle: w[i].handle, animation: Animation::Eating })
        } else {
            None
        }
}

fn hungry_carnivores_filter() -> (f: Filter)
    ensures
        f == hungry_carnivores(),
{
    Filter {
        carnivore: Presence::With,
        alive: Presence::With,
        eating: Presence::Without,
        hungry: Presence::With,
        ..Filter::any()
    }
}

fn dead_players_filter() -> (f: Filter)
    ensures
        f == dead_players(),
{
    Filter { player: Presence::With, dead: Presence::With, ..Filter::any() }
}

/// Starts meals. Every hungry, living carnivore that is not eating yet and
/// has a dead player within [`EATING_RANGE`] starts to eat at `now`, and
/// plays its eating animation, once.
pub fn carnivore_eating_sys(world: &mut World, now: i64, commands: &mut Vec<HostCommand>)
    requires
        old(world).wf(),
    ensures
        final(world).wf(),
        final(world).next_id == old(world).next_id,
        final(world)@ == served(old(world)@, now),
        issued(final(commands)@) == issued(old(commands)@) + collected(
            old(world)@.len() as int,
            eating_commands(old(world)@),
        ),
{
    let eaters = hungry_carnivores_filter();
    let food = dead_players_filter();
    let mut i: usize = 0;
    assert(issued(commands@) =~= issued(old(commands)@) + collected(
        0,
        eating_commands(old(world)@),
    ));
    while i < world.entities.len()
        invariant
            eaters == hungry_carnivores(),
            food == dead_players(),
            world.next_id == old(world).next_id,
            world.entities@.len() == old(world)@.len(),
            i <= world.entities@.len(),
            forall|j: int|
                0 <= j < i ==> (#[trigger] world.entities@[j])@ == served_entity(
                    old(world)@,
                    j,
                    now,
                ),
            forall|j: int|
                i <= j < world.entities@.len() ==> (#[trigger] world.entities@[j])@ == old(
                    world,
                )@[j],
            issued(commands@) == issued(old(commands)@) + collected(
                i as int,
                eating_commands(old(world)@),
            ),
        decreases world.entities@.len() - i,
    {
        let mut starts = false;
        if eaters.matches(&world.entities[i]) {
            let center = world.entities[i].position;
            let found = world.first_near(&food, &center, EATING_RANGE);
            proof {
                let wanted = near(dead_players(), center, EATING_RANGE as int);
                assert forall|j: int| 0 <= j < world@.len() implies wanted(#[trigger] world@[j])
                    == wanted(old(world)@[j]) by {
                    assert(world@[j] == world.entities@[j]@);
                }
                lemma_first_match_agrees(
                    world@,
                    old(world)@,
                    wanted,
                    match found {
                        Some(k) => Some(k as int),
                        None => None,
                    },
                );
            }
            starts = found.is_some();
        }
        if starts {
            world.entities[i].eating = Some(Eating { time: now });
            issue(
                commands,
                HostCommand::PlayAnimation {
                    handle: world.entities[i].handle,
                    animation: Animation::Eating,
                },
                Ghost(issued(old(commands)@)),
                Ghost(i as int),
                Ghost(eating_commands(old(world)@)),
            );
        }
        i += 1;
    }
    proof {
        assert(world@ =~= served(old(world)@, now));
        assert forall|k: int| 0 <= k < world@.len() implies (#[trigger] world@[k]).id == old(
            world,
        )@[k].id && world@[k].wf() by {
            assert(old(world)@[k].wf());
        }
        lemma_rewrite_keeps_wf(*old(world), *world);
    }
}

/// The meal of the entity is over at time `now`: the entity is alive, has a
/// hunger level, and began to eat at least [`EATING_DURATION_MS`] ago.
pub open spec fn finishes_eating(e: EntityView, now: i64) -> bool {
    &&& e.life is Alive
    &&& e.hunger_level is Some
    &&& e.eating matches Some(meal) && meal.time + EATING_DURATION_MS <= now
}

/// The entity after meals have been ended at time `now`: one whose meal is
/// over eats no longer and is full.
pub open spec fn fed_entity(e: EntityView, now: i64) -> EntityView {
    if finishes_eating(e, now) {
        EntityView { eating: None, hunger_level: Some(HungerLevel(HUNGER_FULL)), ..e }
    } else {
        e
    }
}

/// The world after meals have been ended at time `now`.
pub open spec fn fed(w: Seq<EntityView>, now: i64) -> Seq<EntityView> {
    Seq::new(w.len(), |i: int| fed_entity(w[i], now))
}

/// The command that goes with the end of a meal.
pub open spec fn fed_commands(w: Seq<EntityView>, now: i64) -> spec_fn(int) -> Option<
    HostCommandView,
> {
    |i: int|
        if finishes_eating(w[i], now) {
            Some(
                HostCommandView::PlayAnimation {
                    handle: w[i].handle,
                    animation: Animation::EatingDone,
                },
            )
        } else {
            None
        }
}

/// Ends the meals that have lasted [`EATING_DURATION_MS`]: the eater stops
/// eating, is full again, and plays the animation that ends the meal.
pub fn finish_eating_sys(world: &mut World, now: i64, commands: &mut Vec<HostCommand>)
    requires
        old(world).wf(),
    ensures
        final(world).wf(),
        final(world).next_id == old(world).next_id,
        final(world)@ == fed(old(world)@, now),
        issued(final(commands)@) == issued(old(commands)@) + collected(
            old(world)@.len() as int,
            fed_commands(old(world)@, now),
        ),
{
    let mut i: usize = 0;
    assert(issued(commands@) =~= issued(old(commands)@) + collected(
        0,
        fed_commands(old(world)@, now),
    ));
    while i < world.entities.len()
        invariant
            world.next_id == old(world).next_id,
            world.entities@.len() == old(world)@.len(),
            i <= world.entities@.len(),
            forall|j: int|
                0 <= j < i ==> (#[trigger] world.entities@[j])@ == fed_entity(old(world)@[j], now),
            forall|j: int|
                i <= j < world.entities@.len() ==> (#[trigger] world.entities@[j])@ == old(
                    world,
                )@[j],
            issued(commands@) == issued(old(commands)@) + collected(
                i as int,
                fed_commands(old(world)@, now),
            ),
        decreases world.entities@.len() - i,
    {
        let mut done = false;
        if let Some(meal) = world.entities[i].eating {
            if matches!(world.entities[i].life, Life::Alive)
                && world.entities[i].hunger_level.is_some() && meal.time as i128
                + EATING_DURATION_MS as i128 <= now as i128 {
                done = true;
            }
        }
        if done {
            world.entities[i].eating = None;
            world.entities[i].hunger_level = Some(HungerLevel(HUNGER_FULL));
            issue(
                commands,
                HostCommand::PlayAnimation {
                    handle: world.entities[i].handle,
                    animation: Animation::EatingDone,
                },
                Ghost(issued(old(commands)@)),
                Ghost(i as int),
                Ghost(fed_commands(old(world)@, now)),
            );
        }
        i += 1;
    }
    proof {
        assert(world@ =~= fed(old(world)@, now));
        assert forall|k: int| 0 <= k < world@.len() implies (#[trigger] world@[k]).id == old(
            world,
        )@[k].id && world@[k].wf() by {
            assert(old(world)@[k].wf());
        }
        lemma_rewrite_keeps_wf(*old(world), *world);
    }
}

/// A meal lasts exactly its duration. Let entity `i` start a meal at time
/// `start`, and let `later` be any world in which it is still at that meal,
/// alive and with a hunger level. Ending meals in `later` at a time before
/// `start + EATING_DURATION_MS` leaves it eating; at or after that time it
/// eats no longer and its hunger level is [`HUNGER_FULL`].
pub proof fn lemma_eating_cycle(
    before: Seq<EntityView>,
    i: int,
    start: i64,
    later: Seq<EntityView>,
    now: i64,
)
    requires
        0 <= i < before.len(),
        i < later.len(),
        starts_eating(before, i),
        later[i].eating == served(before, start)[i].eating,
        later[i].life is Alive,
        later[i].hunger_level is Some,
    ensures
        now < start + EATING_DURATION_MS ==> fed(later, now)[i] == later[i] && later[i].eating
            is Some,
        now >= start + EATING_DURATION_MS ==> fed(later, now)[i].eating is None && fed(
            later,
            now,
        )[i].hunger_level == Some(HungerLevel(HUNGER_FULL)),
{
}

/// The entity after hunger has been noticed: alive and with a hunger level
/// below [`HUNGRY_BELOW`], it is hungry.
pub open spec fn famished_entity(e: EntityView) -> EntityView {
    if e.life is Alive && (e.hunger_level matches Some(h) && h.0 < HUNGRY_BELOW) {
        EntityView { hungry: true, ..e }
    } else {
        e
    }
}

/// The world after hunger has been noticed.
pub open spec fn famished(w: Seq<EntityView>) -> Seq<EntityView> {
    Seq::new(w.len(), |i: int| famished_entity(w[i]))
}

/// Marks as hungry every living entity whose hunger level is below
/// [`HUNGRY_BELOW`].
pub fn hungry_sys(world: &mut World)
    requires
        old(world).wf(),
    ensures
        final(world).wf(),
        final(world).next_id == old(world).next_id,
        final(world)@ == famished(old(world)@),
{
    let mut i: usize = 0;
    while i < world.entities.len()
        invariant
            world.next_id == old(world).next_id,
            world.entities@.len() == old(world)@.len(),
            i <= world.entities@.len(),
            forall|j: int|
                0 <= j < i ==> (#[trigger] world.entities@[j])@ == famished_entity(old(world)@[j]),
            forall|j: int|
                i <= j < world.entities@.len() ==> (#[trigger] world.entities@[j])@ == old(
                    world,
                )@[j],
        decreases world.entities@.len() - i,
    {
        if let Some(level) = world.entities[i].hunger_level {
            if matches!(world.entities[i].life, Life::Alive) && level.0 < HUNGRY_BELOW {
                world.entities[i].hungry = true;
            }
        }
        i += 1;
    }
    proof {
        assert(world@ =~= famished(old(world)@));
        assert forall|k: int| 0 <= k < world@.len() implies (#[trigger] world@[k]).id == old(
            world,
        )@[k].id && world@[k].wf() by {
            assert(old(world)@[k].wf());
        }
        lemma_rewrite_keeps_wf(*old(world), *world);
    }
}

/// The entity after satiety has been noticed: alive, hungry and with a
/// hunger level above [`FED_ABOVE`], it is hungry no longer.
pub open spec fn sated_entity(e: EntityView) -> EntityView {
    if e.life is Alive && e.hungry && (e.hunger_level matches Some(h) && h.0 > FED_ABOVE) {
        EntityView { hungry: false, ..e }
    } else {
        e
    }
}

/// The world after satiety has been noticed.
pub open spec fn sated(w: Seq<EntityView>) -> Seq<EntityView> {
    Seq::new(w.len(), |i: int| sated_entity(w[i]))
}

/// Takes the mark of hunger from every living entity whose hunger level is
/// above [`FED_ABOVE`].
pub fn remove_hungry_sys(world: &mut World)
    requires
        old(world).wf(),
    ensures
        final(world).wf(),
        final(world).next_id == old(world).next_id,
        final(world)@ == sated(old(world)@),
{
    let mut i: usize = 0;
    while i < world.entities.len()
        invariant
            world.next_id == old(world).next_id,
            world.entities@.len() == old(world)@.len(),
            i <= world.entities@.len(),
            forall|j: int|
                0 <= j < i ==> (#[trigger] world.entities@[j])@ == sated_entity(old(world)@[j]),
            forall|j: int|
                i <= j < world.entities@.len() ==> (#[trigger] world.entities@[j])@ == old(
                    world,
                )@[j],
        decreases world.entities@.len() - i,
    {
        if let Some(level) = world.entities[i].hunger_level {
            if matches!(world.entities[i].life, Life::Alive) && world.entities[i].hungry && level.0
                > FED_ABOVE {
                world.entities[i].hungry = false;
            }
        }
        i += 1;
    }
    proof {
        assert(world@ =~= sated(old(world)@));
        assert forall|k: int| 0 <= k < world@.len() implies (#[trigger] world@[k]).id == old(
            world,
        )@[k].id && world@[k].wf() by {
            assert(old(world)@[k].wf());
        }
        lemma_rewrite_keeps_wf(*old(world), *world);
    }
}

/// The entity one decay interval later: alive and with a hunger level, it
/// is one step hungrier, down to zero.
pub open spec fn starved_entity(e: EntityView) -> EntityView {
    match e.hunger_level {
        Some(h) if e.life is Alive => EntityView {
            hunger_level: Some(HungerLevel(decayed(h.0 as int) as u8)),
            ..e
        },
        _ => e,
    }
}

/// The world after hunger has been looked after at time `now`: one decay
/// interval later if a decay was due, else as before.
pub open spec fn starved(w: Seq<EntityView>, timer: HungerTimer, now: i64) -> Seq<EntityView> {
    if timer.due_at(now as int) {
        Seq::new(w.len(), |i: int| starved_entity(w[i]))
    } else {
        w
    }
}

/// The hunger timer after hunger has been looked after at time `now`: if a
/// decay was due, the next is due [`HUNGER_INTERVAL_MS`] after `now`.
pub open spec fn rearmed(timer: HungerTimer, now: i64) -> HungerTimer {
    if timer.due_at(now as int) {
        HungerTimer((now + HUNGER_INTERVAL_MS) as i64)
    } else {
        timer
    }
}

/// Lets hunger grow. If a decay is due, every living entity with a hunger
/// level above zero loses one step of it, and the next decay is due
/// [`HUNGER_INTERVAL_MS`] after `now`; else nothing changes. However often
/// this runs, hunger decays once per interval at most.
pub fn hunger_sys(world: &mut World, hunger_timer: &mut HungerTimer, now: i64)
    requires
        old(world).wf(),
        now <= MAX_TICK_TIME,
    ensures
        final(world).wf(),
        final(world).next_id == old(world).next_id,
        final(world)@ == starved(old(world)@, *old(hunger_timer), now),
        *final(hunger_timer) == rearmed(*old(hunger_timer), now),
{
    if !hunger_timer.is_due(now) {
        return ;
    }
    let mut i: usize = 0;
    while i < world.entities.len()
        invariant
            world.next_id == old(world).next_id,
            world.entities@.len() == old(world)@.len(),
            i <= world.entities@.len(),
            forall|j: int|
                0 <= j < i ==> (#[trigger] world.entities@[j])@ == starved_entity(old(world)@[j]),
            forall|j: int|
                i <= j < world.entities@.len() ==> (#[trigger] world.entities@[j])@ == old(
                    world,
                )@[j],
        decreases world.entities@.len() - i,
    {
        if let Some(level) = world.entities[i].hunger_level {
            if matches!(world.entities[i].life, Life::Alive) {
                world.entities[i].hunger_level = Some(level.decay());
            }
        }
        i += 1;
    }
    hunger_timer.0 = now + HUNGER_INTERVAL_MS;
    proof {
        assert(world@ =~= starved(old(world)@, *old(hunger_timer), now));
        assert forall|k: int| 0 <= k < world@.len() implies (#[trigger] world@[k]).id == old(
            world,
        )@[k].id && world@[k].wf() by {
            assert(old(world)@[k].wf());
        }
        lemma_rewrite_keeps_wf(*old(world), *world);
    }
}

/// Once hunger has decayed at time `now`, it does not decay again before
/// [`HUNGER_INTERVAL_MS`] have passed.
pub proof fn lemma_one_decay_per_interval(
    w: Seq<EntityView>,
    timer: HungerTimer,
    now: i64,
    again: i64,
)
    requires
        now <= MAX_TICK_TIME,
        timer.due_at(now as int),
        again < now + HUNGER_INTERVAL_MS,
    ensures
        starved(w, rearmed(timer, now), again) == w,
{
}

/// Reach of fear: two units.
pub const FLEE_RANGE: i32 = 2000;

/// A coward has taken fright at another entity.
#[derive(Debug, Clone, Copy, PartialEq, Eq, Structural)]
pub struct FleeSignal {
    /// The entity that flees.
    pub coward: u64,
    /// The entity it flees from.
    pub threat: u64,
}

/// The cowards that are alive.
pub open spec fn living_cowards() -> Filter {
    Filter { coward: Presence::With, alive: Presence::With, ..Filter::spec_any() }
}

/// The entities a coward fears: alive, no cowards themselves, and on the
/// move.
pub open spec fn threats() -> Filter {
    Filter {
        coward: Presence::Without,
        alive: Presence::With,
        moved: Presence::With,
        ..Filter::spec_any()
    }
}

/// The fright of entity `i`: if it is a living coward, the first threat
/// within [`FLEE_RANGE`] of it.
pub open spec fn frights(w: Seq<EntityView>) -> spec_fn(int) -> Option<FleeSignal> {
    |i: int|
        if living_cowards().admits(w[i]) {
            match first_match(w, near(threats(), w[i].position, FLEE_RANGE as int)) {
                Some(t) => Some(FleeSignal { coward: w[i].id, threat: w[t].id }),
                None => None,
            }
        } else {
            None
        }
}

fn living_cowards_filter() -> (f: Filter)
    ensures
        f == living_cowards(),
{
    Filter { coward: Presence::With, alive: Presence::With, ..Filter::any() }
}

fn threats_filter() -> (f: Filter)
    ensures
        f == threats(),
{
    Filter {
        coward: Presence::Without,
        alive: Presence::With,
        moved: Presence::With,
        ..Filter::any()
    }
}

/// Finds out who flees. Every living coward takes fright at the first
/// living entity within [`FLEE_RANGE`] that is no coward and has moved
/// since the last tick. The frights come in spawn order of the cowards.
pub fn coward_sys(world: &World) -> (signals: Vec<FleeSignal>)
    ensures
        signals@ == collected(world@.len() as int, frights(world@)),
{
    let cowards = living_cowards_filter();
    let feared = threats_filter();
    let mut signals: Vec<FleeSignal> = Vec::new();
    let mut i: usize = 0;
    while i < world.entities.len()
        invariant
            cowards == living_cowards(),
            feared == threats(),
            i <= world.entities@.len(),
            signals@ == collected(i as int, frights(world@)),
        decreases world.entities@.len() - i,
    {
        let e = &world.entities[i];
        assert(world@[i as int] == e@);
        if cowards.matches(e) {
            let found = world.first_near(&feared, &e.position, FLEE_RANGE);
            proof {
                lemma_first_match(
                    world@,
                    near(threats(), e.position, FLEE_RANGE as int),
                    match found {
                        Some(k) => Some(k as int),
                        None => None,
                    },
                );
            }
            if let Some(t) = found {
                assert(world@[t as int] == world.entities@[t as int]@);
                signals.push(FleeSignal { coward: e.id, threat: world.entities[t].id });
            }
        }
        i += 1;
    }
    signals
}

/// The entity after the host's word on the living has been heard: alive,
/// and reported not alive, it is dead.
pub open spec fn mourned_entity(e: EntityView, reports: Seq<HostReport>) -> EntityView {
    if e.life is Alive && (report_on(reports, e.id) matches Some(r) && r.is_alive == Some(false)) {
        EntityView { life: Life::Dead, ..e }
    } else {
        e
    }
}

/// The world after the host's word on the living has been heard.
pub open spec fn mourned(w: Seq<EntityView>, reports: Seq<HostReport>) -> Seq<EntityView> {
    Seq::new(w.len(), |i: int| mourned_entity(w[i], reports))
}

/// Marks as dead every living entity that the host reports as not alive.
/// The dead, and entities without a report, stay as they are.
pub fn check_aliveness_sys(world: &mut World, reports: &Vec<HostReport>)
    requires
        old(world).wf(),
    ensures
        final(world).wf(),
        final(world).next_id == old(world).next_id,
        final(world)@ == mourned(old(world)@, reports@),
{
    let mut i: usize = 0;
    while i < world.entities.len()
        invariant
            world.next_id == old(world).next_id,
            world.entities@.len() == old(world)@.len(),
            i <= world.entities@.len(),
            forall|j: int|
                0 <= j < i ==> (#[trigger] world.entities@[j])@ == mourned_entity(
                    old(world)@[j],
                    reports@,
                ),
            forall|j: int|
                i <= j < world.entities@.len() ==> (#[trigger] world.entities@[j])@ == old(
                    world,
                )@[j],
        decreases world.entities@.len() - i,
    {
        if matches!(world.entities[i].life, Life::Alive) {
            if let Some(report) = find_report(reports, world.entities[i].id) {
                if let Some(false) = report.is_alive {
                    world.entities[i].life = Life::Dead;
                }
            }
        }
        i += 1;
    }
    proof {
        assert(world@ =~= mourned(old(world)@, reports@));
        assert forall|k: int| 0 <= k < world@.len() implies (#[trigger] world@[k]).id == old(
            world,
        )@[k].id && world@[k].wf() by {
            assert(old(world)@[k].wf());
        }
        lemma_rewrite_keeps_wf(*old(world), *world);
    }
}

/// The entity after the host's word on the revived has been heard: dead,
/// and reported alive, it is alive.
pub open spec fn revived_entity(e: EntityView, reports: Seq<HostReport>) -> EntityView {
    if e.life is Dead && (report_on(reports, e.id) matches Some(r) && r.is_alive == Some(true)) {
        EntityView { life: Life::Alive, ..e }
    } else {
        e
    }
}

/// The world after the host's word on the revived has been heard.
pub open spec fn revived(w: Seq<EntityView>, reports: Seq<HostReport>) -> Seq<EntityView> {
    Seq::new(w.len(), |i: int| revived_entity(w[i], reports))
}

/// Marks as alive every dead entity that the host reports as alive. The
/// living, and entities without a report, stay as they are.
pub fn check_player_revived_sys(world: &mut World, reports: &Vec<HostReport>)
    requires
        old(world).wf(),
    ensures
        final(world).wf(),
        final(world).next_id == old(world).next_id,
        final(world)@ == revived(old(world)@, reports@),
{
    let mut i: usize = 0;
    while i < world.entities.len()
        invariant
            world.next_id == old(world).next_id,
            world.entities@.len() == old(world)@.len(),
            i <= world.entities@.len(),
            forall|j: int|
                0 <= j < i ==> (#[trigger] world.entities@[j])@ == revived_entity(
                    old(world)@[j],
                    reports@,
                ),
            forall|j: int|
                i <= j < world.entities@.len() ==> (#[trigger] world.entities@[j])@ == old(
                    world,
                )@[j],
        decreases world.entities@.len() - i,
    {
        if matches!(world.entities[i].life, Life::Dead) {
            if let Some(report) = find_report(reports, world.entities[i].id) {
                if let Some(true) = report.is_alive {
                    world.entities[i].life = Life::Alive;
                }
            }
        }
        i += 1;
    }
    proof {
        assert(world@ =~= revived(old(world)@, reports@));
        assert forall|k: int| 0 <= k < world@.len() implies (#[trigger] world@[k]).id == old(
            world,
        )@[k].id && world@[k].wf() by {
            assert(old(world)@[k].wf());
        }
        lemma_rewrite_keeps_wf(*old(world), *world);
    }
}

/// The two liveness systems never undo each other: whichever runs first,
/// the outcome is the same, and running either a second time changes
/// nothing.
pub proof fn lemma_liveness_sync_commutes(w: Seq<EntityView>, reports: Seq<HostReport>)
    ensures
        mourned(revived(w, reports), reports) == revived(mourned(w, reports), reports),
        mourned(mourned(w, reports), reports) == mourned(w, reports),
        revived(revived(w, reports), reports) == revived(w, reports),
{
    assert(mourned(revived(w, reports), reports) =~= revived(mourned(w, reports), reports));
    assert(mourned(mourned(w, reports), reports) =~= mourned(w, reports));
    assert(revived(revived(w, reports), reports) =~= revived(w, reports));
}

/// One zombie is to follow one player.
#[derive(Debug, Clone, Copy, PartialEq, Eq, Structural)]
pub struct Chase {
    /// The host's name for the zombie.
    pub follower: EntityHandle,
    /// The host's name for the player.
    pub leader: EntityHandle,
}

/// Zombie `i` follows entity `j` where that is a player.
pub open spec fn chases(w: Seq<EntityView>, i: int) -> spec_fn(int) -> Option<Chase> {
    |j: int|
        if w[j].kind is Player {
            Some(Chase { follower: w[i].handle, leader: w[j].handle })
        } else {
            None
        }
}

/// The chases of the zombies among the first `n` entities: every zombie, in
/// spawn order, follows every player, in spawn order.
pub open spec fn all_chases(w: Seq<EntityView>, n: int) -> Seq<Chase>
    decreases n,
{
    if n <= 0 {
        Seq::empty()
    } else if w[n - 1].kind is Zombie {
        all_chases(w, n - 1) + collected(w.len() as int, chases(w, n - 1))
    } else {
        all_chases(w, n - 1)
    }
}

/// Pairs every zombie with every player, for the host to send the one
/// after the other.
pub fn test_follow(world: &World) -> (pairs: Vec<Chase>)
    ensures
        pairs@ == all_chases(world@, world@.len() as int),
{
    let mut pairs: Vec<Chase> = Vec::new();
    let mut i: usize = 0;
    while i < world.entities.len()
        invariant
            i <= world.entities@.len(),
            pairs@ == all_chases(world@, i as int),
        decreases world.entities@.len() - i,
    {
        assert(world@[i as int] == world.entities@[i as int]@);
        if matches!(world.entities[i].kind, EntityKind::Zombie) {
            let follower = world.entities[i].handle;
            let ghost before = pairs@;
            let mut j: usize = 0;
            assert(pairs@ =~= before + collected(0, chases(world@, i as int)));
            while j < world.entities.len()
                invariant
                    i < world.entities@.len(),
                    j <= world.entities@.len(),
                    follower == world@[i as int].handle,
                    pairs@ == before + collected(j as int, chases(world@, i as int)),
                decreases world.entities@.len() - j,
            {
                assert(world@[j as int] == world.entities@[j as int]@);
                if matches!(world.entities[j].kind, EntityKind::Player) {
                    pairs.push(Chase { follower, leader: world.entities[j].handle });
                    assert(pairs@ =~= before + collected(
                        (j + 1) as int,
                        chases(world@, i as int),
                    ));
                }
                j += 1;
            }
        }
        i += 1;
    }
    pairs
}

} // verus!
