//! Traps.

use vstd::prelude::*;
use crate::commands::{issued, HostCommand, HostCommandView};
use crate::components::{Cooldown, DespawnCooldown, EntityKind};
use crate::systems::common::{collected, issue, lemma_rewrite_keeps_wf};
use crate::world::{
    first_match, lemma_first_match_agrees, near, EntityView, Filter, Presence, World,
};

verus! {

/// The entities a trap goes off under: alive, on the move, and known to
/// the host as a character.
pub open spec fn victims() -> Filter {
    Filter {
        alive: Presence::With,
        moved: Presence::With,
        character_id: Presence::With,
        ..Filter::spec_any()
    }
}

/// The place of the entity under which trap `i` goes off at time `now`: the
/// first victim within the trap's radius, where `i` is a trap with a
/// cooldown that is not running.
pub open spec fn victim(w: Seq<EntityView>, i: int, now: i64) -> Option<int> {
    match (w[i].kind, w[i].cooldown) {
        (EntityKind::Trap(trap), Some(cooldown)) if !cooldown.in_cooldown_at(now as int) => {
            first_match(w, near(victims(), w[i].position, trap.0 as int))
        },
        _ => None,
    }
}

/// Entity `i` after traps have been sprung at time `now`: a trap that went
/// off starts its cooldown at `now`, and its despawn timer, if it has one,
/// has seen activity at `now`.
pub open spec fn sprung_entity(w: Seq<EntityView>, i: int, now: i64) -> EntityView {
    match victim(w, i, now) {
        Some(_) => EntityView {
            cooldown: Some(Cooldown { last: now, cooldown: w[i].cooldown->0.cooldown }),
            despawn_cooldown: match w[i].despawn_cooldown {
                Some(timer) => Some(DespawnCooldown { last_activity: now, ttl: timer.ttl }),
                None => None,
            },
            ..w[i]
        },
        None => w[i],
    }
}

/// The world after traps have been sprung at time `now`.
pub open spec fn sprung(w: Seq<EntityView>, now: i64) -> Seq<EntityView> {
    Seq::new(w.len(), |i: int| sprung_entity(w, i, now))
}

/// The command that goes with a trap going off: it detonates under its
/// victim.
pub open spec fn trap_commands(w: Seq<EntityView>, now: i64) -> spec_fn(int) -> Option<
    HostCommandView,
> {
    |i: int|
        match victim(w, i, now) {
            Some(v) => Some(
                HostCommandView::Detonate {
                    handle: w[i].handle,
                    character_id: w[v].character_id->0,
                },
            ),
            None => None,
        }
}

fn victims_filter() -> (f: Filter)
    ensures
        f == victims(),
{
    Filter {
        alive: Presence::With,
        moved: Presence::With,
        character_id: Presence::With,
        ..Filter::any()
    }
}

/// Springs traps. Every trap whose cooldown is not running goes off under
/// the first living character within its radius that has moved since the
/// last tick, if there is one: it detonates, once, its cooldown starts at
/// `now`, and its despawn timer sees activity.
pub fn trap_sys(world: &mut World, now: i64, commands: &mut Vec<HostCommand>)
    requires
        old(world).wf(),
    ensures
        final(world).wf(),
        final(world).next_id == old(world).next_id,
        final(world)@ == sprung(old(world)@, now),
        issued(final(commands)@) == issued(old(commands)@) + collected(
            old(world)@.len() as int,
            trap_commands(old(world)@, now),
        ),
{
    let prey = victims_filter();
    let mut i: usize = 0;
    assert(issued(commands@) =~= issued(old(commands)@) + collected(
        0,
        trap_commands(old(world)@, now),
    ));
    while i < world.entities.len()
        invariant
            prey == victims(),
            world.next_id == old(world).next_id,
            world.entities@.len() == old(world)@.len(),
            i <= world.entities@.len(),
            forall|j: int|
                0 <= j < i ==> (#[trigger] world.entities@[j])@ == sprung_entity(
                    old(world)@,
                    j,
                    now,
                ),
            forall|j: int|
                i <= j < world.entities@.len() ==> (#[trigger] world.entities@[j])@ == old(
                    world,
                )@[j],
            issued(commands@) == issued(old(commands)@) + collected(
                i as int,
                trap_commands(old(world)@, now),
            ),
        decreases world.entities@.len() - i,
    {
        let mut blast: Option<HostCommand> = None;
        if let (EntityKind::Trap(trap), Some(cooldown)) = (
            world.entities[i].kind,
            world.entities[i].cooldown,
        ) {
            if !cooldown.is_in_cooldown(now) {
                let center = world.entities[i].position;
                let found = world.first_near(&prey, &center, trap.0);
                proof {
                    let wanted = near(victims(), center, trap.0 as int);
                    assert forall|j: int| 0 <= j < world@.len() implies wanted(
                        #[trigger] world@[j],
                    ) == wanted(old(world)@[j]) by {
                        assert(world@[j] == world.entities@[j]@);
                    }
                    lemma_first_match_agrees(
                        world@,
                        old(world)@,
                        wanted,
                        match found {
                            Some(k) => Some(k as int),
                            None => None,
                        },
                    );
                }
                if let Some(v) = found {
                    assert(world.entities@[v as int]@.character_id == old(
                        world,
                    )@[v as int].character_id);
                    assert(world@[v as int] == world.entities@[v as int]@);
                    if let Some(c) = &world.entities[v].character_id {
                        blast = Some(
                            HostCommand::Detonate {
                                handle: world.entities[i].handle,
                                character_id: c.duplicate(),
                            },
                        );
                    }
                    world.entities[i].cooldown = Some(
                        Cooldown { last: now, cooldown: cooldown.cooldown },
                    );
                    if let Some(timer) = world.entities[i].despawn_cooldown {
                        let mut timer = timer;
                        timer.register_activity(now);
                        world.entities[i].despawn_cooldown = Some(timer);
                    }
                }
            }
        }
        if let Some(command) = blast {
            issue(
                commands,
                command,
                Ghost(issued(old(commands)@)),
                Ghost(i as int),
                Ghost(trap_commands(old(world)@, now)),
            );
        }
        i += 1;
    }
    proof {
        assert(world@ =~= sprung(old(world)@, now));
        assert forall|k: int| 0 <= k < world@.len() implies (#[trigger] world@[k]).id == old(
            world,
        )@[k].id && world@[k].wf() by {
            assert(old(world)@[k].wf());
        }
        lemma_rewrite_keeps_wf(*old(world), *world);
    }
}

/// A trap that has just gone off stays quiet for its cooldown. Let trap `i`
/// go off at time `now`, and let `later` be any world in which its cooldown
/// is as that left it. Then at any time before `now` plus the cooldown's
/// period the trap does not go off, whoever stands in its radius.
pub proof fn lemma_trap_rests(
    before: Seq<EntityView>,
    i: int,
    now: i64,
    later: Seq<EntityView>,
    again: i64,
)
    requires
        0 <= i < before.len(),
        i < later.len(),
        victim(before, i, now) is Some,
        later[i].cooldown == sprung(before, now)[i].cooldown,
        again < now + before[i].cooldown->0.cooldown,
    ensures
        victim(later, i, again) is None,
        trap_commands(later, again)(i) is None,
        sprung(later, again)[i] == later[i],
{
}

} // verus!
