//! What all behaviour systems share.

use vstd::prelude::*;
use crate::commands::{issued, lemma_issued_push, HostCommand, HostCommandView};
use crate::components::{in_radius, EntityKind, Life, Position};
use crate::world::{
    first_match, lemma_first_match, lemma_remove_keeps_ids, lemma_rewrite_keeps_ids, placed_at,
    same_position, within, EntityView, World,
};

verus! {

/// What the first `n` entities of a world give rise to, in order, where
/// `each(i)` is what entity `i` gives rise to, if anything.
pub open spec fn collected<T>(n: int, each: spec_fn(int) -> Option<T>) -> Seq<T>
    decreases n,
{
    if n <= 0 {
        Seq::empty()
    } else {
        match each(n - 1) {
            Some(c) => collected(n - 1, each).push(c),
            None => collected(n - 1, each),
        }
    }
}

/// Issues `command` after those already issued for the first `n` entities.
pub(crate) fn issue(
    commands: &mut Vec<HostCommand>,
    command: HostCommand,
    Ghost(before): Ghost<Seq<HostCommandView>>,
    Ghost(n): Ghost<int>,
    Ghost(each): Ghost<spec_fn(int) -> Option<HostCommandView>>,
)
    requires
        n >= 0,
        issued(old(commands)@) == before + collected(n, each),
        each(n) == Some(command@),
    ensures
        issued(final(commands)@) == before + collected(n + 1, each),
{
    proof {
        lemma_issued_push(commands@, command);
        assert((before + collected(n, each)).push(command@) =~= before + collected(n, each).push(
            command@,
        ));
    }
    commands.push(command);
}

/// What the host reads off one of its entities between two ticks. A field
/// is `None` where the host could not tell.
#[derive(Debug, Clone, Copy, PartialEq, Eq, Structural)]
pub struct HostReport {
    /// The entity the report is about.
    pub id: u64,
    pub position: Option<Position>,
    pub is_alive: Option<bool>,
}

/// The reports about the entity known as `id`.
pub open spec fn about(id: u64) -> spec_fn(HostReport) -> bool {
    |r: HostReport| r.id == id
}

/// The report that counts for the entity known as `id`: the first about it.
pub open spec fn report_on(reports: Seq<HostReport>, id: u64) -> Option<HostReport> {
    match first_match(reports, about(id)) {
        Some(k) => Some(reports[k]),
        None => None,
    }
}

/// The report that counts for the entity known as `id`.
pub fn find_report(reports: &Vec<HostReport>, id: u64) -> (found: Option<HostReport>)
    ensures
        found == report_on(reports@, id),
{
    let mut i: usize = 0;
    while i < reports.len()
        invariant
            i <= reports@.len(),
            forall|j: int| 0 <= j < i ==> !about(id)(#[trigger] reports@[j]),
        decreases reports@.len() - i,
    {
        if reports[i].id == id {
            proof {
                lemma_first_match(reports@, about(id), Some(i as int));
            }
            return Some(reports[i]);
        }
        i += 1;
    }
    proof {
        lemma_first_match(reports@, about(id), None);
    }
    None
}

/// A world whose entities were rewritten in place, each keeping its
/// identifier and staying well formed, is consistent as before.
pub proof fn lemma_rewrite_keeps_wf(before: World, after: World)
    requires
        before.wf(),
        after.next_id == before.next_id,
        after@.len() == before@.len(),
        forall|i: int|
            0 <= i < before@.len() ==> (#[trigger] after@[i]).id == before@[i].id && after@[i].wf(),
    ensures
        after.wf(),
{
    lemma_rewrite_keeps_ids(before@, after@, before.next_id);
}

/// Whether `enemi_pos` lies within `radius` of `player_pos` on the x axis and
/// on the z axis. This is a square test, cheaper than a distance; height
/// plays no part in it.
pub fn is_pos_in_radius(radius: i32, player_pos: &Position, enemi_pos: &Position) -> (r: bool)
    ensures
        r == in_radius(radius as int, *player_pos, *enemi_pos),
{
    within(radius, player_pos, enemi_pos)
}

/// The entity after the host's word on positions has been heard: alive,
/// and reported at a position, it stands there, and counts as moved if that
/// is not where it stood.
pub open spec fn relocated_entity(e: EntityView, reports: Seq<HostReport>) -> EntityView {
    match report_on(reports, e.id) {
        Some(HostReport { position: Some(p), .. }) if e.life is Alive => placed_at(e, p),
        _ => e,
    }
}

/// The world after the host's word on positions has been heard.
pub open spec fn relocated(w: Seq<EntityView>, reports: Seq<HostReport>) -> Seq<EntityView> {
    Seq::new(w.len(), |i: int| relocated_entity(w[i], reports))
}

/// Brings the positions of the living up to date with the host's reports.
/// An entity whose reported position is new counts as moved.
pub fn track_positions(world: &mut World, reports: &Vec<HostReport>)
    requires
        old(world).wf(),
    ensures
        final(world).wf(),
        final(world).next_id == old(world).next_id,
        final(world)@ == relocated(old(world)@, reports@),
{
    let mut i: usize = 0;
    while i < world.entities.len()
        invariant
            world.next_id == old(world).next_id,
            world.entities@.len() == old(world)@.len(),
            i <= world.entities@.len(),
            forall|j: int|
                0 <= j < i ==> (#[trigger] world.entities@[j])@ == relocated_entity(
                    old(world)@[j],
                    reports@,
                ),
            forall|j: int|
                i <= j < world.entities@.len() ==> (#[trigger] world.entities@[j])@ == old(
                    world,
                )@[j],
        decreases world.entities@.len() - i,
    {
        if matches!(world.entities[i].life, Life::Alive) {
            if let Some(report) = find_report(reports, world.entities[i].id) {
                if let Some(pos) = report.position {
                    if !same_position(&pos, &world.entities[i].position) {
                        world.entities[i].position = pos;
                        world.entities[i].moved = true;
                    }
                }
            }
        }
        i += 1;
    }
    proof {
        assert(world@ =~= relocated(old(world)@, reports@));
        assert forall|k: int| 0 <= k < world@.len() implies (#[trigger] world@[k]).id == old(
            world,
        )@[k].id && world@[k].wf() by {
            assert(old(world)@[k].wf());
        }
        lemma_rewrite_keeps_wf(*old(world), *world);
    }
}

/// The lifetime of the entity has run out at time `now`: it is a trap with
/// a despawn timer, and the timer has expired.
pub open spec fn lapsed(e: EntityView, now: i64) -> bool {
    &&& e.kind is Trap
    &&& e.despawn_cooldown matches Some(d) && d.expired_at(now as int)
}

/// Entity `i` where it stays in the world at time `now`.
pub open spec fn survivors(w: Seq<EntityView>, now: i64) -> spec_fn(int) -> Option<EntityView> {
    |i: int|
        if lapsed(w[i], now) {
            None
        } else {
            Some(w[i])
        }
}

/// The command that goes with the end of a lifetime: the host entity is
/// torn down.
pub open spec fn destroy_commands(w: Seq<EntityView>, now: i64) -> spec_fn(int) -> Option<
    HostCommandView,
> {
    |i: int|
        if lapsed(w[i], now) {
            Some(HostCommandView::Destroy { handle: w[i].handle })
        } else {
            None
        }
}

/// What is collected from a world is no longer than the world.
pub proof fn lemma_collected_len<T>(n: int, each: spec_fn(int) -> Option<T>)
    requires
        n >= 0,
    ensures
        collected(n, each).len() <= n,
    decreases n,
{
    if n > 0 {
        lemma_collected_len(n - 1, each);
    }
}

/// Removes the traps whose lifetime has run out, with all their
/// components, and has the host tear each of them down. No other system
/// tears a host entity down.
pub fn despawn_inactive(world: &mut World, now: i64, commands: &mut Vec<HostCommand>)
    requires
        old(world).wf(),
    ensures
        final(world).wf(),
        final(world).next_id == old(world).next_id,
        final(world)@ == collected(old(world)@.len() as int, survivors(old(world)@, now)),
        issued(final(commands)@) == issued(old(commands)@) + collected(
            old(world)@.len() as int,
            destroy_commands(old(world)@, now),
        ),
{
    let mut i: usize = 0;
    let ghost mut j: int = 0;
    assert(issued(commands@) =~= issued(old(commands)@) + collected(
        0,
        destroy_commands(old(world)@, now),
    ));
    assert(world@ =~= collected(0, survivors(old(world)@, now)) + old(world)@.skip(0));
    while i < world.entities.len()
        invariant
            world.wf(),
            world.next_id == old(world).next_id,
            0 <= j <= old(world)@.len(),
            i <= j,
            collected(j, survivors(old(world)@, now)).len() == i,
            world@ == collected(j, survivors(old(world)@, now)) + old(world)@.skip(j),
            issued(commands@) == issued(old(commands)@) + collected(
                j,
                destroy_commands(old(world)@, now),
            ),
        decreases old(world)@.len() - j,
    {
        let ghost here = world@;
        assert(here[i as int] == old(world)@.skip(j)[0]);
        assert(world@[i as int] == world.entities@[i as int]@);
        let e = &world.entities[i];
        let gone = match (&e.kind, &e.despawn_cooldown) {
            (EntityKind::Trap(_), Some(timer)) => timer.has_expired(now),
            _ => false,
        };
        assert(gone == lapsed(old(world)@[j], now));
        if gone {
            let handle = e.handle;
            world.entities.remove(i);
            proof {
                assert(world@ =~= here.remove(i as int));
                lemma_remove_keeps_ids(here, i as int, world.next_id);
                assert forall|k: int| 0 <= k < world@.len() implies (#[trigger] world@[k]).wf() by {
                    let k0 = if k < i { k } else { k + 1 };
                    assert(here[k0].wf());
                }
                assert(world@ =~= collected(j + 1, survivors(old(world)@, now)) + old(
                    world,
                )@.skip(j + 1));
            }
            issue(
                commands,
                HostCommand::Destroy { handle },
                Ghost(issued(old(commands)@)),
                Ghost(j),
                Ghost(destroy_commands(old(world)@, now)),
            );
        } else {
            proof {
                assert(world@ =~= collected(j + 1, survivors(old(world)@, now)) + old(
                    world,
                )@.skip(j + 1));
            }
            i += 1;
        }
        proof {
            j = j + 1;
        }
    }
    proof {
        lemma_collected_len(old(world)@.len() as int, survivors(old(world)@, now));
        assert(j == old(world)@.len());
        assert(world@ =~= collected(j, survivors(old(world)@, now)));
    }
}

/// Every entity that stays was in the world before, and its lifetime has
/// not run out.
pub proof fn lemma_survivors_stayed(w: Seq<EntityView>, now: i64, n: int, k: int)
    requires
        0 <= n <= w.len(),
        0 <= k < collected(n, survivors(w, now)).len(),
    ensures
        exists|j: int|
            0 <= j < n && #[trigger] w[j] == collected(n, survivors(w, now))[k] && !lapsed(
                w[j],
                now,
            ),
    decreases n,
{
    if n > 0 {
        let rest = collected(n - 1, survivors(w, now));
        if k < rest.len() {
            lemma_survivors_stayed(w, now, n - 1, k);
            let j = choose|j: int|
                0 <= j < n - 1 && #[trigger] w[j] == rest[k] && !lapsed(w[j], now);
            assert(w[j] == collected(n, survivors(w, now))[k]);
        } else {
            assert(w[n - 1] == collected(n, survivors(w, now))[k]);
        }
    }
}

/// Nothing is collected from a world none of whose entities gives rise to
/// anything.
pub proof fn lemma_collected_nothing<T>(n: int, each: spec_fn(int) -> Option<T>)
    requires
        forall|i: int| 0 <= i < n ==> #[trigger] each(i) is None,
    ensures
        collected(n, each) == Seq::<T>::empty(),
    decreases n,
{
    if n > 0 {
        lemma_collected_nothing(n - 1, each);
    }
}

/// Every entity either stays or is torn down, never both and never twice.
pub proof fn lemma_stay_or_go(w: Seq<EntityView>, now: i64, n: int)
    requires
        0 <= n <= w.len(),
    ensures
        collected(n, survivors(w, now)).len() + collected(n, destroy_commands(w, now)).len() == n,
    decreases n,
{
    if n > 0 {
        lemma_stay_or_go(w, now, n - 1);
    }
}

/// A trap whose lifetime has run out is torn down and removed exactly
/// once. After the pass at time `now` no entity of the world carries the
/// identifier of a trap that had lapsed, no entity left has lapsed, the
/// pass has issued one command for each entity it removed, and a second
/// pass at that time would issue none.
pub proof fn lemma_despawned_once(w: Seq<EntityView>, next_id: u64, now: i64, i: int)
    requires
        crate::world::ids_ascend(w, next_id),
        0 <= i < w.len(),
        lapsed(w[i], now),
    ensures
        ({
            let after = collected(w.len() as int, survivors(w, now));
            &&& forall|k: int| 0 <= k < after.len() ==> (#[trigger] after[k]).id != w[i].id
            &&& forall|k: int| 0 <= k < after.len() ==> !lapsed(#[trigger] after[k], now)
            &&& after.len() + collected(w.len() as int, destroy_commands(w, now)).len() == w.len()
            &&& collected(after.len() as int, destroy_commands(after, now)) == Seq::<
                HostCommandView,
            >::empty()
        }),
{
    let after = collected(w.len() as int, survivors(w, now));
    assert forall|k: int| 0 <= k < after.len() implies (#[trigger] after[k]).id != w[i].id
        && !lapsed(after[k], now) by {
        lemma_survivors_stayed(w, now, w.len() as int, k);
        let j = choose|j: int|
            0 <= j < w.len() && #[trigger] w[j] == after[k] && !lapsed(w[j], now);
        if j < i {
            assert(w[j].id < w[i].id);
        } else {
            assert(w[i].id < w[j].id);
        }
    }
    lemma_stay_or_go(w, now, w.len() as int);
    assert forall|k: int| 0 <= k < after.len() implies #[trigger] destroy_commands(after, now)(k)
        is None by {
        assert(!lapsed(after[k], now));
    }
    lemma_collected_nothing(after.len() as int, destroy_commands(after, now));
}

} // verus!
