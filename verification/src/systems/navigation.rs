//! Movement along the navigation mesh: where an entity stands, what it
//! hunts, by which polygons it gets there, and the walking itself.

use vstd::prelude::*;
use crate::commands::{issued, HostCommand, HostCommandView};
use crate::components::Position;
use crate::navmesh::{cell_of, NavCellView, NavMesh};
use crate::pathfinding::{a_star, route};
use crate::systems::common::{collected, issue, lemma_rewrite_keeps_wf};
use crate::world::{placed_at, same_position, BreadScrumPath, EntityView, World};

verus! {

/// How far above a waypoint the host is sent: half a unit.
pub const WAYPOINT_LIFT: i32 = 500;

/// The point [`WAYPOINT_LIFT`] above `p`, or as far above as heights go.
pub open spec fn lifted(p: Position) -> Position {
    Position {
        y: if p.y + WAYPOINT_LIFT > i32::MAX {
            i32::MAX
        } else {
            (p.y + WAYPOINT_LIFT) as i32
        },
        ..p
    }
}

/// The next waypoint of the entity: the first corner of the first polygon
/// of its path, in the cell it stands in. `None` where the path is empty,
/// or the entity stands in no cell of the mesh, or the polygon has no first
/// corner among the cell's nodes.
pub open spec fn waypoint(e: EntityView, mesh: Seq<NavCellView>) -> Option<Position> {
    match (e.path, e.current_cell) {
        (Some(q), Some(c)) if q.len() > 0 && c < mesh.len() => mesh[c as int].corner(
            q[0] as int,
            0,
        ),
        _ => None,
    }
}

/// The entity after one step of walking: with a waypoint, it stands there
/// and has the first polygon of its path behind it; with a path but no
/// waypoint, it has no path any longer.
pub open spec fn walked_entity(e: EntityView, mesh: Seq<NavCellView>) -> EntityView {
    match e.path {
        Some(q) => match waypoint(e, mesh) {
            Some(p) => EntityView { path: Some(q.remove(0)), ..placed_at(e, p) },
            None => EntityView { path: None, ..e },
        },
        None => e,
    }
}

/// The world after one step of walking.
pub open spec fn walked(w: Seq<EntityView>, mesh: Seq<NavCellView>) -> Seq<EntityView> {
    Seq::new(w.len(), |i: int| walked_entity(w[i], mesh))
}

/// The command that goes with a step: the host is sent to the point
/// [`WAYPOINT_LIFT`] above the waypoint.
pub open spec fn walk_commands(w: Seq<EntityView>, mesh: Seq<NavCellView>) -> spec_fn(int) -> Option<
    HostCommandView,
> {
    |i: int|
        match waypoint(w[i], mesh) {
            Some(p) => Some(HostCommandView::GoTo { handle: w[i].handle, position: lifted(p) }),
            None => None,
        }
}

fn lift(p: &Position) -> (q: Position)
    ensures
        q == lifted(*p),
{
    Position {
        x: p.x,
        y: if p.y > i32::MAX - WAYPOINT_LIFT {
            i32::MAX
        } else {
            p.y + WAYPOINT_LIFT
        },
        z: p.z,
    }
}

/// Walks. Every entity with a path goes to its next waypoint: the host is
/// sent there, the entity counts as standing there already, and the polygon
/// is taken off the path. An entity whose path is empty, or whose waypoint
/// cannot be found, loses its path: it has arrived, or has lost its way.
pub fn follow_breadscrum(world: &mut World, mesh: &NavMesh, commands: &mut Vec<HostCommand>)
    requires
        old(world).wf(),
    ensures
        final(world).wf(),
        final(world).next_id == old(world).next_id,
        final(world)@ == walked(old(world)@, mesh@),
        issued(final(commands)@) == issued(old(commands)@) + collected(
            old(world)@.len() as int,
            walk_commands(old(world)@, mesh@),
        ),
{
    let mut i: usize = 0;
    assert(issued(commands@) =~= issued(old(commands)@) + collected(
        0,
        walk_commands(old(world)@, mesh@),
    ));
    while i < world.entities.len()
        invariant
            world.next_id == old(world).next_id,
            world.entities@.len() == old(world)@.len(),
            i <= world.entities@.len(),
            forall|j: int|
                0 <= j < i ==> (#[trigger] world.entities@[j])@ == walked_entity(
                    old(world)@[j],
                    mesh@,
                ),
            forall|j: int|
                i <= j < world.entities@.len() ==> (#[trigger] world.entities@[j])@ == old(
                    world,
                )@[j],
            issued(commands@) == issued(old(commands)@) + collected(
                i as int,
                walk_commands(old(world)@, mesh@),
            ),
        decreases world.entities@.len() - i,
    {
        let ghost before = world.entities@[i as int]@;
        let cell = world.entities[i].current_cell;
        let mut order: Option<HostCommand> = None;
        if let Some(mut queue) = world.entities[i].path.take() {
            let mut next: Option<Position> = None;
            if queue.0.len() > 0 {
                if let Some(c) = cell {
                    if c < mesh.cells.len() {
                        assert(mesh@[c as int] == mesh.cells@[c as int]@);
                        next = mesh.cells[c].corner(queue.0[0], 0);
                    }
                }
            }
            assert(next == waypoint(before, mesh@));
            if let Some(p) = next {
                queue.0.remove(0);
                if !same_position(&world.entities[i].position, &p) {
                    world.entities[i].position = p;
                    world.entities[i].moved = true;
                }
                order = Some(HostCommand::GoTo { handle: world.entities[i].handle, position: lift(&p) });
                world.entities[i].path = Some(queue);
            }
        }
        assert(world.entities@[i as int]@ == walked_entity(before, mesh@));
        if let Some(command) = order {
            issue(
                commands,
                command,
                Ghost(issued(old(commands)@)),
                Ghost(i as int),
                Ghost(walk_commands(old(world)@, mesh@)),
            );
        }
        i += 1;
    }
    proof {
        assert(world@ =~= walked(old(world)@, mesh@));
        assert forall|k: int| 0 <= k < world@.len() implies (#[trigger] world@[k]).id == old(
            world,
        )@[k].id && world@[k].wf() by {
            assert(old(world)@[k].wf());
        }
        lemma_rewrite_keeps_wf(*old(world), *world);
    }
}

/// The entity after cells have been looked up: if it has moved, its
/// current cell is the one its position lies in, if any.
pub open spec fn located_entity(e: EntityView, mesh: Seq<NavCellView>) -> EntityView {
    if e.moved {
        EntityView {
            current_cell: match cell_of(mesh, e.position) {
                Some(c) => Some(c as usize),
                None => None,
            },
            ..e
        }
    } else {
        e
    }
}

/// The world after cells have been looked up.
pub open spec fn located(w: Seq<EntityView>, mesh: Seq<NavCellView>) -> Seq<EntityView> {
    Seq::new(w.len(), |i: int| located_entity(w[i], mesh))
}

/// Looks up, for every entity that has moved, the cell it stands in.
/// Entities that have not moved keep the cell they had.
pub fn update_current_cell(world: &mut World, mesh: &NavMesh)
    requires
        old(world).wf(),
    ensures
        final(world).wf(),
        final(world).next_id == old(world).next_id,
        final(world)@ == located(old(world)@, mesh@),
{
    let mut i: usize = 0;
    while i < world.entities.len()
        invariant
            world.next_id == old(world).next_id,
            world.entities@.len() == old(world)@.len(),
            i <= world.entities@.len(),
            forall|j: int|
                0 <= j < i ==> (#[trigger] world.entities@[j])@ == located_entity(
                    old(world)@[j],
                    mesh@,
                ),
            forall|j: int|
                i <= j < world.entities@.len() ==> (#[trigger] world.entities@[j])@ == old(
                    world,
                )@[j],
        decreases world.entities@.len() - i,
    {
        if world.entities[i].moved {
            let found = mesh.cell_of(&world.entities[i].position);
            world.entities[i].current_cell = found;
        }
        i += 1;
    }
    proof {
        assert(world@ =~= located(old(world)@, mesh@));
        assert forall|k: int| 0 <= k < world@.len() implies (#[trigger] world@[k]).id == old(
            world,
        )@[k].id && world@[k].wf() by {
            assert(old(world)@[k].wf());
        }
        lemma_rewrite_keeps_wf(*old(world), *world);
    }
}

/// What the hunters are after: the position of the last, in spawn order,
/// among the first `n` entities that is not hostile.
pub open spec fn quarry(w: Seq<EntityView>, n: int) -> Option<Position>
    decreases n,
{
    if n <= 0 {
        None
    } else if !w[n - 1].hostile_to_player {
        Some(w[n - 1].position)
    } else {
        quarry(w, n - 1)
    }
}

/// The entity after targets have been chosen: a hostile entity is after
/// the quarry, if there is one.
pub open spec fn hunting_entity(e: EntityView, sighted: Option<Position>) -> EntityView {
    if e.hostile_to_player && sighted is Some {
        EntityView { target: sighted, ..e }
    } else {
        e
    }
}

/// The world after targets have been chosen.
pub open spec fn hunted(w: Seq<EntityView>) -> Seq<EntityView> {
    Seq::new(w.len(), |i: int| hunting_entity(w[i], quarry(w, w.len() as int)))
}

/// Chooses targets. Every hostile entity, whatever else it does, is after
/// the position of the entity spawned last among those that are not
/// hostile. Where all are hostile, targets stay as they are.
pub fn hunt_target_sys(world: &mut World)
    requires
        old(world).wf(),
    ensures
        final(world).wf(),
        final(world).next_id == old(world).next_id,
        final(world)@ == hunted(old(world)@),
{
    let mut sighted: Option<Position> = None;
    let mut i: usize = 0;
    while i < world.entities.len()
        invariant
            i <= world.entities@.len(),
            *world == *old(world),
            sighted == quarry(world@, i as int),
        decreases world.entities@.len() - i,
    {
        assert(world@[i as int] == world.entities@[i as int]@);
        if !world.entities[i].hostile_to_player {
            sighted = Some(world.entities[i].position);
        }
        i += 1;
    }
    if sighted.is_none() {
        assert(world@ =~= hunted(old(world)@));
        return ;
    }
    let mut i: usize = 0;
    while i < world.entities.len()
        invariant
            sighted is Some,
            sighted == quarry(old(world)@, old(world)@.len() as int),
            world.next_id == old(world).next_id,
            world.entities@.len() == old(world)@.len(),
            i <= world.entities@.len(),
            forall|j: int|
                0 <= j < i ==> (#[trigger] world.entities@[j])@ == hunting_entity(
                    old(world)@[j],
                    sighted,
                ),
            forall|j: int|
                i <= j < world.entities@.len() ==> (#[trigger] world.entities@[j])@ == old(
                    world,
                )@[j],
        decreases world.entities@.len() - i,
    {
        if world.entities[i].hostile_to_player {
            world.entities[i].target = sighted;
        }
        i += 1;
    }
    proof {
        assert(world@ =~= hunted(old(world)@));
        assert forall|k: int| 0 <= k < world@.len() implies (#[trigger] world@[k]).id == old(
            world,
        )@[k].id && world@[k].wf() by {
            assert(old(world)@[k].wf());
        }
        lemma_rewrite_keeps_wf(*old(world), *world);
    }
}

/// The path the entity would take to its target: within the cell it
/// stands in, from the polygon it stands in to the polygon its target lies
/// in. `None` where it has no target or a path already, stands in no cell
/// of the mesh, or either point lies in no polygon of that cell, or no way
/// is found.
pub open spec fn plan(e: EntityView, mesh: Seq<NavCellView>) -> Option<Seq<usize>> {
    match (e.target, e.current_cell, e.path) {
        (Some(t), Some(c), None) if c < mesh.len() => match (
            mesh[c as int].polygon_of(e.position),
            mesh[c as int].polygon_of(t),
        ) {
            (Some(a), Some(b)) => if route(mesh[c as int], a as usize, b as usize).len() > 0 {
                Some(route(mesh[c as int], a as usize, b as usize))
            } else {
                None
            },
            _ => None,
        },
        _ => None,
    }
}

/// The entity after paths have been searched: it has the path planned for
/// it, if one was.
pub open spec fn planned_entity(e: EntityView, mesh: Seq<NavCellView>) -> EntityView {
    match plan(e, mesh) {
        Some(path) => EntityView { path: Some(path), ..e },
        None => e,
    }
}

/// The world after paths have been searched.
pub open spec fn planned(w: Seq<EntityView>, mesh: Seq<NavCellView>) -> Seq<EntityView> {
    Seq::new(w.len(), |i: int| planned_entity(w[i], mesh))
}

/// Searches paths. Every entity that has a target and no path yet gets the
/// path from the polygon it stands in to the polygon of its target, within
/// the cell it stands in, if there is one.
pub fn get_target_breadscrum(world: &mut World, mesh: &NavMesh)
    requires
        old(world).wf(),
    ensures
        final(world).wf(),
        final(world).next_id == old(world).next_id,
        final(world)@ == planned(old(world)@, mesh@),
{
    let mut i: usize = 0;
    while i < world.entities.len()
        invariant
            world.next_id == old(world).next_id,
            world.entities@.len() == old(world)@.len(),
            i <= world.entities@.len(),
            forall|j: int|
                0 <= j < i ==> (#[trigger] world.entities@[j])@ == planned_entity(
                    old(world)@[j],
                    mesh@,
                ),
            forall|j: int|
                i <= j < world.entities@.len() ==> (#[trigger] world.entities@[j])@ == old(
                    world,
                )@[j],
        decreases world.entities@.len() - i,
    {
        let ghost before = world.entities@[i as int]@;
        let mut found: Option<Vec<usize>> = None;
        if world.entities[i].path.is_none() {
            if let (Some(t), Some(c)) = (world.entities[i].target, world.entities[i].current_cell) {
                if c < mesh.cells.len() {
                    assert(mesh@[c as int] == mesh.cells@[c as int]@);
                    let cell = &mesh.cells[c];
                    let here = cell.polygon_of(&world.entities[i].position);
                    let there = cell.polygon_of(&t);
                    if let (Some(a), Some(b)) = (here, there) {
                        let path = a_star(cell, a, b);
                        if path.len() > 0 {
                            found = Some(path);
                        }
                    }
                }
            }
        }
        assert(match found {
            Some(p) => plan(before, mesh@) == Some(p@),
            None => plan(before, mesh@) is None,
        });
        if let Some(path) = found {
            world.entities[i].path = Some(BreadScrumPath(path));
        }
        i += 1;
    }
    proof {
        assert(world@ =~= planned(old(world)@, mesh@));
        assert forall|k: int| 0 <= k < world@.len() implies (#[trigger] world@[k]).id == old(
            world,
        )@[k].id && world@[k].wf() by {
            assert(old(world)@[k].wf());
        }
        lemma_rewrite_keeps_wf(*old(world), *world);
    }
}

/// The world after the navigation systems have run, one after the other:
/// walking, cells, targets, paths.
pub open spec fn navigated(w: Seq<EntityView>, mesh: Seq<NavCellView>) -> Seq<EntityView> {
    planned(hunted(located(walked(w, mesh), mesh)), mesh)
}

} // verus!
