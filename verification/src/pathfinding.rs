//! Path search over the polygons of one navigation cell.
//!
//! The search keeps its frontier as a stack: it always goes on from the
//! polygon it found last. A polygon is valued by the distance of its first
//! corner from the first corner of the start, plus its distance from the
//! first corner of the goal. That value does not depend on the way taken, so
//! a polygon once found is never found anew, and the path is the one by
//! which the search first came upon the goal; it need not be the shortest.

use vstd::prelude::*;
use crate::components::{distance, Position};
use crate::navmesh::{NavCell, NavCellView};

verus! {

/// The state of a search, as it is kept while searching.
#[derive(Debug)]
pub struct Search {
    /// The frontier. The search goes on from its last polygon.
    pub open: Vec<usize>,
    /// For each polygon, whether the search has gone on from it.
    pub closed: Vec<bool>,
    /// For each polygon, the value at which it was found, if it was.
    pub cost: Vec<Option<u64>>,
    /// For each polygon, the polygon from which it was found, if it was.
    pub came_from: Vec<Option<usize>>,
}

/// The mathematical content of a [`Search`].
pub struct SearchView {
    pub open: Seq<usize>,
    pub closed: Seq<bool>,
    pub cost: Seq<Option<u64>>,
    pub came_from: Seq<Option<usize>>,
}

impl View for Search {
    type V = SearchView;

    open spec fn view(&self) -> SearchView {
        SearchView {
            open: self.open@,
            closed: self.closed@,
            cost: self.cost@,
            came_from: self.came_from@,
        }
    }
}

/// The two points a search measures from: the first corner of its start,
/// and the first corner of its goal.
#[derive(Debug, Clone, Copy, PartialEq, Eq, Structural)]
pub struct Bearings {
    pub start: Position,
    pub goal: Position,
}

/// The value of a polygon: the distance of its first corner from the
/// start's plus its distance from the goal's. A polygon without a first
/// corner among the cell's nodes has none.
pub open spec fn estimate(cell: NavCellView, polygon: int, at: Bearings) -> Option<u64> {
    match cell.corner(polygon, 0) {
        Some(p) => Some((distance(p, at.start) + distance(p, at.goal)) as u64),
        None => None,
    }
}

/// Polygon `to` is among the neighbours of polygon `from`.
pub open spec fn linked(cell: NavCellView, from: int, to: int) -> bool {
    &&& 0 <= from < cell.triangles.len()
    &&& 0 <= to < cell.triangles.len()
    &&& exists|k: int|
        0 <= k < cell.triangles[from].neighbors.len() && #[trigger] cell.triangles[from].neighbors[k]
            == to
}

/// From `start`, each polygon of `walk` is a neighbour of the one before.
pub open spec fn is_walk(cell: NavCellView, start: usize, walk: Seq<usize>) -> bool {
    forall|i: int|
        0 <= i < walk.len() ==> linked(
            cell,
            if i == 0 {
                start as int
            } else {
                walk[i - 1] as int
            },
            #[trigger] walk[i] as int,
        )
}

/// Some walk leads from `start` to `goal`.
pub open spec fn reachable(cell: NavCellView, start: usize, goal: usize) -> bool {
    exists|walk: Seq<usize>| #[trigger]
        is_walk(cell, start, walk) && walk.len() > 0 && walk.last() == goal
}

/// The search after it has looked at neighbour `k` of the polygon `cur` it
/// goes on from. A neighbour that is a polygon of the cell, has a value and
/// has not been gone on from is found if it was not found before, or is now
/// found at a lower value: then it joins the frontier, with `cur` as the
/// polygon it was found from.
pub open spec fn visited(
    cell: NavCellView,
    s: SearchView,
    cur: usize,
    k: int,
    at: Bearings,
) -> SearchView {
    let v = cell.triangles[cur as int].neighbors[k];
    if 0 <= v < cell.triangles.len() && !s.closed[v as int] {
        match estimate(cell, v as int, at) {
            Some(f) => if s.cost[v as int] is None || f < s.cost[v as int]->0 {
                SearchView {
                    open: s.open.push(v as usize),
                    cost: s.cost.update(v as int, Some(f)),
                    came_from: s.came_from.update(v as int, Some(cur)),
                    ..s
                }
            } else {
                s
            },
            None => s,
        }
    } else {
        s
    }
}

/// The search after it has looked at the first `k` neighbours of `cur`, in
/// stored order.
pub open spec fn expanded(
    cell: NavCellView,
    s: SearchView,
    cur: usize,
    k: nat,
    at: Bearings,
) -> SearchView
    decreases k,
{
    if k == 0 {
        s
    } else {
        visited(cell, expanded(cell, s, cur, (k - 1) as nat, at), cur, k - 1, at)
    }
}

/// The search one step on: the last polygon of the frontier is taken off
/// it, marked as gone on from, and all its neighbours are looked at.
pub open spec fn stepped(cell: NavCellView, s: SearchView, at: Bearings) -> SearchView {
    let cur = s.open.last();
    expanded(
        cell,
        SearchView { open: s.open.drop_last(), closed: s.closed.update(cur as int, true), ..s },
        cur,
        cell.triangles[cur as int].neighbors.len(),
        at,
    )
}

/// The search when it stops: when the frontier is empty, or its last
/// polygon is the goal. `fuel` bounds the number of steps;
/// [`lemma_fuel_is_enough`] shows that the bound is never met.
pub open spec fn searched(
    cell: NavCellView,
    s: SearchView,
    goal: usize,
    at: Bearings,
    fuel: nat,
) -> SearchView
    decreases fuel,
{
    if fuel == 0 || s.open.len() == 0 || s.open.last() == goal {
        s
    } else {
        searched(cell, stepped(cell, s, at), goal, at, (fuel - 1) as nat)
    }
}

/// The search before its first step: only `start` is on the frontier,
/// nothing has been found.
pub open spec fn initial(cell: NavCellView, start: usize) -> SearchView {
    SearchView {
        open: seq![start],
        closed: Seq::new(cell.triangles.len(), |i: int| false),
        cost: Seq::new(cell.triangles.len(), |i: int| None),
        came_from: Seq::new(cell.triangles.len(), |i: int| None),
    }
}

/// The polygons from `start`, without it, to `cur`, going back from `cur`
/// by the polygons each was found from. `None` if that way does not lead to
/// `start` within `fuel` polygons.
pub open spec fn trail(came_from: Seq<Option<usize>>, start: usize, cur: usize, fuel: nat) -> Option<
    Seq<usize>,
>
    decreases fuel,
{
    if cur == start {
        Some(Seq::empty())
    } else if fuel == 0 || cur >= came_from.len() {
        None
    } else {
        match came_from[cur as int] {
            Some(p) => match trail(came_from, start, p, (fuel - 1) as nat) {
                Some(t) => Some(t.push(cur)),
                None => None,
            },
            None => None,
        }
    }
}

/// The path from polygon `start` to polygon `goal` of the cell: the
/// polygons to walk through, without `start`, ending in `goal`. It is empty
/// if `start` is `goal`, if the search does not find `goal`, or if either
/// has no first corner among the cell's nodes.
pub open spec fn route(cell: NavCellView, start: usize, goal: usize) -> Seq<usize> {
    match (cell.corner(start as int, 0), cell.corner(goal as int, 0)) {
        (Some(a), Some(b)) => {
            let at = Bearings { start: a, goal: b };
            let n = cell.triangles.len();
            let end = searched(cell, initial(cell, start), goal, at, 2 * n + 1);
            match trail(end.came_from, start, goal, n) {
                Some(t) => t,
                None => Seq::empty(),
            }
        },
        _ => Seq::empty(),
    }
}

/// The number of polygons not found yet.
pub open spec fn unseen(cost: Seq<Option<u64>>) -> nat
    decreases cost.len(),
{
    if cost.len() == 0 {
        0
    } else {
        unseen(cost.drop_last()) + if cost.last() is None {
            1nat
        } else {
            0nat
        }
    }
}

/// What the search still has before it, at most: every polygon on the
/// frontier is gone on from once, every polygon not found yet may be found
/// and then gone on from.
pub open spec fn work_left(s: SearchView) -> nat {
    2 * unseen(s.cost) + s.open.len()
}

/// The search is in order: its lists are as long as the cell has polygons,
/// the frontier holds polygons of the cell, every polygon found was found
/// at its value, and from a neighbour of which it is.
pub open spec fn sound(cell: NavCellView, s: SearchView, at: Bearings) -> bool {
    let n = cell.triangles.len();
    &&& s.closed.len() == n
    &&& s.cost.len() == n
    &&& s.came_from.len() == n
    &&& forall|i: int| 0 <= i < s.open.len() ==> (#[trigger] s.open[i]) < n
    &&& forall|v: int|
        0 <= v < n && (#[trigger] s.cost[v]) is Some ==> estimate(cell, v, at) == s.cost[v]
    &&& forall|v: int|
        0 <= v < n && (#[trigger] s.came_from[v]) is Some ==> linked(
            cell,
            s.came_from[v]->0 as int,
            v,
        ) && s.cost[v] is Some
}

/// Finding a polygon makes one fewer that is not found yet.
pub proof fn lemma_unseen_update(cost: Seq<Option<u64>>, v: int, c: u64)
    requires
        0 <= v < cost.len(),
    ensures
        unseen(cost.update(v, Some(c))) + (if cost[v] is None {
            1nat
        } else {
            0nat
        }) == unseen(cost),
        unseen(cost) <= cost.len(),
    decreases cost.len(),
{
    let after = cost.update(v, Some(c));
    if v == cost.len() - 1 {
        assert(after.drop_last() =~= cost.drop_last());
        lemma_unseen_bound(cost.drop_last());
    } else {
        assert(after.drop_last() =~= cost.drop_last().update(v, Some(c)));
        lemma_unseen_update(cost.drop_last(), v, c);
    }
}

/// No more polygons are unseen than there are.
pub proof fn lemma_unseen_bound(cost: Seq<Option<u64>>)
    ensures
        unseen(cost) <= cost.len(),
    decreases cost.len(),
{
    if cost.len() > 0 {
        lemma_unseen_bound(cost.drop_last());
    }
}

/// Where nothing is found yet, every polygon is unseen.
pub proof fn lemma_unseen_all(n: nat)
    ensures
        unseen(Seq::new(n, |i: int| None::<u64>)) == n,
    decreases n,
{
    if n > 0 {
        assert(Seq::new(n, |i: int| None::<u64>).drop_last() =~= Seq::new(
            (n - 1) as nat,
            |i: int| None::<u64>,
        ));
        lemma_unseen_all((n - 1) as nat);
    }
}

/// A look at one neighbour keeps the search in order, leaves no more
/// work than before, and changes nothing about a polygon found before.
pub proof fn lemma_visited(cell: NavCellView, s: SearchView, cur: usize, k: int, at: Bearings)
    requires
        sound(cell, s, at),
        cur < cell.triangles.len(),
        0 <= k < cell.triangles[cur as int].neighbors.len(),
    ensures
        sound(cell, visited(cell, s, cur, k, at), at),
        work_left(visited(cell, s, cur, k, at)) <= work_left(s),
        visited(cell, s, cur, k, at).closed == s.closed,
        forall|v: int|
            0 <= v < s.cost.len() && s.cost[v] is Some ==> visited(cell, s, cur, k, at).cost[v]
                == s.cost[v] && visited(cell, s, cur, k, at).came_from[v] == s.came_from[v],
{
    let after = visited(cell, s, cur, k, at);
    let v = cell.triangles[cur as int].neighbors[k];
    if 0 <= v < cell.triangles.len() && !s.closed[v as int] {
        match estimate(cell, v as int, at) {
            Some(f) => {
                if s.cost[v as int] is None {
                    lemma_unseen_update(s.cost, v as int, f);
                    assert(linked(cell, cur as int, v as int));
                    assert forall|i: int| 0 <= i < after.open.len() implies (
                    #[trigger] after.open[i]) < cell.triangles.len() by {
                        if i < s.open.len() {
                            assert(s.open[i] < cell.triangles.len());
                        }
                    }
                    assert forall|w: int|
                        0 <= w < cell.triangles.len() && (#[trigger] after.came_from[w])
                            is Some implies linked(cell, after.came_from[w]->0 as int, w)
                        && after.cost[w] is Some by {
                        if w != v {
                            assert(s.came_from[w] is Some);
                        }
                    }
                    assert forall|w: int|
                        0 <= w < cell.triangles.len() && (#[trigger] after.cost[w])
                            is Some implies estimate(cell, w, at) == after.cost[w] by {
                        if w != v {
                            assert(s.cost[w] is Some);
                        }
                    }
                } else {
                    assert(s.cost[v as int] is Some);
                    assert(estimate(cell, v as int, at) == s.cost[v as int]);
                }
            },
            None => {},
        }
    }
}

/// Looks at the neighbours keep the search in order, leave no more work
/// than before, and change nothing about a polygon found before.
pub proof fn lemma_expanded(cell: NavCellView, s: SearchView, cur: usize, k: nat, at: Bearings)
    requires
        sound(cell, s, at),
        cur < cell.triangles.len(),
        k <= cell.triangles[cur as int].neighbors.len(),
    ensures
        sound(cell, expanded(cell, s, cur, k, at), at),
        work_left(expanded(cell, s, cur, k, at)) <= work_left(s),
        expanded(cell, s, cur, k, at).closed == s.closed,
        forall|v: int|
            0 <= v < s.cost.len() && s.cost[v] is Some ==> expanded(cell, s, cur, k, at).cost[v]
                == s.cost[v] && expanded(cell, s, cur, k, at).came_from[v] == s.came_from[v],
    decreases k,
{
    if k > 0 {
        let before = expanded(cell, s, cur, (k - 1) as nat, at);
        lemma_expanded(cell, s, cur, (k - 1) as nat, at);
        lemma_visited(cell, before, cur, k - 1, at);
        let after = expanded(cell, s, cur, k, at);
        assert forall|v: int| 0 <= v < s.cost.len() && s.cost[v] is Some implies after.cost[v]
            == s.cost[v] && after.came_from[v] == s.came_from[v] by {
            assert(before.cost[v] == s.cost[v]);
        }
    }
}

/// The search with its last frontier polygon taken off and marked.
pub open spec fn popped(s: SearchView) -> SearchView {
    SearchView {
        open: s.open.drop_last(),
        closed: s.closed.update(s.open.last() as int, true),
        ..s
    }
}

/// A step keeps the search in order, leaves less work than before, and
/// changes nothing about a polygon found before.
pub proof fn lemma_stepped(cell: NavCellView, s: SearchView, at: Bearings)
    requires
        sound(cell, s, at),
        s.open.len() > 0,
    ensures
        sound(cell, stepped(cell, s, at), at),
        work_left(stepped(cell, s, at)) < work_left(s),
        forall|v: int|
            0 <= v < s.cost.len() && s.cost[v] is Some ==> stepped(cell, s, at).cost[v]
                == s.cost[v] && stepped(cell, s, at).came_from[v] == s.came_from[v],
{
    let cur = s.open.last();
    assert(s.open[s.open.len() - 1] < cell.triangles.len());
    let p = popped(s);
    assert forall|i: int| 0 <= i < p.open.len() implies (#[trigger] p.open[i])
        < cell.triangles.len() by {
        assert(s.open[i] < cell.triangles.len());
    }
    assert(sound(cell, p, at));
    lemma_expanded(cell, p, cur, cell.triangles[cur as int].neighbors.len(), at);
}

/// The search stops in order, and with nothing changed about a polygon
/// found before.
pub proof fn lemma_searched(cell: NavCellView, s: SearchView, goal: usize, at: Bearings, fuel: nat)
    requires
        sound(cell, s, at),
    ensures
        sound(cell, searched(cell, s, goal, at, fuel), at),
        forall|v: int|
            0 <= v < s.cost.len() && s.cost[v] is Some ==> searched(
                cell,
                s,
                goal,
                at,
                fuel,
            ).came_from[v] == s.came_from[v],
    decreases fuel,
{
    if !(fuel == 0 || s.open.len() == 0 || s.open.last() == goal) {
        let next = stepped(cell, s, at);
        lemma_stepped(cell, s, at);
        lemma_searched(cell, next, goal, at, (fuel - 1) as nat);
        let end = searched(cell, s, goal, at, fuel);
        assert forall|v: int| 0 <= v < s.cost.len() && s.cost[v] is Some implies end.came_from[v]
            == s.came_from[v] by {
            assert(next.cost[v] == s.cost[v]);
        }
    }
}

/// The bound on the steps of a search does not cut it short: with as much
/// fuel as there is work left, more fuel changes nothing.
pub proof fn lemma_fuel_is_enough(
    cell: NavCellView,
    s: SearchView,
    goal: usize,
    at: Bearings,
    fuel: nat,
    more: nat,
)
    requires
        sound(cell, s, at),
        fuel >= work_left(s),
        more >= work_left(s),
    ensures
        searched(cell, s, goal, at, fuel) == searched(cell, s, goal, at, more),
    decreases fuel,
{
    if !(s.open.len() == 0 || s.open.last() == goal) {
        lemma_stepped(cell, s, at);
        lemma_fuel_is_enough(
            cell,
            stepped(cell, s, at),
            goal,
            at,
            (fuel - 1) as nat,
            (more - 1) as nat,
        );
    }
}

/// The search is in order before its first step, with work left for twice
/// the polygons of the cell and one more.
pub proof fn lemma_initial(cell: NavCellView, start: usize, at: Bearings)
    requires
        start < cell.triangles.len(),
    ensures
        sound(cell, initial(cell, start), at),
        work_left(initial(cell, start)) == 2 * cell.triangles.len() + 1,
{
    lemma_unseen_all(cell.triangles.len());
}

/// Going back by polygons that were each found from a neighbour gives a
/// walk from `start` that ends where the going back began.
pub proof fn lemma_trail_is_walk(
    cell: NavCellView,
    s: SearchView,
    at: Bearings,
    start: usize,
    cur: usize,
    fuel: nat,
)
    requires
        sound(cell, s, at),
        trail(s.came_from, start, cur, fuel) is Some,
    ensures
        is_walk(cell, start, trail(s.came_from, start, cur, fuel)->0),
        trail(s.came_from, start, cur, fuel)->0.len() == 0 ==> cur == start,
        trail(s.came_from, start, cur, fuel)->0.len() > 0 ==> trail(
            s.came_from,
            start,
            cur,
            fuel,
        )->0.last() == cur && cur != start,
    decreases fuel,
{
    if cur != start {
        let p = s.came_from[cur as int]->0;
        lemma_trail_is_walk(cell, s, at, start, p, (fuel - 1) as nat);
        let t = trail(s.came_from, start, p, (fuel - 1) as nat)->0;
        let walk = t.push(cur);
        assert(s.came_from[cur as int] is Some);
        assert(linked(cell, p as int, cur as int));
        assert forall|i: int| 0 <= i < walk.len() implies linked(
            cell,
            if i == 0 {
                start as int
            } else {
                walk[i - 1] as int
            },
            #[trigger] walk[i] as int,
        ) by {
            if i < t.len() {
                assert(linked(
                    cell,
                    if i == 0 {
                        start as int
                    } else {
                        t[i - 1] as int
                    },
                    t[i] as int,
                ));
            }
        }
    }
}

/// The path from a polygon to itself is empty.
pub proof fn lemma_route_to_self(cell: NavCellView, start: usize)
    ensures
        route(cell, start, start) == Seq::<usize>::empty(),
{
}

/// A path that is not empty is a walk from `start` that ends in `goal`:
/// every polygon of it is a neighbour of the one before.
pub proof fn lemma_route_is_walk(cell: NavCellView, start: usize, goal: usize)
    ensures
        is_walk(cell, start, route(cell, start, goal)),
        route(cell, start, goal).len() > 0 ==> route(cell, start, goal).last() == goal && start
            != goal,
{
    match (cell.corner(start as int, 0), cell.corner(goal as int, 0)) {
        (Some(a), Some(b)) => {
            let at = Bearings { start: a, goal: b };
            let n = cell.triangles.len();
            lemma_initial(cell, start, at);
            lemma_searched(cell, initial(cell, start), goal, at, 2 * n + 1);
            let end = searched(cell, initial(cell, start), goal, at, 2 * n + 1);
            if trail(end.came_from, start, goal, n) is Some {
                lemma_trail_is_walk(cell, end, at, start, goal, n);
            }
        },
        _ => {},
    }
}

/// The path to a polygon that no walk leads to is empty.
pub proof fn lemma_route_unreachable(cell: NavCellView, start: usize, goal: usize)
    requires
        !reachable(cell, start, goal),
    ensures
        route(cell, start, goal) == Seq::<usize>::empty(),
{
    lemma_route_is_walk(cell, start, goal);
    let walk = route(cell, start, goal);
    if walk.len() > 0 {
        assert(is_walk(cell, start, walk) && walk.len() > 0 && walk.last() == goal);
    }
    assert(walk =~= Seq::<usize>::empty());
}

/// Once the goal has been found from the start, it stays so while the
/// neighbours are looked at.
proof fn lemma_claim_kept(
    cell: NavCellView,
    s: SearchView,
    cur: usize,
    from: nat,
    to: nat,
    at: Bearings,
    start: usize,
    goal: usize,
)
    requires
        sound(cell, s, at),
        cur < cell.triangles.len(),
        goal < cell.triangles.len(),
        from <= to <= cell.triangles[cur as int].neighbors.len(),
        expanded(cell, s, cur, from, at).came_from[goal as int] == Some(start),
    ensures
        expanded(cell, s, cur, to, at).came_from[goal as int] == Some(start),
    decreases to,
{
    if from < to {
        lemma_claim_kept(cell, s, cur, from, (to - 1) as nat, at, start, goal);
        lemma_expanded(cell, s, cur, (to - 1) as nat, at);
        let before = expanded(cell, s, cur, (to - 1) as nat, at);
        lemma_visited(cell, before, cur, to - 1, at);
        assert(before.came_from[goal as int] is Some);
        assert(before.cost[goal as int] is Some);
    }
}

/// The path to a neighbour of the start is that neighbour alone, provided
/// both have a first corner among the cell's nodes.
pub proof fn lemma_route_adjacent(cell: NavCellView, start: usize, goal: usize)
    requires
        start != goal,
        linked(cell, start as int, goal as int),
        cell.corner(start as int, 0) is Some,
        cell.corner(goal as int, 0) is Some,
    ensures
        route(cell, start, goal) == seq![goal],
{
    let at = Bearings { start: cell.corner(start as int, 0)->0, goal: cell.corner(goal as int, 0)->0 };
    let n = cell.triangles.len();
    let s0 = initial(cell, start);
    lemma_initial(cell, start, at);
    let p = popped(s0);
    assert(sound(cell, p, at)) by {
        assert(p.open =~= Seq::<usize>::empty());
    }
    let neighbors = cell.triangles[start as int].neighbors;
    let k = choose|k: int| 0 <= k < neighbors.len() && #[trigger] neighbors[k] == goal;
    lemma_expanded(cell, p, start, k as nat, at);
    let before = expanded(cell, p, start, k as nat, at);
    let after = expanded(cell, p, start, (k + 1) as nat, at);
    assert(after == visited(cell, before, start, k, at));
    assert(!before.closed[goal as int]);
    assert(after.came_from[goal as int] == Some(start)) by {
        if before.cost[goal as int] is Some {
            // Found before: then from the start, the only polygon gone on from.
            lemma_found_from_start(cell, p, start, k as nat, at, goal);
        }
    }
    lemma_claim_kept(cell, p, start, (k + 1) as nat, neighbors.len(), at, start, goal);
    let s1 = stepped(cell, s0, at);
    lemma_stepped(cell, s0, at);
    lemma_searched(cell, s1, goal, at, (2 * n) as nat);
    let end = searched(cell, s0, goal, at, 2 * n + 1);
    assert(end == searched(cell, s1, goal, at, (2 * n) as nat));
    assert(s1.came_from[goal as int] is Some);
    assert(s1.cost[goal as int] is Some);
    assert(end.came_from[goal as int] == Some(start));
    assert(trail(end.came_from, start, start, (n - 1) as nat) == Some(Seq::<usize>::empty()));
    assert(trail(end.came_from, start, goal, n) == Some(Seq::<usize>::empty().push(goal)));
    assert(Seq::<usize>::empty().push(goal) =~= seq![goal]);
}

/// While the neighbours of the start are looked at for the first time,
/// whatever is found is found from the start.
proof fn lemma_found_from_start(
    cell: NavCellView,
    p: SearchView,
    start: usize,
    k: nat,
    at: Bearings,
    v: usize,
)
    requires
        sound(cell, p, at),
        start < cell.triangles.len(),
        v < cell.triangles.len(),
        k <= cell.triangles[start as int].neighbors.len(),
        forall|w: int| 0 <= w < p.came_from.len() ==> p.came_from[w] is None,
        forall|w: int| 0 <= w < p.cost.len() ==> p.cost[w] is None,
        expanded(cell, p, start, k, at).cost[v as int] is Some,
    ensures
        expanded(cell, p, start, k, at).came_from[v as int] == Some(start),
    decreases k,
{
    if k > 0 {
        let before = expanded(cell, p, start, (k - 1) as nat, at);
        lemma_expanded(cell, p, start, (k - 1) as nat, at);
        lemma_visited(cell, before, start, k - 1, at);
        if before.cost[v as int] is Some {
            lemma_found_from_start(cell, p, start, (k - 1) as nat, at, v);
        }
    }
}

/// `n` copies of `x`.
fn filled<T: Copy>(x: T, n: usize) -> (v: Vec<T>)
    ensures
        v@ == Seq::new(n as nat, |i: int| x),
{
    let mut v: Vec<T> = Vec::new();
    let mut i: usize = 0;
    while i < n
        invariant
            i <= n,
            v@ == Seq::new(i as nat, |j: int| x),
        decreases n - i,
    {
        v.push(x);
        assert(v@ =~= Seq::new((i + 1) as nat, |j: int| x));
        i += 1;
    }
    v
}

impl Search {
    /// A search that is about to start from `start`.
    pub fn new(cell: &NavCell, start: usize) -> (s: Search)
        ensures
            s@ == initial(cell@, start),
    {
        let n = cell.triangles.len();
        let mut open: Vec<usize> = Vec::new();
        open.push(start);
        assert(open@ =~= seq![start]);
        Search {
            open,
            closed: filled(false, n),
            cost: filled(None, n),
            came_from: filled(None, n),
        }
    }

    /// Looks at neighbour `k` of the polygon `cur` the search goes on from.
    pub fn visit(&mut self, cell: &NavCell, cur: usize, k: usize, at: &Bearings)
        requires
            sound(cell@, old(self)@, *at),
            cur < cell@.triangles.len(),
            k < cell@.triangles[cur as int].neighbors.len(),
        ensures
            final(self)@ == visited(cell@, old(self)@, cur, k as int, *at),
    {
        assert(cell@.triangles[cur as int] == cell.triangles@[cur as int]@);
        let v = cell.triangles[cur].neighbors[k];
        if v < 0 || v as usize >= cell.triangles.len() {
            return ;
        }
        let to = v as usize;
        if self.closed[to] {
            return ;
        }
        let found = match cell.corner(to, 0) {
            Some(p) => {
                let f = p.distance(&at.start) + p.distance(&at.goal);
                match self.cost[to] {
                    Some(c) => if f < c {
                        Some(f)
                    } else {
                        None
                    },
                    None => Some(f),
                }
            },
            None => None,
        };
        if let Some(f) = found {
            self.cost[to] = Some(f);
            self.came_from[to] = Some(cur);
            self.open.push(to);
        }
    }

    /// Takes the last polygon off the frontier and looks at all its
    /// neighbours.
    pub fn step(&mut self, cell: &NavCell, at: &Bearings)
        requires
            sound(cell@, old(self)@, *at),
            old(self)@.open.len() > 0,
        ensures
            final(self)@ == stepped(cell@, old(self)@, *at),
            sound(cell@, final(self)@, *at),
            work_left(final(self)@) < work_left(old(self)@),
    {
        let ghost before = self@;
        proof {
            lemma_stepped(cell@, before, *at);
            assert(before.open[before.open.len() - 1] < cell@.triangles.len());
        }
        let cur = match self.open.pop() {
            Some(cur) => cur,
            None => {
                return ;
            },
        };
        self.closed[cur] = true;
        assert(self@ == popped(before));
        proof {
            assert forall|i: int| 0 <= i < self@.open.len() implies (#[trigger] self@.open[i])
                < cell@.triangles.len() by {
                assert(before.open[i] < cell@.triangles.len());
            }
        }
        assert(cell@.triangles[cur as int] == cell.triangles@[cur as int]@);
        let count = cell.triangles[cur].neighbors.len();
        let mut k: usize = 0;
        while k < count
            invariant
                cur < cell@.triangles.len(),
                count == cell@.triangles[cur as int].neighbors.len(),
                k <= count,
                sound(cell@, popped(before), *at),
                self@ == expanded(cell@, popped(before), cur, k as nat, *at),
            decreases count - k,
        {
            proof {
                lemma_expanded(cell@, popped(before), cur, k as nat, *at);
            }
            self.visit(cell, cur, k, at);
            k += 1;
        }
    }
}

/// `s` read from its end to its start.
pub open spec fn backwards(s: Seq<usize>) -> Seq<usize> {
    Seq::new(s.len(), |i: int| s[s.len() - 1 - i])
}

/// Goes back from `goal` by the polygons each was found from, and returns
/// the way in walking order.
fn backtrack(came_from: &Vec<Option<usize>>, start: usize, goal: usize) -> (path: Vec<usize>)
    ensures
        path@ == match trail(came_from@, start, goal, came_from@.len()) {
            Some(t) => t,
            None => Seq::empty(),
        },
{
    let ghost whole = trail(came_from@, start, goal, came_from@.len());
    let mut back: Vec<usize> = Vec::new();
    let mut cur = goal;
    let mut fuel = came_from.len();
    assert(Seq::<usize>::empty() + backwards(back@) =~= Seq::<usize>::empty());
    while cur != start
        invariant
            fuel <= came_from@.len(),
            whole == trail(came_from@, start, goal, came_from@.len()),
            whole == match trail(came_from@, start, cur, fuel as nat) {
                Some(t) => Some(t + backwards(back@)),
                None => None,
            },
        decreases fuel,
    {
        if fuel == 0 || cur >= came_from.len() {
            return Vec::new();
        }
        match came_from[cur] {
            Some(p) => {
                proof {
                    let rest = trail(came_from@, start, p, (fuel - 1) as nat);
                    if rest is Some {
                        assert(rest->0.push(cur) + backwards(back@) =~= rest->0 + backwards(
                            back@.push(cur),
                        ));
                    }
                }
                back.push(cur);
                cur = p;
                fuel -= 1;
            },
            None => {
                return Vec::new();
            },
        }
    }
    assert(whole == Some(backwards(back@))) by {
        assert(Seq::<usize>::empty() + backwards(back@) =~= backwards(back@));
    }
    let mut path: Vec<usize> = Vec::new();
    let mut i = back.len();
    while i > 0
        invariant
            i <= back@.len(),
            path@ == backwards(back@).take(back@.len() - i),
        decreases i,
    {
        i -= 1;
        path.push(back[i]);
        assert(path@ =~= backwards(back@).take(back@.len() - i));
    }
    assert(path@ =~= backwards(back@));
    path
}

/// Searches a path from polygon `start` to polygon `goal` of the cell. The
/// path holds the polygons to walk through, without `start`, ending in
/// `goal`; it is empty if `start` is `goal`, if no way to `goal` is found,
/// or if either is no polygon with a first corner among the cell's nodes.
pub fn a_star(cell: &NavCell, start: usize, goal: usize) -> (path: Vec<usize>)
    ensures
        path@ == route(cell@, start, goal),
        is_walk(cell@, start, path@),
        path@.len() > 0 ==> path@.last() == goal,
        start == goal ==> path@.len() == 0,
        !reachable(cell@, start, goal) ==> path@.len() == 0,
{
    proof {
        lemma_route_is_walk(cell@, start, goal);
        if !reachable(cell@, start, goal) {
            lemma_route_unreachable(cell@, start, goal);
        }
    }
    let at = match (cell.corner(start, 0), cell.corner(goal, 0)) {
        (Some(a), Some(b)) => Bearings { start: a, goal: b },
        _ => {
            return Vec::new();
        },
    };
    let mut search = Search::new(cell, start);
    let ghost first = search@;
    let ghost n = cell@.triangles.len();
    proof {
        lemma_initial(cell@, start, at);
    }
    while search.open.len() > 0 && search.open[search.open.len() - 1] != goal
        invariant
            n == cell@.triangles.len(),
            first == initial(cell@, start),
            sound(cell@, search@, at),
            work_left(search@) <= 2 * n + 1,
            searched(cell@, first, goal, at, 2 * n + 1) == searched(
                cell@,
                search@,
                goal,
                at,
                work_left(search@),
            ),
        decreases work_left(search@),
    {
        let ghost before = search@;
        search.step(cell, &at);
        proof {
            lemma_fuel_is_enough(
                cell@,
                search@,
                goal,
                at,
                (work_left(before) - 1) as nat,
                work_left(search@),
            );
        }
    }
    assert(search@ == searched(cell@, first, goal, at, 2 * n + 1));
    assert(search.came_from@.len() == n);
    backtrack(&search.came_from, start, goal)
}

} // verus!
