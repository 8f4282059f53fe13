//! The navigation mesh: a grid of cells, each with its nodes and the
//! polygons spanned between them.
//!
//! The mesh is stored cell by cell. After the count of cells, each cell is
//! laid out as: its grid column and row (two `i32`), the count of its nodes,
//! the nodes (three `i32` each: x, y, z, in fixed-point steps), the count of
//! its polygons, and the polygons as [`Triangle`]s whose corners are indices
//! into the cell's nodes and whose neighbours are indices into the cell's
//! polygons.

use vstd::prelude::*;
use crate::chunck_schemas::{
    fits, le_i32, le_u32, read_i32, read_u32, triangle_views, triangles_at, NavDataError,
    Triangle, TriangleView,
};
use crate::components::Position;
use crate::world::{first_match, lemma_first_match};

verus! {

/// Side of a navigation cell: 256 units.
pub const CELL_EXTENT: i32 = 256_000;

/// Bytes that a node takes.
pub const NODE_SIZE: usize = 12;

/// One cell of the mesh.
#[derive(Debug, Clone)]
pub struct NavCell {
    /// Column of the cell in the grid.
    pub grid_x: i32,
    /// Row of the cell in the grid.
    pub grid_y: i32,
    pub nodes: Vec<Position>,
    pub triangles: Vec<Triangle>,
}

/// The mathematical content of a [`NavCell`].
pub struct NavCellView {
    pub grid_x: i32,
    pub grid_y: i32,
    pub nodes: Seq<Position>,
    pub triangles: Seq<TriangleView>,
}

impl View for NavCell {
    type V = NavCellView;

    open spec fn view(&self) -> NavCellView {
        NavCellView {
            grid_x: self.grid_x,
            grid_y: self.grid_y,
            nodes: self.nodes@,
            triangles: triangle_views(self.triangles@),
        }
    }
}

/// The whole mesh, cell after cell.
#[derive(Debug, Clone)]
pub struct NavMesh {
    pub cells: Vec<NavCell>,
}

impl View for NavMesh {
    type V = Seq<NavCellView>;

    open spec fn view(&self) -> Seq<NavCellView> {
        Seq::new(self.cells@.len(), |i: int| self.cells@[i]@)
    }
}

/// The node laid out in `b` from `at`. Twelve bytes must be there.
pub open spec fn node_at(b: Seq<u8>, at: int) -> Position {
    Position {
        x: le_i32(b, at) as i32,
        y: le_i32(b, at + 4) as i32,
        z: le_i32(b, at + 8) as i32,
    }
}

/// The `n` nodes laid end to end in `b` from `at`, if `b` holds them all.
pub open spec fn nodes_at(b: Seq<u8>, at: int, n: nat) -> Option<Seq<Position>> {
    if 0 <= at && at + NODE_SIZE * n <= b.len() {
        Some(Seq::new(n, |k: int| node_at(b, at + NODE_SIZE * k)))
    } else {
        None
    }
}

/// The cell laid out in `b` from `at`, and the place where it ends.
/// `None` if `b` ends before the cell does.
pub open spec fn nav_cell_at(b: Seq<u8>, at: int) -> Option<(NavCellView, int)> {
    if 0 <= at && at + 12 <= b.len() {
        let after_nodes = at + 12 + NODE_SIZE * le_u32(b, at + 8);
        match nodes_at(b, at + 12, le_u32(b, at + 8) as nat) {
            Some(nodes) if after_nodes + 4 <= b.len() => {
                match triangles_at(b, after_nodes + 4, le_u32(b, after_nodes) as nat) {
                    Some((triangles, end)) => Some(
                        (
                            NavCellView {
                                grid_x: le_i32(b, at) as i32,
                                grid_y: le_i32(b, at + 4) as i32,
                                nodes,
                                triangles,
                            },
                            end,
                        ),
                    ),
                    None => None,
                }
            },
            _ => None,
        }
    } else {
        None
    }
}

/// The `n` cells laid end to end in `b` from `at`, and the place where the
/// last one ends.
pub open spec fn nav_cells_at(b: Seq<u8>, at: int, n: nat) -> Option<(Seq<NavCellView>, int)>
    decreases n,
{
    if n == 0 {
        Some((Seq::empty(), at))
    } else {
        match nav_cells_at(b, at, (n - 1) as nat) {
            Some((front, mid)) => match nav_cell_at(b, mid) {
                Some((last, end)) => Some((front.push(last), end)),
                None => None,
            },
            None => None,
        }
    }
}

/// Where fewer cells do not fit, more do not either.
pub proof fn lemma_nav_cells_at_none(b: Seq<u8>, at: int, k: nat, n: nat)
    requires
        k <= n,
        nav_cells_at(b, at, k) is None,
    ensures
        nav_cells_at(b, at, n) is None,
    decreases n,
{
    if k < n {
        lemma_nav_cells_at_none(b, at, k, (n - 1) as nat);
    }
}

/// The mesh that `b` starts with: the count of cells, then the cells.
/// Bytes that follow are ignored. `None` if `b` ends before the mesh does.
pub open spec fn nav_mesh_of(b: Seq<u8>) -> Option<Seq<NavCellView>> {
    if b.len() < 4 {
        None
    } else {
        match nav_cells_at(b, 4, le_u32(b, 0) as nat) {
            Some((cells, _)) => Some(cells),
            None => None,
        }
    }
}

/// What an LZ4 block with its expanded size in front expands to, or `None`
/// where it is no such block.
pub uninterp spec fn lz4_expanded(block: Seq<u8>) -> Option<Seq<u8>>;

/// The error of `lz4_flex`'s block decoder, `lz4_flex::block::DecompressError`.
/// Nothing is known of a value of it but that it is one.
#[verifier::external_type_specification]
#[verifier::external_body]
pub struct ExDecompressError(lz4_flex::block::DecompressError);

/// Expands a block with `lz4_flex::block::decompress_size_prepended`: the
/// first four bytes give the expanded size, the rest is one LZ4 block. The
/// outcome depends on the bytes alone, and is named [`lz4_expanded`];
/// nothing else is claimed of it.
#[verifier::external_body]
pub(crate) fn expand(block: &[u8]) -> (r: Result<Vec<u8>, lz4_flex::block::DecompressError>)
    ensures
        match r {
            Ok(raw) => lz4_expanded(block@) == Some(raw@),
            Err(_) => lz4_expanded(block@) is None,
        },
{
    lz4_flex::block::decompress_size_prepended(block)
}

/// The column or row of the grid in which the coordinate `c` lies.
pub open spec fn grid_index(c: int) -> int {
    c / (CELL_EXTENT as int)
}

/// The cells that lie at column `column` and row `row` of the grid.
pub open spec fn cell_at_grid(column: int, row: int) -> spec_fn(NavCellView) -> bool {
    |cell: NavCellView| cell.grid_x == column && cell.grid_y == row
}

/// The place of the cell in which `position` lies: the first cell at the
/// column of its x and the row of its z.
pub open spec fn cell_of(mesh: Seq<NavCellView>, position: Position) -> Option<int> {
    first_match(mesh, cell_at_grid(grid_index(position.x as int), grid_index(position.z as int)))
}

/// Twice the signed area of the triangle `a`, `b`, `p`, seen from above:
/// positive, negative or zero as `p` lies on one side of the line from `a`
/// to `b`, on the other, or on it.
pub open spec fn cross(a: Position, b: Position, p: Position) -> int {
    (b.x - a.x) * (p.z - a.z) - (b.z - a.z) * (p.x - a.x)
}

/// The point `p` lies in the triangle `a`, `b`, `c`, seen from above: the
/// triangle has an area, and `p` is on the same side of all three edges, or
/// on one of them.
pub open spec fn in_triangle(p: Position, a: Position, b: Position, c: Position) -> bool {
    &&& cross(a, b, c) != 0
    &&& {
        ||| cross(a, b, p) >= 0 && cross(b, c, p) >= 0 && cross(c, a, p) >= 0
        ||| cross(a, b, p) <= 0 && cross(b, c, p) <= 0 && cross(c, a, p) <= 0
    }
}

/// The centre of gravity of a triangle that has an area lies in it.
pub proof fn lemma_centroid_inside(p: Position, a: Position, b: Position, c: Position)
    requires
        cross(a, b, c) != 0,
        3 * p.x == a.x + b.x + c.x,
        3 * p.z == a.z + b.z + c.z,
    ensures
        in_triangle(p, a, b, c),
{
    let (ax, az, bx, bz, cx, cz) = (
        a.x as int,
        a.z as int,
        b.x as int,
        b.z as int,
        c.x as int,
        c.z as int,
    );
    let (px, pz) = (p.x as int, p.z as int);
    let d = (bx - ax) * (cz - az) - (bz - az) * (cx - ax);
    assert(3 * ((bx - ax) * (pz - az) - (bz - az) * (px - ax)) == d) by (nonlinear_arith)
        requires
            3 * px == ax + bx + cx,
            3 * pz == az + bz + cz,
            d == (bx - ax) * (cz - az) - (bz - az) * (cx - ax),
    ;
    assert(3 * ((cx - bx) * (pz - bz) - (cz - bz) * (px - bx)) == d) by (nonlinear_arith)
        requires
            3 * px == ax + bx + cx,
            3 * pz == az + bz + cz,
            d == (bx - ax) * (cz - az) - (bz - az) * (cx - ax),
    ;
    assert(3 * ((ax - cx) * (pz - cz) - (az - cz) * (px - cx)) == d) by (nonlinear_arith)
        requires
            3 * px == ax + bx + cx,
            3 * pz == az + bz + cz,
            d == (bx - ax) * (cz - az) - (bz - az) * (cx - ax),
    ;
}

/// A point in a triangle lies within the triangle's bounds on the x axis.
proof fn lemma_inside_within_x(p: Position, a: Position, b: Position, c: Position)
    requires
        in_triangle(p, a, b, c),
    ensures
        p.x <= a.x || p.x <= b.x || p.x <= c.x,
        p.x >= a.x || p.x >= b.x || p.x >= c.x,
{
    // Coordinates of the corners as seen from `p`.
    let (ax, az) = (a.x - p.x, a.z - p.z);
    let (bx, bz) = (b.x - p.x, b.z - p.z);
    let (cx, cz) = (c.x - p.x, c.z - p.z);
    let d1 = ax * bz - bx * az;
    let d2 = bx * cz - cx * bz;
    let d3 = cx * az - ax * cz;
    assert(cross(a, b, p) == d1) by (nonlinear_arith)
        requires
            cross(a, b, p) == ((bx - ax) * (0 - az) - (bz - az) * (0 - ax)),
            d1 == ax * bz - bx * az,
    ;
    assert(cross(b, c, p) == d2) by (nonlinear_arith)
        requires
            cross(b, c, p) == ((cx - bx) * (0 - bz) - (cz - bz) * (0 - bx)),
            d2 == bx * cz - cx * bz,
    ;
    assert(cross(c, a, p) == d3) by (nonlinear_arith)
        requires
            cross(c, a, p) == ((ax - cx) * (0 - cz) - (az - cz) * (0 - cx)),
            d3 == cx * az - ax * cz,
    ;
    assert(cross(a, b, c) == d1 + d2 + d3) by (nonlinear_arith)
        requires
            cross(a, b, c) == ((bx - ax) * (cz - az) - (bz - az) * (cx - ax)),
            d1 == ax * bz - bx * az,
            d2 == bx * cz - cx * bz,
            d3 == cx * az - ax * cz,
    ;
    assert(d1 * cx + d2 * ax + d3 * bx == 0) by (nonlinear_arith)
        requires
            d1 == ax * bz - bx * az,
            d2 == bx * cz - cx * bz,
            d3 == cx * az - ax * cz,
    ;
    assert(d1 * (0 - cx) + d2 * (0 - ax) + d3 * (0 - bx) == 0) by (nonlinear_arith)
        requires
            d1 * cx + d2 * ax + d3 * bx == 0,
    ;
    lemma_weights_balance(d1, d2, d3, 0 - cx, 0 - ax, 0 - bx);
}

/// Three weights of one sign, not all zero, cannot balance three offsets
/// that are all positive, nor three that are all negative.
proof fn lemma_weights_balance(d1: int, d2: int, d3: int, u1: int, u2: int, u3: int)
    requires
        d1 + d2 + d3 != 0,
        (d1 >= 0 && d2 >= 0 && d3 >= 0) || (d1 <= 0 && d2 <= 0 && d3 <= 0),
        d1 * u1 + d2 * u2 + d3 * u3 == 0,
    ensures
        u1 <= 0 || u2 <= 0 || u3 <= 0,
        u1 >= 0 || u2 >= 0 || u3 >= 0,
{
    if u1 > 0 && u2 > 0 && u3 > 0 {
        lemma_signed_product(d1, u1);
        lemma_signed_product(d2, u2);
        lemma_signed_product(d3, u3);
    }
    if u1 < 0 && u2 < 0 && u3 < 0 {
        lemma_signed_product(d1, -u1);
        lemma_signed_product(d2, -u2);
        lemma_signed_product(d3, -u3);
        assert(d1 * (-u1) == -(d1 * u1)) by (nonlinear_arith);
        assert(d2 * (-u2) == -(d2 * u2)) by (nonlinear_arith);
        assert(d3 * (-u3) == -(d3 * u3)) by (nonlinear_arith);
    }
}

/// The product of a number with a positive one has the sign of the number.
proof fn lemma_signed_product(d: int, u: int)
    requires
        u > 0,
    ensures
        d > 0 ==> d * u > 0,
        d < 0 ==> d * u < 0,
        d == 0 ==> d * u == 0,
{
    assert(d > 0 ==> d * u > 0) by (nonlinear_arith)
        requires
            u > 0,
    ;
    assert(d < 0 ==> d * u < 0) by (nonlinear_arith)
        requires
            u > 0,
    ;
}

/// A point beyond the bounds of a triangle, on either axis, does not lie
/// in it.
pub proof fn lemma_outside_bounds_outside(p: Position, a: Position, b: Position, c: Position)
    requires
        ({
            ||| p.x > a.x && p.x > b.x && p.x > c.x
            ||| p.x < a.x && p.x < b.x && p.x < c.x
            ||| p.z > a.z && p.z > b.z && p.z > c.z
            ||| p.z < a.z && p.z < b.z && p.z < c.z
        }),
    ensures
        !in_triangle(p, a, b, c),
{
    if in_triangle(p, a, b, c) {
        lemma_inside_within_x(p, a, b, c);
        // The test is the same with the axes exchanged, up to the sign of
        // every cross product.
        let flip = |q: Position| Position { x: q.z, y: q.y, z: q.x };
        assert(cross(flip(a), flip(b), flip(c)) == -cross(a, b, c)) by (nonlinear_arith)
            requires
                flip(a).x == a.z && flip(a).z == a.x,
                flip(b).x == b.z && flip(b).z == b.x,
                flip(c).x == c.z && flip(c).z == c.x,
        ;
        assert(cross(flip(a), flip(b), flip(p)) == -cross(a, b, p)) by (nonlinear_arith)
            requires
                flip(a).x == a.z && flip(a).z == a.x,
                flip(b).x == b.z && flip(b).z == b.x,
                flip(p).x == p.z && flip(p).z == p.x,
        ;
        assert(cross(flip(b), flip(c), flip(p)) == -cross(b, c, p)) by (nonlinear_arith)
            requires
                flip(b).x == b.z && flip(b).z == b.x,
                flip(c).x == c.z && flip(c).z == c.x,
                flip(p).x == p.z && flip(p).z == p.x,
        ;
        assert(cross(flip(c), flip(a), flip(p)) == -cross(c, a, p)) by (nonlinear_arith)
            requires
                flip(c).x == c.z && flip(c).z == c.x,
                flip(a).x == a.z && flip(a).z == a.x,
                flip(p).x == p.z && flip(p).z == p.x,
        ;
        lemma_inside_within_x(flip(p), flip(a), flip(b), flip(c));
    }
}

/// Twice the signed area of the triangle `a`, `b`, `p`, seen from above.
fn cross_of(a: &Position, b: &Position, p: &Position) -> (d: i128)
    ensures
        d == cross(*a, *b, *p),
{
    let bax: i128 = b.x as i128 - a.x as i128;
    let baz: i128 = b.z as i128 - a.z as i128;
    let pax: i128 = p.x as i128 - a.x as i128;
    let paz: i128 = p.z as i128 - a.z as i128;
    assert(-0x1_0000_0000_0000_0000 <= bax * paz <= 0x1_0000_0000_0000_0000) by (nonlinear_arith)
        requires
            -0x1_0000_0000 <= bax <= 0x1_0000_0000,
            -0x1_0000_0000 <= paz <= 0x1_0000_0000,
    ;
    assert(-0x1_0000_0000_0000_0000 <= baz * pax <= 0x1_0000_0000_0000_0000) by (nonlinear_arith)
        requires
            -0x1_0000_0000 <= baz <= 0x1_0000_0000,
            -0x1_0000_0000 <= pax <= 0x1_0000_0000,
    ;
    bax * paz - baz * pax
}

/// Whether `point` lies in the triangle `a`, `b`, `c`, seen from above.
/// Points on an edge lie in it; a triangle without area holds no point.
pub fn point_in_triangle(point: &Position, a: &Position, b: &Position, c: &Position) -> (r: bool)
    ensures
        r == in_triangle(*point, *a, *b, *c),
{
    if cross_of(a, b, c) == 0 {
        return false;
    }
    let d1 = cross_of(a, b, point);
    let d2 = cross_of(b, c, point);
    let d3 = cross_of(c, a, point);
    (d1 >= 0 && d2 >= 0 && d3 >= 0) || (d1 <= 0 && d2 <= 0 && d3 <= 0)
}

/// The places `0` to `n - 1`, in order.
pub open spec fn places(n: nat) -> Seq<int> {
    Seq::new(n, |i: int| i)
}

impl NavCellView {
    /// The node that is corner `k` of polygon `polygon`, where the polygon
    /// exists and names a node of the cell there.
    pub open spec fn corner(self, polygon: int, k: int) -> Option<Position> {
        if 0 <= polygon < self.triangles.len() && 0 <= k < 3 && 0
            <= self.triangles[polygon].vertices[k] < self.nodes.len() {
            Some(self.nodes[self.triangles[polygon].vertices[k] as int])
        } else {
            None
        }
    }

    /// Polygon `polygon` of the cell has its three corners among the
    /// cell's nodes and holds the point `p`.
    pub open spec fn holds(self, polygon: int, p: Position) -> bool {
        match (self.corner(polygon, 0), self.corner(polygon, 1), self.corner(polygon, 2)) {
            (Some(a), Some(b), Some(c)) => in_triangle(p, a, b, c),
            _ => false,
        }
    }

    /// The polygons that hold the point `p`.
    pub open spec fn holding(self, p: Position) -> spec_fn(int) -> bool {
        |i: int| self.holds(i, p)
    }

    /// The polygon in which `p` lies: the first that holds it.
    pub open spec fn polygon_of(self, p: Position) -> Option<int> {
        first_match(places(self.triangles.len()), self.holding(p))
    }
}

impl NavCell {
    /// Every polygon has as many neighbours as it says.
    pub open spec fn wf(&self) -> bool {
        forall|i: int| 0 <= i < self.triangles@.len() ==> (#[trigger] self.triangles@[i]).wf()
    }

    /// The node that is corner `k` of polygon `polygon`, where the polygon
    /// exists and names a node of the cell there.
    pub fn corner(&self, polygon: usize, k: usize) -> (node: Option<Position>)
        ensures
            node == self@.corner(polygon as int, k as int),
    {
        if polygon >= self.triangles.len() || k >= 3 {
            return None;
        }
        let v = self.triangles[polygon].vertices[k];
        assert(self@.triangles[polygon as int] == self.triangles@[polygon as int]@);
        if v < 0 || v as usize >= self.nodes.len() {
            None
        } else {
            Some(self.nodes[v as usize])
        }
    }

    /// Whether polygon `polygon` has its three corners among the cell's
    /// nodes and holds `position`.
    pub fn holds(&self, polygon: usize, position: &Position) -> (r: bool)
        ensures
            r == self@.holds(polygon as int, *position),
    {
        match (self.corner(polygon, 0), self.corner(polygon, 1), self.corner(polygon, 2)) {
            (Some(a), Some(b), Some(c)) => point_in_triangle(position, &a, &b, &c),
            _ => false,
        }
    }

    /// The polygon in which `position` lies: the first, in stored order,
    /// that holds it. `None` if no polygon of the cell holds it.
    pub fn polygon_of(&self, position: &Position) -> (found: Option<usize>)
        ensures
            match found {
                Some(i) => self@.polygon_of(*position) == Some(i as int) && i
                    < self@.triangles.len(),
                None => self@.polygon_of(*position) is None,
            },
    {
        let ghost all = places(self@.triangles.len());
        let ghost wanted = self@.holding(*position);
        let mut i: usize = 0;
        while i < self.triangles.len()
            invariant
                all == places(self@.triangles.len()),
                wanted == self@.holding(*position),
                i <= self.triangles@.len(),
                forall|j: int| 0 <= j < i ==> !self@.holds(j, *position),
            decreases self.triangles@.len() - i,
        {
            if self.holds(i, position) {
                proof {
                    assert(all[i as int] == i);
                    assert forall|j: int| 0 <= j < i implies !wanted(#[trigger] all[j]) by {
                        assert(all[j] == j);
                    }
                    lemma_first_match(all, wanted, Some(i as int));
                }
                return Some(i);
            }
            i += 1;
        }
        proof {
            assert forall|j: int| 0 <= j < all.len() implies !wanted(#[trigger] all[j]) by {
                assert(all[j] == j);
            }
            lemma_first_match(all, wanted, None);
        }
        None
    }

    /// Reads the cell that starts at `at`, and returns it with the place
    /// where it ends. `None` if `bytes` ends before the cell does.
    pub fn read(bytes: &[u8], at: usize) -> (r: Option<(NavCell, usize)>)
        ensures
            match r {
                Some((cell, end)) => nav_cell_at(bytes@, at as int) == Some((cell@, end as int))
                    && cell.wf(),
                None => nav_cell_at(bytes@, at as int) is None,
            },
    {
        if at > bytes.len() || !fits(bytes, at, 12) {
            return None;
        }
        let grid_x = read_i32(bytes, at);
        let grid_y = read_i32(bytes, at + 4);
        let nodes_count = read_u32(bytes, at + 8);
        let start = at + 12;
        if (bytes.len() - start) / NODE_SIZE < nodes_count as usize {
            return None;
        }
        let mut nodes: Vec<Position> = Vec::new();
        let mut k: usize = 0;
        while k < nodes_count as usize
            invariant
                bytes@.len() <= usize::MAX,
                start + NODE_SIZE * nodes_count <= bytes@.len(),
                k <= nodes_count,
                nodes@ == Seq::new(k as nat, |j: int| node_at(bytes@, start + NODE_SIZE * j)),
            decreases nodes_count - k,
        {
            let p = start + NODE_SIZE * k;
            nodes.push(
                Position {
                    x: read_i32(bytes, p),
                    y: read_i32(bytes, p + 4),
                    z: read_i32(bytes, p + 8),
                },
            );
            assert(nodes@ =~= Seq::new(
                (k + 1) as nat,
                |j: int| node_at(bytes@, start + NODE_SIZE * j),
            ));
            k += 1;
        }
        let after_nodes = start + NODE_SIZE * nodes_count as usize;
        if !fits(bytes, after_nodes, 4) {
            return None;
        }
        let triangles_count = read_u32(bytes, after_nodes);
        match Triangle::read_many(bytes, after_nodes + 4, triangles_count) {
            Some((triangles, end)) => Some((NavCell { grid_x, grid_y, nodes, triangles }, end)),
            None => None,
        }
    }
}

/// The column or row of the grid in which the coordinate `c` lies.
fn grid_index_of(c: i32) -> (g: i32)
    ensures
        g == grid_index(c as int),
{
    if c >= 0 {
        c / CELL_EXTENT
    } else {
        let up: i64 = (-(c as i64) + (CELL_EXTENT as i64 - 1)) / (CELL_EXTENT as i64);
        (-up) as i32
    }
}

impl NavMesh {
    /// Every cell of the mesh is well formed.
    pub open spec fn wf(&self) -> bool {
        forall|i: int| 0 <= i < self.cells@.len() ==> (#[trigger] self.cells@[i]).wf()
    }

    /// Decodes the mesh that `bytes` starts with.
    pub fn decode(bytes: &[u8]) -> (r: Result<NavMesh, NavDataError>)
        ensures
            match r {
                Ok(mesh) => nav_mesh_of(bytes@) == Some(mesh@) && mesh.wf(),
                Err(e) => nav_mesh_of(bytes@) is None && e == NavDataError::Truncated,
            },
    {
        if bytes.len() < 4 {
            return Err(NavDataError::Truncated);
        }
        let cells_count = read_u32(bytes, 0);
        let mut cells: Vec<NavCell> = Vec::new();
        let mut pos: usize = 4;
        let mut k: u32 = 0;
        let ghost mut seen: Seq<NavCellView> = Seq::empty();
        while k < cells_count
            invariant
                bytes@.len() >= 4,
                cells_count == le_u32(bytes@, 0),
                k <= cells_count,
                seen == Seq::new(cells@.len(), |i: int| cells@[i]@),
                nav_cells_at(bytes@, 4, k as nat) == Some((seen, pos as int)),
                forall|i: int| 0 <= i < cells@.len() ==> (#[trigger] cells@[i]).wf(),
            decreases cells_count - k,
        {
            match NavCell::read(bytes, pos) {
                Some((cell, end)) => {
                    proof {
                        seen = seen.push(cell@);
                    }
                    cells.push(cell);
                    assert(seen =~= Seq::new(cells@.len(), |i: int| cells@[i]@));
                    pos = end;
                },
                None => {
                    proof {
                        assert(nav_cells_at(bytes@, 4, (k + 1) as nat) is None);
                        lemma_nav_cells_at_none(bytes@, 4, (k + 1) as nat, cells_count as nat);
                    }
                    return Err(NavDataError::Truncated);
                },
            }
            k += 1;
        }
        Ok(NavMesh { cells })
    }

    /// Expands a compressed mesh and decodes it. The data are one LZ4
    /// block with its expanded size in front.
    pub fn load(compressed: &[u8]) -> (r: Result<NavMesh, NavDataError>)
        ensures
            match (lz4_expanded(compressed@), r) {
                (Some(raw), Ok(mesh)) => nav_mesh_of(raw) == Some(mesh@) && mesh.wf(),
                (Some(raw), Err(NavDataError::Truncated)) => nav_mesh_of(raw) is None,
                (None, Err(NavDataError::Corrupt)) => true,
                _ => false,
            },
    {
        match expand(compressed) {
            Ok(raw) => NavMesh::decode(raw.as_slice()),
            Err(_) => Err(NavDataError::Corrupt),
        }
    }

    /// The place of the cell in which `position` lies: the first cell, in
    /// stored order, at the grid column of its x and the grid row of its z.
    pub fn cell_of(&self, position: &Position) -> (found: Option<usize>)
        ensures
            match found {
                Some(i) => cell_of(self@, *position) == Some(i as int) && i < self@.len(),
                None => cell_of(self@, *position) is None,
            },
    {
        let column = grid_index_of(position.x);
        let row = grid_index_of(position.z);
        let ghost wanted = cell_at_grid(column as int, row as int);
        let mut i: usize = 0;
        while i < self.cells.len()
            invariant
                column == grid_index(position.x as int),
                row == grid_index(position.z as int),
                wanted == cell_at_grid(column as int, row as int),
                i <= self.cells@.len(),
                forall|j: int| 0 <= j < i ==> !wanted(#[trigger] self@[j]),
            decreases self.cells@.len() - i,
        {
            if self.cells[i].grid_x == column && self.cells[i].grid_y == row {
                proof {
                    assert(self@[i as int] == self.cells@[i as int]@);
                    lemma_first_match(self@, wanted, Some(i as int));
                }
                return Some(i);
            }
            assert(self@[i as int] == self.cells@[i as int]@);
            i += 1;
        }
        proof {
            lemma_first_match(self@, wanted, None);
        }
        None
    }
}

} // verus!
