//! The binary layouts of navigation and terrain records. All numbers are
//! little-endian; every array is preceded by the count of its items, in
//! four bytes.

use vstd::prelude::*;

verus! {

/// The unsigned 16-bit number that the two bytes of `b` from `at` spell.
pub open spec fn le_u16(b: Seq<u8>, at: int) -> int {
    b[at] + 0x100 * b[at + 1]
}

/// The signed 16-bit number that the two bytes of `b` from `at` spell, in
/// two's complement.
pub open spec fn le_i16(b: Seq<u8>, at: int) -> int {
    if le_u16(b, at) >= 0x8000 {
        le_u16(b, at) - 0x1_0000
    } else {
        le_u16(b, at)
    }
}

/// The unsigned 32-bit number that the four bytes of `b` from `at` spell.
pub open spec fn le_u32(b: Seq<u8>, at: int) -> int {
    b[at] + 0x100 * b[at + 1] + 0x1_0000 * b[at + 2] + 0x100_0000 * b[at + 3]
}

/// The signed 32-bit number that the four bytes of `b` from `at` spell, in
/// two's complement.
pub open spec fn le_i32(b: Seq<u8>, at: int) -> int {
    if le_u32(b, at) >= 0x8000_0000 {
        le_u32(b, at) - 0x1_0000_0000
    } else {
        le_u32(b, at)
    }
}

/// The `n` signed 32-bit numbers that lie end to end in `b` from `at`.
pub open spec fn le_i32s(b: Seq<u8>, at: int, n: nat) -> Seq<i32> {
    Seq::new(n, |k: int| le_i32(b, at + 4 * k) as i32)
}

pub(crate) fn read_u16(bytes: &[u8], at: usize) -> (v: u16)
    requires
        at + 2 <= bytes@.len(),
    ensures
        v == le_u16(bytes@, at as int),
{
    bytes[at] as u16 + 0x100 * (bytes[at + 1] as u16)
}

pub(crate) fn read_i16(bytes: &[u8], at: usize) -> (v: i16)
    requires
        at + 2 <= bytes@.len(),
    ensures
        v == le_i16(bytes@, at as int),
{
    let u = read_u16(bytes, at);
    if u >= 0x8000 {
        (u as i32 - 0x1_0000) as i16
    } else {
        u as i16
    }
}

pub(crate) fn read_u32(bytes: &[u8], at: usize) -> (v: u32)
    requires
        at + 4 <= bytes@.len(),
    ensures
        v == le_u32(bytes@, at as int),
{
    bytes[at] as u32 + 0x100 * (bytes[at + 1] as u32) + 0x1_0000 * (bytes[at + 2] as u32)
        + 0x100_0000 * (bytes[at + 3] as u32)
}

pub(crate) fn read_i32(bytes: &[u8], at: usize) -> (v: i32)
    requires
        at + 4 <= bytes@.len(),
    ensures
        v == le_i32(bytes@, at as int),
{
    let u = read_u32(bytes, at);
    if u >= 0x8000_0000 {
        (u as i64 - 0x1_0000_0000) as i32
    } else {
        u as i32
    }
}

/// Whether `need` more bytes lie in `bytes` from `at`.
pub(crate) fn fits(bytes: &[u8], at: usize, need: usize) -> (b: bool)
    requires
        at <= bytes@.len(),
    ensures
        b == (at + need <= bytes@.len()),
{
    bytes.len() - at >= need
}

/// A terrain vertex: 12 bytes.
#[derive(Debug, Clone, Copy, PartialEq, Eq, Structural)]
pub struct Vertices {
    pub x: u16,
    pub y: u16,
    pub hf: i16,
    pub hn: i16,
    pub color: u32,
}

/// Bytes that a [`Vertices`] record takes.
pub const VERTICES_SIZE: usize = 12;

/// The terrain vertex laid out in `b` from `at`, if twelve bytes are there.
pub open spec fn vertices_at(b: Seq<u8>, at: int) -> Option<Vertices> {
    if 0 <= at && at + VERTICES_SIZE <= b.len() {
        Some(
            Vertices {
                x: le_u16(b, at) as u16,
                y: le_u16(b, at + 2) as u16,
                hf: le_i16(b, at + 4) as i16,
                hn: le_i16(b, at + 6) as i16,
                color: le_u32(b, at + 8) as u32,
            },
        )
    } else {
        None
    }
}

impl Vertices {
    /// Reads the record that starts at `at`. `None` if `bytes` ends before
    /// the record does.
    pub fn read(bytes: &[u8], at: usize) -> (v: Option<Vertices>)
        ensures
            v == vertices_at(bytes@, at as int),
    {
        if at > bytes.len() || !fits(bytes, at, VERTICES_SIZE) {
            return None;
        }
        Some(
            Vertices {
                x: read_u16(bytes, at),
                y: read_u16(bytes, at + 2),
                hf: read_i16(bytes, at + 4),
                hn: read_i16(bytes, at + 6),
                color: read_u32(bytes, at + 8),
            },
        )
    }
}

/// A render batch of the terrain: 20 bytes.
#[derive(Debug, Clone, Copy, PartialEq, Eq, Structural)]
pub struct Batches {
    pub unk: u32,
    pub index_offset: u32,
    pub index_count: u32,
    pub vertex_offset: u32,
    pub vertex_count: u32,
}

/// Bytes that a [`Batches`] record takes.
pub const BATCHES_SIZE: usize = 20;

/// The render batch laid out in `b` from `at`, if twenty bytes are there.
pub open spec fn batches_at(b: Seq<u8>, at: int) -> Option<Batches> {
    if 0 <= at && at + BATCHES_SIZE <= b.len() {
        Some(
            Batches {
                unk: le_u32(b, at) as u32,
                index_offset: le_u32(b, at + 4) as u32,
                index_count: le_u32(b, at + 8) as u32,
                vertex_offset: le_u32(b, at + 12) as u32,
                vertex_count: le_u32(b, at + 16) as u32,
            },
        )
    } else {
        None
    }
}

impl Batches {
    /// Reads the record that starts at `at`. `None` if `bytes` ends before
    /// the record does.
    pub fn read(bytes: &[u8], at: usize) -> (v: Option<Batches>)
        ensures
            v == batches_at(bytes@, at as int),
    {
        if at > bytes.len() || !fits(bytes, at, BATCHES_SIZE) {
            return None;
        }
        Some(
            Batches {
                unk: read_u32(bytes, at),
                index_offset: read_u32(bytes, at + 4),
                index_count: read_u32(bytes, at + 8),
                vertex_offset: read_u32(bytes, at + 12),
                vertex_count: read_u32(bytes, at + 16),
            },
        )
    }
}

/// A polygon of the navigation mesh: three corners, given as indices into
/// a list of nodes, and the polygons it borders on, given as indices into
/// the list of polygons it belongs to.
#[derive(Debug, Clone)]
pub struct Triangle {
    pub vertices: [i32; 3],
    pub neighbors_count: u32,
    pub neighbors: Vec<i32>,
}

/// The mathematical content of a [`Triangle`].
pub struct TriangleView {
    /// The three corners.
    pub vertices: Seq<i32>,
    pub neighbors_count: u32,
    pub neighbors: Seq<i32>,
}

impl View for Triangle {
    type V = TriangleView;

    open spec fn view(&self) -> TriangleView {
        TriangleView {
            vertices: self.vertices@,
            neighbors_count: self.neighbors_count,
            neighbors: self.neighbors@,
        }
    }
}

/// Bytes that a triangle takes before its neighbours.
pub const TRIANGLE_HEAD_SIZE: usize = 16;

/// The triangle laid out in `b` from `at`, and the place where it ends:
/// three corners, the count of neighbours, and that many neighbours.
/// `None` if `b` ends before the triangle does.
pub open spec fn triangle_at(b: Seq<u8>, at: int) -> Option<(TriangleView, int)> {
    if 0 <= at && at + TRIANGLE_HEAD_SIZE <= b.len() && at + TRIANGLE_HEAD_SIZE + 4 * le_u32(
        b,
        at + 12,
    ) <= b.len() {
        Some(
            (
                TriangleView {
                    vertices: le_i32s(b, at, 3),
                    neighbors_count: le_u32(b, at + 12) as u32,
                    neighbors: le_i32s(b, at + 16, le_u32(b, at + 12) as nat),
                },
                at + TRIANGLE_HEAD_SIZE + 4 * le_u32(b, at + 12),
            ),
        )
    } else {
        None
    }
}

/// The `n` triangles laid end to end in `b` from `at`, and the place where
/// the last one ends.
pub open spec fn triangles_at(b: Seq<u8>, at: int, n: nat) -> Option<(Seq<TriangleView>, int)>
    decreases n,
{
    if n == 0 {
        Some((Seq::empty(), at))
    } else {
        match triangles_at(b, at, (n - 1) as nat) {
            Some((front, mid)) => match triangle_at(b, mid) {
                Some((last, end)) => Some((front.push(last), end)),
                None => None,
            },
            None => None,
        }
    }
}

/// Where `n` triangles from `at` fit into `b`, there are `n` of them.
pub proof fn lemma_triangles_at_len(b: Seq<u8>, at: int, n: nat)
    ensures
        triangles_at(b, at, n) matches Some((ts, _)) ==> ts.len() == n,
    decreases n,
{
    if n > 0 {
        lemma_triangles_at_len(b, at, (n - 1) as nat);
    }
}

/// Where fewer triangles do not fit, more do not either.
pub proof fn lemma_triangles_at_none(b: Seq<u8>, at: int, k: nat, n: nat)
    requires
        k <= n,
        triangles_at(b, at, k) is None,
    ensures
        triangles_at(b, at, n) is None,
    decreases n,
{
    if k < n {
        lemma_triangles_at_none(b, at, k, (n - 1) as nat);
    }
}

/// The sequence of views of a list of triangles.
pub open spec fn triangle_views(ts: Seq<Triangle>) -> Seq<TriangleView> {
    Seq::new(ts.len(), |i: int| ts[i]@)
}

impl Triangle {
    /// The list of neighbours is as long as the count says.
    pub open spec fn wf(&self) -> bool {
        self.neighbors@.len() == self.neighbors_count
    }

    /// Reads the triangle that starts at `at`, and returns it with the
    /// place where it ends. `None` if `bytes` ends before the triangle does.
    pub fn read(bytes: &[u8], at: usize) -> (r: Option<(Triangle, usize)>)
        ensures
            match r {
                Some((t, end)) => triangle_at(bytes@, at as int) == Some((t@, end as int))
                    && t.wf(),
                None => triangle_at(bytes@, at as int) is None,
            },
    {
        if at > bytes.len() || !fits(bytes, at, TRIANGLE_HEAD_SIZE) {
            return None;
        }
        let vertices = [read_i32(bytes, at), read_i32(bytes, at + 4), read_i32(bytes, at + 8)];
        let neighbors_count = read_u32(bytes, at + 12);
        let start = at + TRIANGLE_HEAD_SIZE;
        if (bytes.len() - start) / 4 < neighbors_count as usize {
            return None;
        }
        let mut neighbors: Vec<i32> = Vec::new();
        let mut k: usize = 0;
        while k < neighbors_count as usize
            invariant
                bytes@.len() <= usize::MAX,
                start == at + TRIANGLE_HEAD_SIZE,
                start + 4 * neighbors_count <= bytes@.len(),
                k <= neighbors_count,
                neighbors@ == le_i32s(bytes@, start as int, k as nat),
            decreases neighbors_count - k,
        {
            neighbors.push(read_i32(bytes, start + 4 * k));
            assert(neighbors@ =~= le_i32s(bytes@, start as int, (k + 1) as nat));
            k += 1;
        }
        assert(vertices@ =~= le_i32s(bytes@, at as int, 3));
        Some((Triangle { vertices, neighbors_count, neighbors }, start + 4 * neighbors_count as usize))
    }

    /// Reads `n` triangles laid end to end from `at`, and returns them with
    /// the place where the last one ends. `None` if `bytes` ends before
    /// they do.
    pub fn read_many(bytes: &[u8], at: usize, n: u32) -> (r: Option<(Vec<Triangle>, usize)>)
        ensures
            match r {
                Some((ts, end)) => triangles_at(bytes@, at as int, n as nat) == Some(
                    (triangle_views(ts@), end as int),
                ) && forall|i: int| 0 <= i < ts@.len() ==> (#[trigger] ts@[i]).wf(),
                None => triangles_at(bytes@, at as int, n as nat) is None,
            },
    {
        let mut triangles: Vec<Triangle> = Vec::new();
        let mut pos = at;
        let mut k: u32 = 0;
        assert(triangle_views(triangles@) =~= Seq::empty());
        while k < n
            invariant
                k <= n,
                triangles_at(bytes@, at as int, k as nat) == Some(
                    (triangle_views(triangles@), pos as int),
                ),
                forall|i: int| 0 <= i < triangles@.len() ==> (#[trigger] triangles@[i]).wf(),
            decreases n - k,
        {
            match Triangle::read(bytes, pos) {
                Some((t, end)) => {
                    assert(triangle_views(triangles@.push(t)) =~= triangle_views(triangles@).push(
                        t@,
                    ));
                    triangles.push(t);
                    pos = end;
                },
                None => {
                    proof {
                        assert(triangles_at(bytes@, at as int, (k + 1) as nat) is None);
                        lemma_triangles_at_none(bytes@, at as int, (k + 1) as nat, n as nat);
                    }
                    return None;
                },
            }
            k += 1;
        }
        Some((triangles, pos))
    }
}

/// A cell of the flat navigation layout: its place in the grid, and the
/// range of polygons that belong to it.
#[derive(Debug, Clone, Copy, PartialEq, Eq, Structural)]
pub struct Cell {
    pub x: i32,
    pub y: i32,
    pub start_poly_index: u32,
    pub end_poly_index: u32,
}

/// Bytes that a [`Cell`] record takes.
pub const CELL_SIZE: usize = 16;

/// The cell record laid out in `b` from `at`. Sixteen bytes must be there.
pub open spec fn cell_at(b: Seq<u8>, at: int) -> Cell {
    Cell {
        x: le_i32(b, at) as i32,
        y: le_i32(b, at + 4) as i32,
        start_poly_index: le_u32(b, at + 8) as u32,
        end_poly_index: le_u32(b, at + 12) as u32,
    }
}

/// The `n` cell records laid end to end in `b` from `at`, if `b` holds
/// them all.
pub open spec fn cells_at(b: Seq<u8>, at: int, n: nat) -> Option<Seq<Cell>> {
    if 0 <= at && at + CELL_SIZE * n <= b.len() {
        Some(Seq::new(n, |k: int| cell_at(b, at + CELL_SIZE * k)))
    } else {
        None
    }
}

impl Cell {
    /// Reads the record that starts at `at`. `None` if `bytes` ends before
    /// the record does.
    pub fn read(bytes: &[u8], at: usize) -> (c: Option<Cell>)
        ensures
            c == if 0 <= at && at + CELL_SIZE <= bytes@.len() {
                Some(cell_at(bytes@, at as int))
            } else {
                None
            },
    {
        if at > bytes.len() || !fits(bytes, at, CELL_SIZE) {
            return None;
        }
        Some(
            Cell {
                x: read_i32(bytes, at),
                y: read_i32(bytes, at + 4),
                start_poly_index: read_u32(bytes, at + 8),
                end_poly_index: read_u32(bytes, at + 12),
            },
        )
    }
}

/// Navigation data in the flat layout: all cells, then all polygons.
#[derive(Debug, Clone)]
pub struct NavData {
    pub cells_count: u32,
    pub cells: Vec<Cell>,
    pub polygons_count: u32,
    pub polygons: Vec<Triangle>,
}

/// The mathematical content of a [`NavData`].
pub struct NavDataView {
    pub cells_count: u32,
    pub cells: Seq<Cell>,
    pub polygons_count: u32,
    pub polygons: Seq<TriangleView>,
}

impl View for NavData {
    type V = NavDataView;

    open spec fn view(&self) -> NavDataView {
        NavDataView {
            cells_count: self.cells_count,
            cells: self.cells@,
            polygons_count: self.polygons_count,
            polygons: triangle_views(self.polygons@),
        }
    }
}

/// The navigation data that `b` starts with: the count of cells, the
/// cells, the count of polygons, the polygons. Bytes that follow are
/// ignored. `None` if `b` ends before the data does.
pub open spec fn nav_data_of(b: Seq<u8>) -> Option<NavDataView> {
    if b.len() < 4 {
        None
    } else {
        match cells_at(b, 4, le_u32(b, 0) as nat) {
            Some(cells) => {
                let after_cells = 4 + CELL_SIZE * le_u32(b, 0);
                if after_cells + 4 > b.len() {
                    None
                } else {
                    match triangles_at(b, after_cells + 4, le_u32(b, after_cells) as nat) {
                        Some((polygons, _)) => Some(
                            NavDataView {
                                cells_count: le_u32(b, 0) as u32,
                                cells,
                                polygons_count: le_u32(b, after_cells) as u32,
                                polygons,
                            },
                        ),
                        None => None,
                    }
                }
            },
            None => None,
        }
    }
}

/// What is wrong with navigation data.
#[derive(Debug, Clone, Copy, PartialEq, Eq, Structural)]
pub enum NavDataError {
    /// The compressed block cannot be expanded.
    Corrupt,
    /// The data ends before all that it announces has been read.
    Truncated,
}

impl NavData {
    /// The lists are as long as the counts say.
    pub open spec fn wf(&self) -> bool {
        &&& self.cells@.len() == self.cells_count
        &&& self.polygons@.len() == self.polygons_count
        &&& forall|i: int| 0 <= i < self.polygons@.len() ==> (#[trigger] self.polygons@[i]).wf()
    }

    /// Decodes the navigation data that `bytes` starts with.
    pub fn decode(bytes: &[u8]) -> (r: Result<NavData, NavDataError>)
        ensures
            match r {
                Ok(data) => nav_data_of(bytes@) == Some(data@) && data.wf(),
                Err(e) => nav_data_of(bytes@) is None && e == NavDataError::Truncated,
            },
    {
        if bytes.len() < 4 {
            return Err(NavDataError::Truncated);
        }
        let cells_count = read_u32(bytes, 0);
        if (bytes.len() - 4) / CELL_SIZE < cells_count as usize {
            return Err(NavDataError::Truncated);
        }
        let mut cells: Vec<Cell> = Vec::new();
        let mut k: usize = 0;
        while k < cells_count as usize
            invariant
                bytes@.len() <= usize::MAX,
                4 + CELL_SIZE * cells_count <= bytes@.len(),
                k <= cells_count,
                cells@ == Seq::new(k as nat, |j: int| cell_at(bytes@, 4 + CELL_SIZE * j)),
            decreases cells_count - k,
        {
            let at = 4 + CELL_SIZE * k;
            cells.push(
                Cell {
                    x: read_i32(bytes, at),
                    y: read_i32(bytes, at + 4),
                    start_poly_index: read_u32(bytes, at + 8),
                    end_poly_index: read_u32(bytes, at + 12),
                },
            );
            assert(cells@ =~= Seq::new((k + 1) as nat, |j: int| cell_at(bytes@, 4 + CELL_SIZE * j)));
            k += 1;
        }
        let after_cells = 4 + CELL_SIZE * cells_count as usize;
        if !fits(bytes, after_cells, 4) {
            return Err(NavDataError::Truncated);
        }
        let polygons_count = read_u32(bytes, after_cells);
        match Triangle::read_many(bytes, after_cells + 4, polygons_count) {
            Some((polygons, _)) => {
                proof {
                    lemma_triangles_at_len(bytes@, after_cells + 4, polygons_count as nat);
                }
                Ok(NavData { cells_count, cells, polygons_count, polygons })
            },
            None => Err(NavDataError::Truncated),
        }
    }
}

} // verus!
