use h1emu_ai::chunck_schemas::{Batches, Cell, NavData, NavDataError, Triangle, Vertices};
use h1emu_ai::commands::HostCommand;
use h1emu_ai::components::{CharacterId, EntityHandle, Position};
use h1emu_ai::navmesh::{point_in_triangle, NavCell, NavMesh};
use h1emu_ai::pathfinding::{a_star, Bearings, Search};
use h1emu_ai::systems::navigation::{
    follow_breadscrum, get_target_breadscrum, hunt_target_sys, update_current_cell,
};
use h1emu_ai::world::{BreadScrumPath, World};
use h1emu_ai::{AiManager, EntityType};

fn at(x: i32, y: i32, z: i32) -> Position {
    Position { x, y, z }
}

fn put_u32(out: &mut Vec<u8>, v: u32) {
    out.extend_from_slice(&v.to_le_bytes());
}

fn put_i32(out: &mut Vec<u8>, v: i32) {
    out.extend_from_slice(&v.to_le_bytes());
}

fn put_triangle(out: &mut Vec<u8>, corners: [i32; 3], neighbors: &[i32]) {
    for c in corners {
        put_i32(out, c);
    }
    put_u32(out, neighbors.len() as u32);
    for n in neighbors {
        put_i32(out, *n);
    }
}

fn triangle(corners: [i32; 3], neighbors: &[i32]) -> Triangle {
    Triangle { vertices: corners, neighbors_count: neighbors.len() as u32, neighbors: neighbors.to_vec() }
}

/// Four triangles in a row over a strip of two squares, ten units wide.
fn strip() -> NavCell {
    NavCell {
        grid_x: 0,
        grid_y: 0,
        nodes: vec![
            at(0, 0, 0),
            at(10_000, 0, 0),
            at(0, 0, 10_000),
            at(10_000, 0, 10_000),
            at(20_000, 0, 0),
            at(20_000, 0, 10_000),
        ],
        triangles: vec![
            triangle([0, 1, 2], &[1]),
            triangle([1, 3, 2], &[0, 2]),
            triangle([1, 4, 3], &[1, 3]),
            triangle([4, 5, 3], &[2]),
        ],
    }
}

fn strip_bytes() -> Vec<u8> {
    let cell = strip();
    let mut out = Vec::new();
    put_u32(&mut out, 1);
    put_i32(&mut out, cell.grid_x);
    put_i32(&mut out, cell.grid_y);
    put_u32(&mut out, cell.nodes.len() as u32);
    for n in &cell.nodes {
        put_i32(&mut out, n.x);
        put_i32(&mut out, n.y);
        put_i32(&mut out, n.z);
    }
    put_u32(&mut out, cell.triangles.len() as u32);
    for t in &cell.triangles {
        put_triangle(&mut out, t.vertices, &t.neighbors);
    }
    out
}

/// A diamond: 0 borders on 1 and 2, both border on 3; 4 stands alone.
fn diamond() -> NavCell {
    NavCell {
        grid_x: 0,
        grid_y: 0,
        nodes: vec![at(0, 0, 0), at(3000, 0, 0), at(0, 0, 4000), at(9000, 0, 9000)],
        triangles: vec![
            triangle([0, 1, 2], &[1, 2]),
            triangle([1, 2, 3], &[3]),
            triangle([2, 1, 3], &[3, 0]),
            triangle([3, 1, 2], &[]),
            triangle([0, 1, 2], &[0]),
        ],
    }
}

#[test]
fn point_in_triangle_holds_inside_and_on_the_edge() {
    let (a, b, c) = (at(0, 0, 0), at(1000, 0, 0), at(0, 0, 1000));
    assert!(point_in_triangle(&at(100, 5, 100), &a, &b, &c));
    assert!(point_in_triangle(&at(500, 0, 500), &a, &b, &c));
    assert!(point_in_triangle(&at(0, 0, 0), &a, &b, &c));
    assert!(point_in_triangle(&at(1000, 900, 0), &a, &b, &c));
    assert!(!point_in_triangle(&at(501, 0, 500), &a, &b, &c));
    assert!(!point_in_triangle(&at(1000, 0, 1000), &a, &b, &c));
    assert!(!point_in_triangle(&at(-1, 0, 0), &a, &b, &c));
    assert!(point_in_triangle(&at(100, 5, 100), &a, &c, &b));
    assert!(!point_in_triangle(&at(501, 0, 500), &a, &c, &b));
}

#[test]
fn point_in_triangle_holds_at_the_centroid() {
    let (a, b, c) = (at(-3000, 7, 600), at(9000, -2, 1200), at(3000, 0, -9000));
    assert!(point_in_triangle(&at(3000, 0, -2400), &a, &b, &c));
    let (a, b, c) = (at(i32::MIN, 0, i32::MIN), at(i32::MAX, 0, i32::MIN + 1), at(-1, 0, i32::MAX));
    assert!(point_in_triangle(&at(-1, 0, -715827883), &a, &b, &c));
}

#[test]
fn point_in_triangle_fails_outside_the_bounds() {
    let (a, b, c) = (at(0, 0, 0), at(1000, 0, 0), at(0, 0, 1000));
    assert!(!point_in_triangle(&at(1_000_000, 0, 500), &a, &b, &c));
    assert!(!point_in_triangle(&at(-1_000_000, 0, 500), &a, &b, &c));
    assert!(!point_in_triangle(&at(500, 0, 1_000_000), &a, &b, &c));
    assert!(!point_in_triangle(&at(500, 0, -1_000_000), &a, &b, &c));
    assert!(!point_in_triangle(&at(i32::MAX, 0, i32::MAX), &a, &b, &c));
}

#[test]
fn point_in_triangle_without_area_holds_nowhere() {
    let (a, b, c) = (at(0, 0, 0), at(1000, 0, 1000), at(2000, 0, 2000));
    assert!(!point_in_triangle(&at(500, 0, 500), &a, &b, &c));
    assert!(!point_in_triangle(&at(0, 0, 0), &a, &b, &c));
    assert!(!point_in_triangle(&at(7, 0, 7), &at(7, 0, 7), &at(7, 1, 7), &at(7, 2, 7)));
}

#[test]
fn cell_of_quantizes_x_and_z_by_the_cell_extent() {
    let cell = |x: i32, y: i32| NavCell { grid_x: x, grid_y: y, nodes: vec![], triangles: vec![] };
    let mesh = NavMesh { cells: vec![cell(0, 0), cell(1, 0), cell(-1, -1), cell(1, 0), cell(0, 1)] };
    assert_eq!(mesh.cell_of(&at(300_000, 123, 10_000)), Some(1));
    assert_eq!(mesh.cell_of(&at(300_000, -9_999_999, 10_000)), Some(1));
    assert_eq!(mesh.cell_of(&at(10_000, 0, 10_000)), Some(0));
    assert_eq!(mesh.cell_of(&at(255_999, 0, 0)), Some(0));
    assert_eq!(mesh.cell_of(&at(256_000, 0, 255_999)), Some(1));
    assert_eq!(mesh.cell_of(&at(0, 0, 256_000)), Some(4));
    assert_eq!(mesh.cell_of(&at(-1, 0, -1)), Some(2));
    assert_eq!(mesh.cell_of(&at(-256_000, 0, -256_000)), Some(2));
    assert_eq!(mesh.cell_of(&at(-256_001, 0, -1)), None);
    assert_eq!(mesh.cell_of(&at(-1, 0, 0)), None);
    assert_eq!(mesh.cell_of(&at(i32::MIN, 0, i32::MAX)), None);
    assert_eq!(NavMesh { cells: vec![] }.cell_of(&at(0, 0, 0)), None);
}

#[test]
fn cell_of_at_the_ends_of_the_axis() {
    let cell = |x: i32, y: i32| NavCell { grid_x: x, grid_y: y, nodes: vec![], triangles: vec![] };
    let mesh = NavMesh { cells: vec![cell(-8389, 8388)] };
    assert_eq!(mesh.cell_of(&at(i32::MIN, 0, i32::MAX)), Some(0));
}

#[test]
fn polygon_of_gives_the_first_polygon_that_holds_the_point() {
    let cell = strip();
    assert_eq!(cell.polygon_of(&at(1000, 0, 1000)), Some(0));
    assert_eq!(cell.polygon_of(&at(9000, 50, 9000)), Some(1));
    assert_eq!(cell.polygon_of(&at(5000, 0, 5000)), Some(0));
    assert_eq!(cell.polygon_of(&at(10_000, 0, 0)), Some(0));
    assert_eq!(cell.polygon_of(&at(12_000, 0, 1000)), Some(2));
    assert_eq!(cell.polygon_of(&at(19_000, 0, 9000)), Some(3));
    assert_eq!(cell.polygon_of(&at(20_000, 0, 0)), Some(2));
    assert_eq!(cell.polygon_of(&at(20_001, 0, 0)), None);
    assert_eq!(cell.polygon_of(&at(-1, 0, 5)), None);
}

#[test]
fn polygon_of_skips_polygons_with_corners_that_are_no_nodes() {
    let mut cell = strip();
    cell.triangles[0].vertices = [0, 1, 6];
    assert_eq!(cell.polygon_of(&at(1000, 0, 1000)), None);
    cell.triangles[0].vertices = [0, -1, 2];
    assert_eq!(cell.polygon_of(&at(1000, 0, 1000)), None);
    assert_eq!(cell.corner(0, 0), Some(at(0, 0, 0)));
    assert_eq!(cell.corner(0, 1), None);
    assert_eq!(cell.corner(0, 3), None);
    assert_eq!(cell.corner(4, 0), None);
    assert_eq!(cell.corner(3, 1), Some(at(20_000, 0, 10_000)));
}

#[test]
fn path_to_the_start_itself_is_empty() {
    let cell = diamond();
    for p in 0..5 {
        assert_eq!(a_star(&cell, p, p), Vec::<usize>::new());
    }
}

#[test]
fn path_to_an_unreachable_polygon_is_empty() {
    let cell = diamond();
    assert_eq!(a_star(&cell, 0, 4), Vec::<usize>::new());
    assert_eq!(a_star(&cell, 3, 0), Vec::<usize>::new());
    assert_eq!(a_star(&cell, 1, 0), Vec::<usize>::new());
    assert_eq!(a_star(&cell, 0, 5), Vec::<usize>::new());
    assert_eq!(a_star(&cell, 5, 0), Vec::<usize>::new());
    assert_eq!(a_star(&cell, 0, usize::MAX), Vec::<usize>::new());
}

#[test]
fn path_to_a_neighbour_is_that_neighbour() {
    let cell = diamond();
    assert_eq!(a_star(&cell, 0, 1), vec![1]);
    assert_eq!(a_star(&cell, 0, 2), vec![2]);
    assert_eq!(a_star(&cell, 1, 3), vec![3]);
    assert_eq!(a_star(&cell, 2, 0), vec![0]);
    assert_eq!(a_star(&cell, 4, 0), vec![0]);
    let line = strip();
    assert_eq!(a_star(&line, 1, 0), vec![0]);
    assert_eq!(a_star(&line, 2, 3), vec![3]);
}

#[test]
fn path_goes_on_from_the_polygon_found_last() {
    let cell = diamond();
    assert_eq!(a_star(&cell, 0, 3), vec![2, 3]);
    assert_eq!(a_star(&cell, 4, 3), vec![0, 2, 3]);
    let line = strip();
    assert_eq!(a_star(&line, 0, 3), vec![1, 2, 3]);
    assert_eq!(a_star(&line, 3, 0), vec![2, 1, 0]);
}

#[test]
fn path_passes_by_polygons_without_a_first_corner() {
    let mut cell = diamond();
    cell.triangles[2].vertices = [9, 1, 3];
    assert_eq!(a_star(&cell, 0, 3), vec![1, 3]);
    assert_eq!(a_star(&cell, 0, 2), Vec::<usize>::new());
    cell.triangles[0].vertices = [-1, 1, 2];
    assert_eq!(a_star(&cell, 0, 3), Vec::<usize>::new());
}

#[test]
fn path_ignores_neighbours_that_are_no_polygons() {
    let mut cell = strip();
    cell.triangles[0].neighbors = vec![-1, 4, i32::MAX, i32::MIN, 0, 1];
    cell.triangles[0].neighbors_count = 6;
    assert_eq!(a_star(&cell, 0, 3), vec![1, 2, 3]);
}

#[test]
fn search_values_a_polygon_by_its_distances_from_start_and_goal() {
    let cell = diamond();
    let bearings = Bearings { start: at(0, 0, 0), goal: at(9000, 0, 9000) };
    let mut search = Search::new(&cell, 0);
    assert_eq!(search.open, vec![0]);
    assert_eq!(search.cost, vec![None; 5]);
    search.step(&cell, &bearings);
    assert_eq!(search.open, vec![1, 2]);
    assert_eq!(search.closed, vec![true, false, false, false, false]);
    assert_eq!(search.cost, vec![None, Some(3000 + 10_816), Some(4000 + 10_295), None, None]);
    assert_eq!(search.came_from, vec![None, Some(0), Some(0), None, None]);
    search.step(&cell, &bearings);
    assert_eq!(search.open, vec![1, 3]);
    assert_eq!(search.came_from, vec![None, Some(0), Some(0), Some(2), None]);
    assert_eq!(search.cost[3], Some(12_727));
}

#[test]
fn mesh_decodes_cell_by_cell() {
    let bytes = strip_bytes();
    let mesh = NavMesh::decode(&bytes).unwrap();
    assert_eq!(mesh.cells.len(), 1);
    let (got, want) = (&mesh.cells[0], strip());
    assert_eq!((got.grid_x, got.grid_y), (0, 0));
    assert_eq!(got.nodes, want.nodes);
    assert_eq!(got.triangles.len(), 4);
    for (g, w) in got.triangles.iter().zip(want.triangles.iter()) {
        assert_eq!(g.vertices, w.vertices);
        assert_eq!(g.neighbors_count, w.neighbors_count);
        assert_eq!(g.neighbors, w.neighbors);
    }
}

#[test]
fn mesh_decodes_negative_numbers_and_ignores_what_follows() {
    let mut bytes = Vec::new();
    put_u32(&mut bytes, 2);
    put_i32(&mut bytes, -3);
    put_i32(&mut bytes, i32::MIN);
    put_u32(&mut bytes, 1);
    put_i32(&mut bytes, -1);
    put_i32(&mut bytes, i32::MAX);
    put_i32(&mut bytes, -256_000);
    put_u32(&mut bytes, 1);
    put_triangle(&mut bytes, [-1, 0, 70_000], &[-5, 0x0102_0304]);
    put_i32(&mut bytes, 7);
    put_i32(&mut bytes, 8);
    put_u32(&mut bytes, 0);
    put_u32(&mut bytes, 0);
    bytes.extend_from_slice(&[0xAA, 0xBB, 0xCC]);
    let mesh = NavMesh::decode(&bytes).unwrap();
    assert_eq!(mesh.cells.len(), 2);
    assert_eq!((mesh.cells[0].grid_x, mesh.cells[0].grid_y), (-3, i32::MIN));
    assert_eq!(mesh.cells[0].nodes, vec![at(-1, i32::MAX, -256_000)]);
    assert_eq!(mesh.cells[0].triangles[0].vertices, [-1, 0, 70_000]);
    assert_eq!(mesh.cells[0].triangles[0].neighbors, vec![-5, 0x0102_0304]);
    assert_eq!((mesh.cells[1].grid_x, mesh.cells[1].grid_y), (7, 8));
    assert!(mesh.cells[1].nodes.is_empty() && mesh.cells[1].triangles.is_empty());
}

#[test]
fn mesh_that_ends_early_is_truncated() {
    let bytes = strip_bytes();
    for cut in 0..bytes.len() {
        assert_eq!(NavMesh::decode(&bytes[..cut]).err(), Some(NavDataError::Truncated), "cut at {}", cut);
    }
    assert!(NavMesh::decode(&bytes).is_ok());
    let mut lying = Vec::new();
    put_u32(&mut lying, u32::MAX);
    assert_eq!(NavMesh::decode(&lying).err(), Some(NavDataError::Truncated));
    let mut empty = Vec::new();
    put_u32(&mut empty, 0);
    assert_eq!(NavMesh::decode(&empty).unwrap().cells.len(), 0);
}

#[test]
fn mesh_with_a_count_beyond_its_data_is_truncated() {
    let mut bytes = Vec::new();
    put_u32(&mut bytes, 1);
    put_i32(&mut bytes, 0);
    put_i32(&mut bytes, 0);
    put_u32(&mut bytes, 0);
    put_u32(&mut bytes, 1);
    put_triangle(&mut bytes, [0, 0, 0], &[]);
    assert!(NavMesh::decode(&bytes).is_ok());
    let n = bytes.len();
    bytes[n - 4..].copy_from_slice(&0x4000_0000u32.to_le_bytes());
    assert_eq!(NavMesh::decode(&bytes).err(), Some(NavDataError::Truncated));
}

#[test]
fn mesh_loads_from_a_compressed_block() {
    let raw = strip_bytes();
    let packed = lz4_flex::block::compress_prepend_size(&raw);
    assert_ne!(packed, raw);
    let mesh = NavMesh::load(&packed).unwrap();
    assert_eq!(mesh.cells[0].nodes, strip().nodes);
    assert_eq!(NavMesh::load(&raw).err(), Some(NavDataError::Corrupt));
    assert_eq!(NavMesh::load(&[]).err(), Some(NavDataError::Corrupt));
    assert_eq!(NavMesh::load(&[1, 2, 3]).err(), Some(NavDataError::Corrupt));
    let short = lz4_flex::block::compress_prepend_size(&raw[..raw.len() - 1]);
    assert_eq!(NavMesh::load(&short).err(), Some(NavDataError::Truncated));
}

#[test]
fn failed_load_keeps_the_mesh_loaded_before() {
    let mut ai = AiManager::initialize_at(Some(true), 0);
    assert_eq!(ai.load_nav_data(&[9, 9]), Err(NavDataError::Corrupt));
    assert!(ai.navmesh.is_none());
    let packed = lz4_flex::block::compress_prepend_size(&strip_bytes());
    assert_eq!(ai.load_nav_data(&packed), Ok(()));
    assert_eq!(ai.navmesh.as_ref().unwrap().cells.len(), 1);
    assert_eq!(ai.load_nav_data(&[9, 9]), Err(NavDataError::Corrupt));
    let short = lz4_flex::block::compress_prepend_size(&[1, 0, 0, 0]);
    assert_eq!(ai.load_nav_data(&short), Err(NavDataError::Truncated));
    assert_eq!(ai.navmesh.as_ref().unwrap().cells[0].nodes.len(), 6);
}

#[test]
fn flat_navigation_data_decodes() {
    let mut bytes = Vec::new();
    put_u32(&mut bytes, 2);
    for (x, y, s, e) in [(1i32, -2i32, 0u32, 1u32), (i32::MIN, i32::MAX, 1, u32::MAX)] {
        put_i32(&mut bytes, x);
        put_i32(&mut bytes, y);
        put_u32(&mut bytes, s);
        put_u32(&mut bytes, e);
    }
    put_u32(&mut bytes, 2);
    put_triangle(&mut bytes, [0, 1, 2], &[1]);
    put_triangle(&mut bytes, [2, 1, -3], &[0, 7, -1]);
    let full = bytes.clone();
    bytes.push(0xFF);
    let data = NavData::decode(&bytes).unwrap();
    assert_eq!(data.cells_count, 2);
    assert_eq!(
        data.cells,
        vec![
            Cell { x: 1, y: -2, start_poly_index: 0, end_poly_index: 1 },
            Cell { x: i32::MIN, y: i32::MAX, start_poly_index: 1, end_poly_index: u32::MAX },
        ]
    );
    assert_eq!(data.polygons_count, 2);
    assert_eq!(data.polygons[1].vertices, [2, 1, -3]);
    assert_eq!(data.polygons[1].neighbors_count, 3);
    assert_eq!(data.polygons[1].neighbors, vec![0, 7, -1]);
    assert_eq!(data.polygons[0].neighbors, vec![1]);
    for cut in 0..full.len() {
        assert_eq!(NavData::decode(&full[..cut]).err(), Some(NavDataError::Truncated), "cut at {}", cut);
    }
}

#[test]
fn records_read_from_their_place() {
    let mut bytes = vec![0xEE];
    put_i32(&mut bytes, -7);
    put_i32(&mut bytes, 8);
    put_u32(&mut bytes, 0xDEAD_BEEF);
    put_u32(&mut bytes, 4);
    put_u32(&mut bytes, 5);
    assert_eq!(
        Cell::read(&bytes, 1),
        Some(Cell { x: -7, y: 8, start_poly_index: 0xDEAD_BEEF, end_poly_index: 4 })
    );
    assert_eq!(Cell::read(&bytes, 6), None);
    assert_eq!(Cell::read(&bytes, usize::MAX), None);
    assert_eq!(
        Batches::read(&bytes, 1),
        Some(Batches {
            unk: (-7i32) as u32,
            index_offset: 8,
            index_count: 0xDEAD_BEEF,
            vertex_offset: 4,
            vertex_count: 5,
        })
    );
    assert_eq!(Batches::read(&bytes, 2), None);
    let v = [0x34u8, 0x12, 0xFF, 0xFF, 0xFE, 0xFF, 0x00, 0x80, 0x78, 0x56, 0x34, 0x12];
    assert_eq!(
        Vertices::read(&v, 0),
        Some(Vertices { x: 0x1234, y: 0xFFFF, hf: -2, hn: i16::MIN, color: 0x1234_5678 })
    );
    assert_eq!(Vertices::read(&v, 1), None);
    assert!(Triangle::read(&bytes, 1).is_none());
    let mut tri = Vec::new();
    put_triangle(&mut tri, [1, 2, 3], &[4, 5]);
    put_triangle(&mut tri, [6, 7, 8], &[]);
    let (ts, end) = Triangle::read_many(&tri, 0, 2).unwrap();
    assert_eq!((ts.len(), end), (2, 40));
    assert_eq!(ts[0].neighbors, vec![4, 5]);
    assert_eq!(ts[1].vertices, [6, 7, 8]);
    let (t, end) = Triangle::read(&tri, 24).unwrap();
    assert_eq!((t.vertices, t.neighbors_count, t.neighbors.len(), end), ([6, 7, 8], 0, 0, 40));
    assert!(Triangle::read_many(&tri, 0, 3).is_none());
    assert!(Triangle::read(&tri, 25).is_none());
}

fn hunter_and_prey() -> (AiManager, u64, u64) {
    let mut ai = AiManager::initialize_at(Some(true), 0);
    let packed = lz4_flex::block::compress_prepend_size(&strip_bytes());
    ai.load_nav_data(&packed).unwrap();
    let z = ai
        .add_entity(EntityHandle(1), EntityType::Zombie, at(1000, 0, 1000), CharacterId("z".into()))
        .unwrap();
    let p = ai
        .add_entity(EntityHandle(2), EntityType::Player, at(19_000, 0, 9000), CharacterId("p".into()))
        .unwrap();
    (ai, z, p)
}

fn go_tos(commands: &[HostCommand]) -> Vec<(u64, Position)> {
    commands
        .iter()
        .filter_map(|c| match c {
            HostCommand::GoTo { handle, position } => Some((handle.0, *position)),
            _ => None,
        })
        .collect()
}

#[test]
fn hunter_walks_its_path_one_polygon_a_tick() {
    let (mut ai, z, _) = hunter_and_prey();
    let path = |ai: &AiManager| ai.world.get(z).unwrap().path.as_ref().map(|p| p.0.clone());
    let tick = ai.run_at(1000);
    assert!(go_tos(&tick.commands).is_empty());
    assert_eq!(ai.world.get(z).unwrap().current_cell, Some(0));
    assert_eq!(ai.world.get(z).unwrap().target, Some(at(19_000, 0, 9000)));
    assert_eq!(path(&ai), Some(vec![1, 2, 3]));
    let tick = ai.run_at(2000);
    assert_eq!(go_tos(&tick.commands), vec![(1, at(10_000, 500, 0))]);
    assert_eq!(ai.world.get(z).unwrap().position, at(10_000, 0, 0));
    assert_eq!(path(&ai), Some(vec![2, 3]));
    let tick = ai.run_at(3000);
    assert_eq!(go_tos(&tick.commands), vec![(1, at(10_000, 500, 0))]);
    assert_eq!(path(&ai), Some(vec![3]));
    let tick = ai.run_at(4000);
    assert_eq!(go_tos(&tick.commands), vec![(1, at(20_000, 500, 0))]);
    assert_eq!(ai.world.get(z).unwrap().position, at(20_000, 0, 0));
    assert_eq!(path(&ai), Some(vec![]));
    let tick = ai.run_at(5000);
    assert!(go_tos(&tick.commands).is_empty());
    assert_eq!(path(&ai), Some(vec![3]));
}

#[test]
fn nobody_walks_without_a_mesh_or_without_creatures() {
    let (mut ai, z, _) = hunter_and_prey();
    ai.navmesh = None;
    ai.run_at(1000);
    assert_eq!(ai.world.get(z).unwrap().target, None);
    assert_eq!(ai.world.get(z).unwrap().current_cell, None);
    let (mut ai, z, _) = hunter_and_prey();
    ai.allow_zombies = false;
    ai.run_at(1000);
    assert_eq!(ai.world.get(z).unwrap().target, None);
    assert!(ai.world.get(z).unwrap().path.is_none());
}

fn world_of(ai: AiManager) -> (World, NavMesh) {
    (ai.world, ai.navmesh.unwrap())
}

#[test]
fn walker_that_lost_its_way_loses_its_path() {
    let (ai, z, p) = hunter_and_prey();
    let (mut world, mesh) = world_of(ai);
    let (zi, pi) = (world.index_of(z).unwrap(), world.index_of(p).unwrap());
    let mut out = Vec::new();
    world.entities[zi].path = Some(BreadScrumPath(vec![1]));
    follow_breadscrum(&mut world, &mesh, &mut out);
    assert!(world.entities[zi].path.is_none() && out.is_empty());
    world.entities[zi].current_cell = Some(1);
    world.entities[zi].path = Some(BreadScrumPath(vec![1]));
    world.entities[pi].current_cell = Some(0);
    world.entities[pi].path = Some(BreadScrumPath(vec![4, 1]));
    follow_breadscrum(&mut world, &mesh, &mut out);
    assert!(world.entities[zi].path.is_none());
    assert!(world.entities[pi].path.is_none());
    assert!(out.is_empty());
    world.entities[pi].path = Some(BreadScrumPath(vec![]));
    follow_breadscrum(&mut world, &mesh, &mut out);
    assert!(world.entities[pi].path.is_none() && out.is_empty());
    assert_eq!(world.entities[pi].position, at(19_000, 0, 9000));
}

#[test]
fn walker_is_sent_above_the_waypoint_but_not_above_the_sky() {
    let (ai, z, _) = hunter_and_prey();
    let (mut world, mut mesh) = world_of(ai);
    mesh.cells[0].nodes[1].y = i32::MAX - 499;
    let zi = world.index_of(z).unwrap();
    world.settle();
    world.entities[zi].current_cell = Some(0);
    world.entities[zi].path = Some(BreadScrumPath(vec![1, 3]));
    let mut out = Vec::new();
    follow_breadscrum(&mut world, &mesh, &mut out);
    assert_eq!(go_tos(&out), vec![(1, at(10_000, i32::MAX, 0))]);
    assert_eq!(world.entities[zi].position, at(10_000, i32::MAX - 499, 0));
    assert!(world.entities[zi].moved);
    mesh.cells[0].nodes[4].y = i32::MAX - 500;
    follow_breadscrum(&mut world, &mesh, &mut out);
    assert_eq!(go_tos(&out)[1], (1, at(20_000, i32::MAX, 0)));
    assert_eq!(world.entities[zi].path.as_ref().unwrap().0, Vec::<usize>::new());
}

#[test]
fn cells_are_looked_up_only_for_the_moved() {
    let (ai, z, p) = hunter_and_prey();
    let (mut world, mesh) = world_of(ai);
    let (zi, pi) = (world.index_of(z).unwrap(), world.index_of(p).unwrap());
    world.settle();
    world.entities[zi].position = at(300_000, 0, 0);
    world.entities[zi].current_cell = Some(5);
    world.entities[pi].position = at(300_000, 0, 0);
    world.entities[pi].moved = true;
    world.entities[pi].current_cell = Some(0);
    update_current_cell(&mut world, &mesh);
    assert_eq!(world.entities[zi].current_cell, Some(5));
    assert_eq!(world.entities[pi].current_cell, None);
    world.entities[pi].position = at(255_999, -4, 255_999);
    update_current_cell(&mut world, &mesh);
    assert_eq!(world.entities[pi].current_cell, Some(0));
}

#[test]
fn hunters_are_after_the_last_entity_that_is_not_hostile() {
    let mut ai = AiManager::initialize_at(Some(true), 0);
    let mut add = |kind: EntityType, p: Position| {
        ai.add_entity(EntityHandle(0), kind, p, CharacterId(String::new())).unwrap()
    };
    let wolf = add(EntityType::Wolf, at(1, 1, 1));
    let player = add(EntityType::Player, at(2, 2, 2));
    let deer = add(EntityType::Deer, at(3, 3, 3));
    let bear = add(EntityType::Bear, at(4, 4, 4));
    hunt_target_sys(&mut ai.world);
    let target = |ai: &AiManager, id: u64| ai.world.get(id).unwrap().target;
    assert_eq!(target(&ai, wolf), Some(at(3, 3, 3)));
    assert_eq!(target(&ai, bear), Some(at(3, 3, 3)));
    assert_eq!(target(&ai, player), None);
    assert_eq!(target(&ai, deer), None);
    ai.remove_entity(deer);
    ai.entity_dead(player);
    hunt_target_sys(&mut ai.world);
    assert_eq!(target(&ai, wolf), Some(at(2, 2, 2)));
    ai.remove_entity(player);
    hunt_target_sys(&mut ai.world);
    assert_eq!(target(&ai, wolf), Some(at(2, 2, 2)));
    assert_eq!(target(&ai, bear), Some(at(2, 2, 2)));
}

#[test]
fn paths_are_planned_only_where_there_is_a_way() {
    let (ai, z, p) = hunter_and_prey();
    let (mut world, mesh) = world_of(ai);
    let (zi, pi) = (world.index_of(z).unwrap(), world.index_of(p).unwrap());
    world.entities[zi].current_cell = Some(0);
    get_target_breadscrum(&mut world, &mesh);
    assert!(world.entities[zi].path.is_none());
    world.entities[zi].target = Some(at(1500, 0, 1500));
    get_target_breadscrum(&mut world, &mesh);
    assert!(world.entities[zi].path.is_none());
    world.entities[zi].target = Some(at(30_000, 0, 0));
    get_target_breadscrum(&mut world, &mesh);
    assert!(world.entities[zi].path.is_none());
    world.entities[zi].target = Some(at(12_000, 0, 1000));
    world.entities[zi].current_cell = Some(3);
    get_target_breadscrum(&mut world, &mesh);
    assert!(world.entities[zi].path.is_none());
    world.entities[zi].current_cell = Some(0);
    world.entities[pi].current_cell = Some(0);
    world.entities[pi].target = Some(at(0, 0, 0));
    world.entities[pi].path = Some(BreadScrumPath(vec![9]));
    get_target_breadscrum(&mut world, &mesh);
    assert_eq!(world.entities[zi].path.as_ref().unwrap().0, vec![1, 2]);
    assert_eq!(world.entities[pi].path.as_ref().unwrap().0, vec![9]);
}
