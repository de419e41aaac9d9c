use tas_engine::env::{default_world, idx, select_hell_maze, step, WorldConfig};
use tas_engine::pdb::PatternDatabase;
use tas_engine::search::solve;
use tas_engine::state::{LayoutConfig, PackedState};

fn start_state(layout: &LayoutConfig, cell: u16) -> PackedState {
    let mut s = PackedState::zero();
    s.set_location(layout, cell);
    s
}

fn replay(start: PackedState, path: &[u8], layout: &LayoutConfig, world: &WorldConfig) -> PackedState {
    let mut s = start;
    for &input in path {
        s = step(s, input, layout, world).expect("every input of the path is accepted");
    }
    s
}

#[test]
fn test_victory_cell_zero_distance() {
    let layout = LayoutConfig::standard();
    let world = default_world();
    let pdb = PatternDatabase::compute(&layout, &world);
    let mut s = PackedState::zero();
    s.set_location(&layout, world.victory_cell);
    assert_eq!(pdb.get_heuristic(&s, &layout), 0);
}

#[test]
fn test_unreachable_cell_is_max() {
    let layout = LayoutConfig::standard();
    let world = default_world();
    let pdb = PatternDatabase::compute(&layout, &world);
    let mut s = PackedState::zero();
    s.set_location(&layout, 0); // (0,0) is a wall in default maze
    assert_eq!(pdb.get_heuristic(&s, &layout), u32::MAX);
}

#[test]
fn test_start_cell_heuristic() {
    let layout = LayoutConfig::standard();
    let world = default_world();
    let pdb = PatternDatabase::compute(&layout, &world);
    let mut s = PackedState::zero();
    s.set_location(&layout, world.start_cell);
    let h = pdb.get_heuristic(&s, &layout);
    println!("Start cell {} heuristic = {}", world.start_cell, h);
    assert_ne!(h, u32::MAX, "start cell must be reachable");
}

#[test]
fn test_solve_default_maze() {
    let layout = LayoutConfig::standard();
    let world = default_world();
    let pdb = PatternDatabase::compute(&layout, &world);
    let mut start = PackedState::zero();
    start.set_location(&layout, world.start_cell);
    let result = solve(start, &layout, &world, &pdb);
    assert!(result.is_some(), "IDA* must find a path");
    let (path, nodes) = result.unwrap();
    assert!(!path.is_empty());
    println!("Default maze: {} inputs, {} nodes", path.len(), nodes);
}

// ─── Further cases ──────────────────────────────────────────────────────────

#[test]
fn relaxed_distances_of_default_maze() {
    let layout = LayoutConfig::standard();
    let world = default_world();
    let pdb = PatternDatabase::compute(&layout, &world);
    assert_eq!(pdb.cell_count(), 64);
    let h = |cell: u8, keys: u8| {
        let mut s = start_state(&layout, cell as u16);
        s.set_keys(&layout, keys);
        pdb.get_heuristic(&s, &layout)
    };
    assert_eq!(h(idx(6, 6), 0), 1);
    assert_eq!(h(idx(3, 6), 0), 4);
    assert_eq!(h(idx(1, 1), 0), 11);
    // Every key combination of a cell gives the same value.
    for keys in 0..16u8 {
        assert_eq!(h(idx(1, 1), keys), 11);
    }
    // A wall cell is one move from its nearest walkable neighbour; a wall
    // cell with no walkable neighbour has no way out.
    assert_eq!(h(idx(2, 2), 0), 9);
    assert_eq!(h(idx(0, 0), 0), u32::MAX);
}

#[test]
fn solve_from_a_wall_cell() {
    // (2, 2) is a wall; Down, Right x4, Down x4 leads to victory.
    let layout = LayoutConfig::standard();
    let world = default_world();
    let pdb = PatternDatabase::compute(&layout, &world);
    let start = start_state(&layout, idx(2, 2) as u16);
    assert_eq!(pdb.get_heuristic(&start, &layout), 9);
    let (path, nodes) = solve(start, &layout, &world, &pdb).unwrap();
    assert_eq!(path.len(), 9);
    assert!(nodes as usize >= path.len());
    let end = replay(start, &path, &layout, &world);
    assert_eq!(end.get_location(&layout), world.victory_cell);
}

#[test]
fn default_maze_shortest_path() {
    let layout = LayoutConfig::standard();
    let world = default_world();
    let pdb = PatternDatabase::compute(&layout, &world);
    let start = start_state(&layout, world.start_cell);
    let (path, nodes) = solve(start, &layout, &world, &pdb).unwrap();
    assert_eq!(path.len(), 11);
    assert!(nodes > 0);
    assert!(nodes as usize >= path.len());
    let end = replay(start, &path, &layout, &world);
    assert_eq!(end.get_location(&layout), world.victory_cell);
    // Admissible: the heuristic of the start is no more than the path length.
    assert!(pdb.get_heuristic(&start, &layout) as usize <= path.len());
}

#[test]
fn hell_maze_shortest_path() {
    let layout = LayoutConfig::standard();
    let mut world = default_world();
    select_hell_maze(&mut world);
    let pdb = PatternDatabase::compute(&layout, &world);
    let start = start_state(&layout, world.start_cell);
    let (path, _nodes) = solve(start, &layout, &world, &pdb).unwrap();
    assert_eq!(path.len(), 10);
    let end = replay(start, &path, &layout, &world);
    assert_eq!(end.get_location(&layout), world.victory_cell);
}

#[test]
fn solve_from_victory_is_empty() {
    let layout = LayoutConfig::standard();
    let world = default_world();
    let pdb = PatternDatabase::compute(&layout, &world);
    let start = start_state(&layout, world.victory_cell);
    assert_eq!(solve(start, &layout, &world, &pdb), Some((Vec::new(), 0)));
}

#[test]
fn solve_from_unreachable_is_none() {
    let layout = LayoutConfig::standard();
    let world = default_world();
    let pdb = PatternDatabase::compute(&layout, &world);
    let start = start_state(&layout, 0);
    assert_eq!(solve(start, &layout, &world, &pdb), None);
}

#[test]
fn solve_without_a_way_through_is_none() {
    // A victory cell behind a door whose key does not exist anywhere.
    let layout = LayoutConfig::standard();
    let terrain = vec![
        0, 0, 1, //
        1, 6, 1, //
        1, 18, 1,
    ];
    let world = WorldConfig { width: 3, height: 3, terrain, start_cell: 0, victory_cell: 7 };
    let pdb = PatternDatabase::compute(&layout, &world);
    let start = start_state(&layout, 0);
    assert_eq!(pdb.get_heuristic(&start, &layout), 3);
    assert_eq!(solve(start, &layout, &world, &pdb), None);
}

/// An open grid of `width` x `height` with a wall row closing off all rows
/// from `open_rows` on, start in a corner and victory in the opposite corner
/// of the open part.
fn open_grid(width: u8, height: u8, open_rows: u8) -> WorldConfig {
    let mut terrain = Vec::new();
    for row in 0..height {
        for _ in 0..width {
            terrain.push(if row < open_rows { 0 } else { 1 });
        }
    }
    let victory = (open_rows as u16 - 1) * width as u16 + (width as u16 - 1);
    WorldConfig { width, height, terrain, start_cell: 0, victory_cell: victory }
}

#[test]
fn hashed_and_flat_filters_agree() {
    // 30 x 30 = 900 cells uses the flat filter; 30 x 33 = 990 cells the hash
    // map.  The extra rows are walls, so both searches meet the same states.
    let layout = LayoutConfig::standard();
    let small = open_grid(30, 30, 30);
    let large = open_grid(30, 33, 30);
    let pdb_small = PatternDatabase::compute(&layout, &small);
    let pdb_large = PatternDatabase::compute(&layout, &large);
    let start = start_state(&layout, 0);
    let (path_small, nodes_small) = solve(start, &layout, &small, &pdb_small).unwrap();
    let (path_large, nodes_large) = solve(start, &layout, &large, &pdb_large).unwrap();
    assert_eq!(path_small.len(), 58);
    assert_eq!(path_small, path_large);
    assert_eq!(nodes_small, nodes_large);
}

#[test]
fn corridor_expands_two_nodes() {
    // A 1 x 3 corridor: the start is expanded, then the middle cell, whose
    // Right input reaches the victory cell; every other input is cut.
    let layout = LayoutConfig::standard();
    let world = WorldConfig { width: 3, height: 1, terrain: vec![0, 0, 18], start_cell: 0, victory_cell: 2 };
    let pdb = PatternDatabase::compute(&layout, &world);
    let start = start_state(&layout, 0);
    assert_eq!(solve(start, &layout, &world, &pdb), Some((vec![4, 4], 2)));
}
