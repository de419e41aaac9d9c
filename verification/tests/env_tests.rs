use tas_engine::env::{
    coords, default_world, idx, select_default_maze, select_hell_maze, step, terrain_at, Input,
    Terrain, INPUT_COUNT,
};
use tas_engine::state::{LayoutConfig, PackedState};

fn at(layout: &LayoutConfig, cell: u8, keys: u8) -> PackedState {
    let mut s = PackedState::zero();
    s.set_location(layout, cell as u16);
    s.set_keys(layout, keys);
    s
}

#[test]
fn test_coords_roundtrip() {
    for i in 0..64u8 {
        let (r, c) = coords(i);
        assert_eq!(idx(r, c), i);
    }
}

#[test]
fn test_wait_advances_ticks() {
    let layout = LayoutConfig::standard();
    let world = default_world();
    let s = at(&layout, idx(1, 1), 0);
    let s2 = step(s, Input::Wait.id(), &layout, &world).unwrap();
    assert_eq!(s2.get_ticks(&layout), 1);
}

#[test]
fn test_move_into_empty() {
    let layout = LayoutConfig::standard();
    let world = default_world();
    let s = at(&layout, idx(1, 1), 0);
    let s2 = step(s, Input::Right.id(), &layout, &world).unwrap();
    assert_eq!(s2.get_location(&layout), idx(1, 2) as u16);
}

#[test]
fn test_wall_blocks() {
    let layout = LayoutConfig::standard();
    let world = default_world();
    let s = at(&layout, idx(1, 1), 0);
    assert!(step(s, Input::Up.id(), &layout, &world).is_none()); // row 0 is all walls
}

#[test]
fn test_bounds_check() {
    let layout = LayoutConfig::standard();
    let world = default_world();
    let s = at(&layout, idx(1, 1), 0);
    assert!(step(s, Input::Left.id(), &layout, &world).is_none()); // col 0 is wall anyway
}

#[test]
fn test_key_pickup() {
    // Key0 is at (1,3)
    let layout = LayoutConfig::standard();
    let world = default_world();
    let s = at(&layout, idx(1, 2), 0);
    let s2 = step(s, Input::Right.id(), &layout, &world).unwrap();
    assert!(s2.has_key(&layout, 0));
}

#[test]
fn test_door_locked_without_key() {
    // Door0 is at (2,3). To reach it from (2,2):
    let layout = LayoutConfig::standard();
    let world = default_world();
    let s = at(&layout, idx(2, 2), 0);
    assert!(step(s, Input::Right.id(), &layout, &world).is_none());
}

#[test]
fn test_door_open_with_key() {
    let layout = LayoutConfig::standard();
    let world = default_world();
    let s = at(&layout, idx(2, 2), 0b0001);
    let s2 = step(s, Input::Right.id(), &layout, &world).unwrap();
    assert_eq!(s2.get_location(&layout), idx(2, 3) as u16);
}

#[test]
fn test_switch_toggle() {
    // Switch0 at (3,4)
    let layout = LayoutConfig::standard();
    let world = default_world();
    let s = at(&layout, idx(3, 4), 0);
    let s2 = step(s, Input::Activate.id(), &layout, &world).unwrap();
    assert!(s2.is_switch_flipped(&layout, 0));
}

#[test]
fn test_victory_cell_reachable() {
    // Victory at (7,6)
    let layout = LayoutConfig::standard();
    let world = default_world();
    let s = at(&layout, idx(7, 6), 0);
    let terrain = terrain_at(&world, s.get_location(&layout));
    assert_eq!(terrain, 18);
}

#[test]
fn test_short_valid_path() {
    let layout = LayoutConfig::standard();
    let world = default_world();
    let mut s = PackedState::zero();
    s.set_location(&layout, world.start_cell);
    s = step(s, 4, &layout, &world).unwrap(); // Right
    s = step(s, 4, &layout, &world).unwrap(); // Right
    assert!(s.has_key(&layout, 0));
}

#[test]
fn test_victory_cell_exists() {
    let world = default_world();
    let rule = world.rule(world.terrain_at(world.victory_cell));
    assert!(rule.is_victory);
}

// ─── Further cases ──────────────────────────────────────────────────────────

#[test]
fn input_and_terrain_codes() {
    assert_eq!(INPUT_COUNT, 6);
    assert_eq!(Input::Wait.id(), 0);
    assert_eq!(Input::Up.id(), 1);
    assert_eq!(Input::Down.id(), 2);
    assert_eq!(Input::Left.id(), 3);
    assert_eq!(Input::Right.id(), 4);
    assert_eq!(Input::Activate.id(), 5);
    assert_eq!(Terrain::Empty.code(), 0);
    assert_eq!(Terrain::Wall.code(), 1);
    assert_eq!(Terrain::Key3.code(), 5);
    assert_eq!(Terrain::Door0.code(), 6);
    assert_eq!(Terrain::Switch2.code(), 12);
    assert_eq!(Terrain::OneWayWest.code(), 17);
    assert_eq!(Terrain::Victory.code(), 18);
}

#[test]
fn idx_and_coords_values() {
    assert_eq!(idx(7, 6), 62);
    assert_eq!(coords(62), (7, 6));
    assert_eq!(coords(255), (31, 7));
    assert_eq!(idx(31, 7), 255);
}

#[test]
fn world_geometry() {
    let world = default_world();
    assert_eq!(world.cell_count(), 64);
    assert_eq!(world.idx(3, 5), 29);
    assert_eq!(world.coords(29), (3, 5));
    assert_eq!(world.start_cell, 9);
    assert_eq!(world.victory_cell, 62);
    assert!(!world.rule(1).walkable);
    assert!(world.rule(6).walkable);
    assert!(!world.rule(0).is_victory);
}

#[test]
fn maze_selection_switches_worlds() {
    let mut world = default_world();
    select_hell_maze(&mut world);
    assert_eq!(world.victory_cell, 59);
    assert_eq!(world.start_cell, 25);
    assert_eq!(terrain_at(&world, world.victory_cell), 18);
    assert_eq!(terrain_at(&world, idx(4, 3) as u16), 14);
    select_default_maze(&mut world);
    assert_eq!(world.victory_cell, 62);
    assert_eq!(terrain_at(&world, idx(1, 3) as u16), 2);
}

#[test]
fn unknown_input_is_refused() {
    let layout = LayoutConfig::standard();
    let world = default_world();
    let s = at(&layout, idx(1, 1), 0);
    assert!(step(s, 6, &layout, &world).is_none());
    assert!(step(s, 200, &layout, &world).is_none());
}

#[test]
fn activate_opens_door_with_key() {
    // Door0 at (2,3): Activate while standing on it with key 0.
    let layout = LayoutConfig::standard();
    let world = default_world();
    let s = at(&layout, idx(2, 3), 0b0001);
    let s2 = step(s, Input::Activate.id(), &layout, &world).unwrap();
    assert!(s2.is_door_open(&layout, 0));
    assert_eq!(s2.get_ticks(&layout), 1);
    let s3 = at(&layout, idx(2, 3), 0);
    let s4 = step(s3, Input::Activate.id(), &layout, &world).unwrap();
    assert!(!s4.is_door_open(&layout, 0));
}

#[test]
fn open_door_lets_through_without_key() {
    let layout = LayoutConfig::standard();
    let world = default_world();
    let mut s = at(&layout, idx(2, 2), 0);
    s.open_door(&layout, 0);
    let s2 = step(s, Input::Right.id(), &layout, &world).unwrap();
    assert_eq!(s2.get_location(&layout), idx(2, 3) as u16);
}

#[test]
fn one_way_passages() {
    let layout = LayoutConfig::standard();
    let mut world = default_world();
    select_hell_maze(&mut world);
    // (4,3) is one-way north: entering from above (moving Down) is refused.
    let above = at(&layout, idx(3, 3), 0);
    assert!(step(above, Input::Down.id(), &layout, &world).is_none());
    // (4,5) is one-way south: entering from above (moving Down) is allowed.
    let s = at(&layout, idx(3, 5), 0);
    let s2 = step(s, Input::Down.id(), &layout, &world).unwrap();
    assert_eq!(s2.get_location(&layout), idx(4, 5) as u16);
    // Leaving it upwards into (3,5) is fine, but re-entering it must be Down.
    let below = at(&layout, idx(5, 5), 0b1000);
    assert!(step(below, Input::Up.id(), &layout, &world).is_none());
}

#[test]
fn ticks_saturate_on_wait() {
    let layout = LayoutConfig::standard();
    let world = default_world();
    let mut s = at(&layout, idx(1, 1), 0);
    s.set_ticks(&layout, u16::MAX);
    let s2 = step(s, Input::Wait.id(), &layout, &world).unwrap();
    assert_eq!(s2.get_ticks(&layout), u16::MAX);
}
