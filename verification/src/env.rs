//! The grid world and its deterministic transition function.
//!
//! A world is a `width` x `height` grid of terrain codes.  Inputs are six
//! discrete actions (Wait, Up, Down, Left, Right, Activate).  The transition
//! function checks walls, one-way passages, doors and keys, and advances the
//! tick counter of the state by one on every accepted input.

use vstd::prelude::*;
use crate::state::{
    PackedState, LayoutConfig, read_location, read_ticks, advance_ticks, saturating_ticks,
    write_location, flag, with_flag, flipped, lemma_with_flag, lemma_flipped, lemma_write_location,
    lemma_write_ticks,
};

verus! {

/// Number of distinct inputs; input ids are `0..INPUT_COUNT`.
pub const INPUT_COUNT: u8 = 6;

/// The six atomic inputs the engine can emit.
#[derive(Clone, Copy, Debug, PartialEq, Eq)]
pub enum Input {
    Wait,
    Up,
    Down,
    Left,
    Right,
    Activate,
}

impl Input {
    /// The byte that stands for this input.
    pub open spec fn code(self) -> u8 {
        match self {
            Input::Wait => 0,
            Input::Up => 1,
            Input::Down => 2,
            Input::Left => 3,
            Input::Right => 4,
            Input::Activate => 5,
        }
    }

    /// The byte that stands for this input, as `step` takes it.
    pub fn id(self) -> (r: u8)
        ensures
            r == self.code(),
            r < INPUT_COUNT,
    {
        match self {
            Input::Wait => 0,
            Input::Up => 1,
            Input::Down => 2,
            Input::Left => 3,
            Input::Right => 4,
            Input::Activate => 5,
        }
    }
}

/// The kinds of terrain a cell can have.
#[derive(Clone, Copy, Debug, PartialEq, Eq)]
pub enum Terrain {
    Empty,
    Wall,
    Key0,
    Key1,
    Key2,
    Key3,
    Door0,
    Door1,
    Door2,
    Door3,
    Switch0,
    Switch1,
    Switch2,
    Switch3,
    OneWayNorth,
    OneWaySouth,
    OneWayEast,
    OneWayWest,
    Victory,
}

impl Terrain {
    /// The byte that stands for this terrain in a world's grid.
    pub open spec fn spec_code(self) -> u8 {
        match self {
            Terrain::Empty => 0,
            Terrain::Wall => 1,
            Terrain::Key0 => 2,
            Terrain::Key1 => 3,
            Terrain::Key2 => 4,
            Terrain::Key3 => 5,
            Terrain::Door0 => 6,
            Terrain::Door1 => 7,
            Terrain::Door2 => 8,
            Terrain::Door3 => 9,
            Terrain::Switch0 => 10,
            Terrain::Switch1 => 11,
            Terrain::Switch2 => 12,
            Terrain::Switch3 => 13,
            Terrain::OneWayNorth => 14,
            Terrain::OneWaySouth => 15,
            Terrain::OneWayEast => 16,
            Terrain::OneWayWest => 17,
            Terrain::Victory => 18,
        }
    }

    /// The byte that stands for this terrain in a world's grid.
    pub fn code(self) -> (r: u8)
        ensures
            r == self.spec_code(),
    {
        match self {
            Terrain::Empty => 0,
            Terrain::Wall => 1,
            Terrain::Key0 => 2,
            Terrain::Key1 => 3,
            Terrain::Key2 => 4,
            Terrain::Key3 => 5,
            Terrain::Door0 => 6,
            Terrain::Door1 => 7,
            Terrain::Door2 => 8,
            Terrain::Door3 => 9,
            Terrain::Switch0 => 10,
            Terrain::Switch1 => 11,
            Terrain::Switch2 => 12,
            Terrain::Switch3 => 13,
            Terrain::OneWayNorth => 14,
            Terrain::OneWaySouth => 15,
            Terrain::OneWayEast => 16,
            Terrain::OneWayWest => 17,
            Terrain::Victory => 18,
        }
    }
}

// ─── Terrain classes (by code) ──────────────────────────────────────────────

pub open spec fn is_wall(t: u8) -> bool {
    t == 1
}

pub open spec fn is_key(t: u8) -> bool {
    2 <= t <= 5
}

pub open spec fn is_door(t: u8) -> bool {
    6 <= t <= 9
}

pub open spec fn is_switch(t: u8) -> bool {
    10 <= t <= 13
}

pub open spec fn is_victory(t: u8) -> bool {
    t == 18
}

/// A one-way passage of terrain `t` refuses to be entered by the move `input`:
/// north only moving Up, south only moving Down, east only moving Right,
/// west only moving Left.
pub open spec fn one_way_refuses(t: u8, input: u8) -> bool {
    ||| (t == 14 && input != 1)
    ||| (t == 15 && input != 2)
    ||| (t == 16 && input != 4)
    ||| (t == 17 && input != 3)
}

/// What the relaxed search graph knows of a terrain.
#[derive(Clone, Copy, Debug, PartialEq, Eq)]
pub struct TerrainRule {
    /// Anything but a wall can be stood on (doors count as open).
    pub walkable: bool,
    /// The goal cell.
    pub is_victory: bool,
}

// ─── The world ──────────────────────────────────────────────────────────────

/// A rectangular grid world: terrain codes in row-major order, a start cell
/// and a victory cell.
pub struct WorldConfig {
    pub width: u8,
    pub height: u8,
    pub terrain: Vec<u8>,
    pub start_cell: u16,
    pub victory_cell: u16,
}

impl WorldConfig {
    pub open spec fn num_cells(self) -> int {
        (self.width as int) * (self.height as int)
    }

    /// The grid is non-empty, holds one terrain code per cell, and the start
    /// and victory cells lie on it.
    pub open spec fn wf(self) -> bool {
        &&& self.width > 0
        &&& self.height > 0
        &&& self.terrain@.len() == self.num_cells()
        &&& self.start_cell < self.num_cells()
        &&& self.victory_cell < self.num_cells()
    }

    pub open spec fn row_of(self, cell: int) -> int {
        cell / (self.width as int)
    }

    pub open spec fn col_of(self, cell: int) -> int {
        cell % (self.width as int)
    }

    pub open spec fn cell_at(self, row: int, col: int) -> int {
        row * self.width + col
    }

    /// The terrain of a cell is not a wall.
    pub open spec fn walkable(self, cell: int) -> bool {
        !is_wall(self.terrain@[cell])
    }

    /// Two cells of the grid share a side.
    pub open spec fn adjacent(self, a: int, b: int) -> bool {
        &&& 0 <= a < self.num_cells()
        &&& 0 <= b < self.num_cells()
        &&& {
            ||| (self.row_of(a) == self.row_of(b) && (self.col_of(a) == self.col_of(b) + 1
                || self.col_of(b) == self.col_of(a) + 1))
            ||| (self.col_of(a) == self.col_of(b) && (self.row_of(a) == self.row_of(b) + 1
                || self.row_of(b) == self.row_of(a) + 1))
        }
    }

    /// Total number of cells.
    pub fn cell_count(&self) -> (r: usize)
        ensures
            r == self.num_cells(),
            r <= 65025,
    {
        proof {
            lemma_grid_size(self.width, self.height);
        }
        (self.width as usize) * (self.height as usize)
    }

    /// The cell at (row, col).
    pub fn idx(&self, row: u8, col: u8) -> (r: u16)
        ensures
            r == self.cell_at(row as int, col as int),
    {
        proof {
            lemma_grid_index_fits(self.width, row, col);
        }
        (row as u16) * (self.width as u16) + (col as u16)
    }

    /// The (row, col) of a cell.
    pub fn coords(&self, cell: u16) -> (r: (u8, u8))
        requires
            self.width > 0,
            cell < self.num_cells(),
        ensures
            r.0 == self.row_of(cell as int),
            r.1 == self.col_of(cell as int),
    {
        proof {
            lemma_cell_coords(*self, cell as int);
        }
        ((cell / (self.width as u16)) as u8, (cell % (self.width as u16)) as u8)
    }

    /// The terrain code of a cell.
    pub fn terrain_at(&self, cell: u16) -> (r: u8)
        requires
            self.terrain@.len() == self.num_cells(),
            cell < self.num_cells(),
        ensures
            r == self.terrain@[cell as int],
    {
        self.terrain[cell as usize]
    }

    /// What the relaxed search graph knows of a terrain code.
    pub fn rule(&self, terrain: u8) -> (r: TerrainRule)
        ensures
            r.walkable == !is_wall(terrain),
            r.is_victory == is_victory(terrain),
    {
        TerrainRule { walkable: terrain != 1, is_victory: terrain == 18 }
    }
}

proof fn lemma_grid_size(w: u8, h: u8)
    ensures
        (w as int) * (h as int) <= 65025,
{
    assert((w as int) * (h as int) <= 255 * 255) by (nonlinear_arith)
        requires
            w <= 255,
            h <= 255,
    ;
}

/// A world has at most 255 * 255 cells.
pub proof fn lemma_num_cells_bound(w: WorldConfig)
    ensures
        0 <= w.num_cells() <= 65025,
{
    lemma_grid_size(w.width, w.height);
}

proof fn lemma_grid_index_fits(w: u8, row: u8, col: u8)
    ensures
        (row as int) * (w as int) <= 65025,
        (row as int) * (w as int) + (col as int) <= 65280,
{
    assert((row as int) * (w as int) <= 255 * 255) by (nonlinear_arith)
        requires
            w <= 255,
            row <= 255,
    ;
}

/// A cell of the grid has a row below the height and a column below the width,
/// and is found again from them.
pub proof fn lemma_cell_coords(w: WorldConfig, cell: int)
    requires
        w.width > 0,
        0 <= cell < w.num_cells(),
    ensures
        0 <= w.row_of(cell) < w.height,
        0 <= w.col_of(cell) < w.width,
        w.cell_at(w.row_of(cell), w.col_of(cell)) == cell,
{
    let wd = w.width as int;
    let h = w.height as int;
    assert(0 <= cell / wd < h && 0 <= cell % wd < wd && (cell / wd) * wd + cell % wd == cell)
        by (nonlinear_arith)
        requires
            wd > 0,
            0 <= cell < wd * h,
    {
        vstd::arithmetic::div_mod::lemma_fundamental_div_mod(cell, wd);
        if cell / wd >= h {
            assert(wd * (cell / wd) >= wd * h);
        }
    }
}

/// The cell at a row below the height and a column below the width lies on
/// the grid and has that row and column.
pub proof fn lemma_cell_at(w: WorldConfig, row: int, col: int)
    requires
        w.width > 0,
        0 <= row < w.height,
        0 <= col < w.width,
    ensures
        0 <= w.cell_at(row, col) < w.num_cells(),
        w.row_of(w.cell_at(row, col)) == row,
        w.col_of(w.cell_at(row, col)) == col,
{
    let wd = w.width as int;
    let h = w.height as int;
    assert(0 <= row * wd + col < wd * h) by (nonlinear_arith)
        requires
            wd > 0,
            0 <= row < h,
            0 <= col < wd,
    ;
    vstd::arithmetic::div_mod::lemma_fundamental_div_mod_converse(row * wd + col, wd, row, col);
}

// ─── The two built-in mazes ─────────────────────────────────────────────────

/// Terrain of the default 8x8 maze: nested key-door puzzles, a switch and a
/// victory cell at (7, 6).
pub open spec fn default_maze() -> Seq<u8> {
    seq![
        1, 1, 1, 1, 1, 1, 1, 1,
        1, 0, 0, 2, 1, 0, 0, 1,
        1, 0, 1, 6, 1, 0, 1, 1,
        1, 0, 0, 0, 10, 0, 3, 1,
        1, 1, 7, 1, 1, 1, 0, 1,
        1, 0, 0, 0, 0, 0, 0, 1,
        1, 0, 1, 1, 1, 4, 0, 1,
        1, 1, 1, 1, 1, 1, 18, 1,
    ]
}

/// Terrain of the hell maze: interdependent keys, doors, a switch and one-way
/// passages, with the victory cell at (7, 3).
pub open spec fn hell_maze() -> Seq<u8> {
    seq![
        1, 1, 1, 1, 1, 1, 1, 1,
        1, 2, 1, 0, 0, 0, 3, 1,
        1, 0, 1, 0, 1, 0, 1, 1,
        1, 0, 0, 4, 10, 5, 0, 1,
        1, 1, 1, 14, 1, 15, 1, 1,
        1, 0, 1, 8, 1, 9, 0, 1,
        1, 6, 1, 0, 0, 0, 7, 1,
        1, 1, 1, 18, 1, 1, 1, 1,
    ]
}

/// The default world: the default maze, starting at (1, 1).
pub fn default_world() -> (w: WorldConfig)
    ensures
        w.wf(),
        w.width == 8,
        w.height == 8,
        w.terrain@ == default_maze(),
        w.start_cell == 9,
        w.victory_cell == 62,
{
    let terrain: Vec<u8> = vec![
        1, 1, 1, 1, 1, 1, 1, 1,
        1, 0, 0, 2, 1, 0, 0, 1,
        1, 0, 1, 6, 1, 0, 1, 1,
        1, 0, 0, 0, 10, 0, 3, 1,
        1, 1, 7, 1, 1, 1, 0, 1,
        1, 0, 0, 0, 0, 0, 0, 1,
        1, 0, 1, 1, 1, 4, 0, 1,
        1, 1, 1, 1, 1, 1, 18, 1,
    ];
    assert(terrain@ =~= default_maze());
    let w = WorldConfig { width: 8, height: 8, terrain, start_cell: 9, victory_cell: 62 };
    assert(w.num_cells() == 64) by (nonlinear_arith)
        requires
            w.width == 8,
            w.height == 8,
    ;
    w
}

fn hell_world() -> (w: WorldConfig)
    ensures
        w.wf(),
        w.width == 8,
        w.height == 8,
        w.terrain@ == hell_maze(),
        w.start_cell == 25,
        w.victory_cell == 59,
{
    let terrain: Vec<u8> = vec![
        1, 1, 1, 1, 1, 1, 1, 1,
        1, 2, 1, 0, 0, 0, 3, 1,
        1, 0, 1, 0, 1, 0, 1, 1,
        1, 0, 0, 4, 10, 5, 0, 1,
        1, 1, 1, 14, 1, 15, 1, 1,
        1, 0, 1, 8, 1, 9, 0, 1,
        1, 6, 1, 0, 0, 0, 7, 1,
        1, 1, 1, 18, 1, 1, 1, 1,
    ];
    assert(terrain@ =~= hell_maze());
    let w = WorldConfig { width: 8, height: 8, terrain, start_cell: 25, victory_cell: 59 };
    assert(w.num_cells() == 64) by (nonlinear_arith)
        requires
            w.width == 8,
            w.height == 8,
    ;
    w
}

/// Switch a world to the hell maze (start (3, 1), victory (7, 3)).
pub fn select_hell_maze(world: &mut WorldConfig)
    ensures
        final(world).wf(),
        final(world).width == 8,
        final(world).height == 8,
        final(world).terrain@ == hell_maze(),
        final(world).start_cell == 25,
        final(world).victory_cell == 59,
{
    *world = hell_world();
}

/// Switch a world back to the default maze.
pub fn select_default_maze(world: &mut WorldConfig)
    ensures
        final(world).wf(),
        final(world).width == 8,
        final(world).height == 8,
        final(world).terrain@ == default_maze(),
        final(world).start_cell == 9,
        final(world).victory_cell == 62,
{
    *world = default_world();
}

// ─── 8x8 coordinate helpers ─────────────────────────────────────────────────

/// Cell index of (row, col) on an 8-wide grid: `row * 8 + col`, in a byte.
pub fn idx(row: u8, col: u8) -> (r: u8)
    ensures
        r == (((row as int * 8) % 256) as u8 | col),
        row < 32 && col < 8 ==> r == row * 8 + col,
{
    assert(((row << 3u8) | col) == (((row as int * 8) % 256) as u8 | col)) by (bit_vector);
    assert(row < 32 && col < 8 ==> ((row << 3u8) | col) == row * 8 + col) by (bit_vector);
    (row << 3u8) | col
}

/// (row, col) of a cell index on an 8-wide grid.
pub fn coords(cell: u8) -> (r: (u8, u8))
    ensures
        r.0 == cell / 8,
        r.1 == cell % 8,
{
    assert(cell >> 3u8 == cell / 8) by (bit_vector);
    assert(cell & 7u8 == cell % 8) by (bit_vector);
    (cell >> 3u8, cell & 7u8)
}

/// Every byte is a cell index that `idx` rebuilds from its `coords`.
pub proof fn lemma_idx_coords(cell: u8)
    ensures
        cell / 8 < 32,
        (((cell / 8) as int * 8) % 256) as u8 | (cell % 8) as u8 == cell,
{
    assert(cell / 8 < 32) by (bit_vector);
    assert((((cell / 8) as int * 8) % 256) as u8 | (cell % 8) as u8 == cell) by (bit_vector);
}

/// The terrain code of a cell of the world.
pub fn terrain_at(world: &WorldConfig, cell: u16) -> (r: u8)
    requires
        world.terrain@.len() == world.num_cells(),
        cell < world.num_cells(),
    ensures
        r == world.terrain@[cell as int],
{
    world.terrain[cell as usize]
}

// ─── State transition ───────────────────────────────────────────────────────

/// `d` after Activate on a cell of terrain `here`: one tick passes; on a switch
/// the switch flips; on a door whose key is held (before the tick) the door opens.
pub open spec fn activate_effect(d: Seq<u8>, cfg: LayoutConfig, here: u8) -> Seq<u8> {
    let next = advance_ticks(d, cfg, 1);
    let k = cfg.keys_offset as int;
    let dr = cfg.doors_offset as int;
    let sw = cfg.switches_offset as int;
    if is_switch(here) {
        next.update(sw, flipped(next[sw], (here - 10) as u8))
    } else if is_door(here) && flag(d[k], (here - 6) as u8) {
        next.update(dr, with_flag(next[dr], (here - 6) as u8))
    } else {
        next
    }
}

/// Row and column that the move `input` (Up, Down, Left or Right) aims at from
/// `cell`; a move off the top row or the left column aims at the cell itself.
pub open spec fn move_target(w: WorldConfig, cell: int, input: u8) -> (int, int) {
    let r = w.row_of(cell);
    let c = w.col_of(cell);
    if input == 1 {
        (if r > 0 { r - 1 } else { 0 }, c)
    } else if input == 2 {
        (r + 1, c)
    } else if input == 3 {
        (r, if c > 0 { c - 1 } else { 0 })
    } else {
        (r, c + 1)
    }
}

/// A door of terrain `t` bars the way: it is closed and its key is not held.
pub open spec fn door_bars(d: Seq<u8>, cfg: LayoutConfig, t: u8) -> bool {
    &&& is_door(t)
    &&& !flag(d[cfg.doors_offset as int], (t - 6) as u8)
    &&& !flag(d[cfg.keys_offset as int], (t - 6) as u8)
}

/// The outcome of the move `input` (Up, Down, Left or Right) from the state `d`:
/// refused when the target leaves the grid, is a wall, is a one-way passage
/// entered the wrong way, or is a door that bars the way; otherwise the state
/// moves to the target, one tick passes, and a key on the target is picked up.
pub open spec fn move_effect(d: Seq<u8>, cfg: LayoutConfig, w: WorldConfig, input: u8) -> Option<
    Seq<u8>,
> {
    let (tr, tc) = move_target(w, read_location(d, cfg), input);
    if tr >= w.height || tc >= w.width {
        None
    } else {
        let target = w.cell_at(tr, tc);
        let t = w.terrain@[target];
        if is_wall(t) || one_way_refuses(t, input) || door_bars(d, cfg, t) {
            None
        } else {
            let moved = advance_ticks(write_location(d, cfg, target as u16), cfg, 1);
            let k = cfg.keys_offset as int;
            if is_key(t) {
                Some(moved.update(k, with_flag(moved[k], (t - 2) as u8)))
            } else {
                Some(moved)
            }
        }
    }
}

/// The outcome of one input on the state `d`: Wait lets a tick pass, Activate
/// acts on the current cell, the four moves go through `move_effect`, and any
/// other input is refused.
pub open spec fn step_spec(d: Seq<u8>, input: u8, cfg: LayoutConfig, w: WorldConfig) -> Option<
    Seq<u8>,
> {
    if input == 0 {
        Some(advance_ticks(d, cfg, 1))
    } else if input == 5 {
        Some(activate_effect(d, cfg, w.terrain@[read_location(d, cfg)]))
    } else if 1 <= input <= 4 {
        move_effect(d, cfg, w, input)
    } else {
        None
    }
}

/// Apply one input to a state: the new state, or `None` for an illegal move
/// (off the grid, into a wall, against a one-way passage, into a barred door)
/// or an unknown input.
pub fn step(current: PackedState, input: u8, layout: &LayoutConfig, world: &WorldConfig) -> (r:
    Option<PackedState>)
    requires
        layout.in_bounds(),
        world.terrain@.len() == world.num_cells(),
        read_location(current@, *layout) < world.num_cells(),
    ensures
        match r {
            Some(n) => step_spec(current@, input, *layout, *world) == Some(n@),
            None => step_spec(current@, input, *layout, *world) is None,
        },
{
    let cell = current.get_location(layout);
    let terrain = world.terrain_at(cell);
    proof {
        if world.width == 0 {
            assert((world.width as int) * (world.height as int) == 0) by (nonlinear_arith)
                requires
                    world.width == 0,
            ;
        }
    }
    if input == 0 {
        let mut next = current;
        next.increment_ticks(layout, 1);
        return Some(next);
    }
    if input == 5 {
        let mut next = current;
        next.increment_ticks(layout, 1);
        if 10 <= terrain && terrain <= 13 {
            next.toggle_switch(layout, terrain - 10);
        } else if 6 <= terrain && terrain <= 9 {
            if current.has_key(layout, terrain - 6) {
                next.open_door(layout, terrain - 6);
            }
        }
        return Some(next);
    }
    if input > 4 {
        return None;
    }
    proof {
        lemma_cell_coords(*world, cell as int);
    }
    let (row, col) = world.coords(cell);
    let (tr, tc) = if input == 1 {
        (row.saturating_sub(1), col)
    } else if input == 2 {
        (row.saturating_add(1), col)
    } else if input == 3 {
        (row, col.saturating_sub(1))
    } else {
        (row, col.saturating_add(1))
    };
    if tr >= world.height || tc >= world.width {
        return None;
    }
    proof {
        lemma_cell_at(*world, tr as int, tc as int);
    }
    let target = world.idx(tr, tc);
    let t = world.terrain_at(target);
    if t == 1 {
        return None;
    }
    if (t == 14 && input != 1) || (t == 15 && input != 2) || (t == 16 && input != 4) || (t == 17
        && input != 3) {
        return None;
    }
    if 6 <= t && t <= 9 {
        let door = t - 6;
        if !current.is_door_open(layout, door) && !current.has_key(layout, door) {
            return None;
        }
    }
    let mut next = current;
    next.set_location(layout, target);
    next.increment_ticks(layout, 1);
    if 2 <= t && t <= 5 {
        next.add_key(layout, t - 2);
    }
    Some(next)
}

/// The state after feeding the inputs of `path` one by one to `d`, or `None`
/// as soon as one of them is refused.
pub open spec fn run_spec(d: Seq<u8>, path: Seq<u8>, cfg: LayoutConfig, w: WorldConfig) -> Option<
    Seq<u8>,
>
    decreases path.len(),
{
    if path.len() == 0 {
        Some(d)
    } else {
        match run_spec(d, path.drop_last(), cfg, w) {
            Some(x) => step_spec(x, path.last(), cfg, w),
            None => None,
        }
    }
}

/// Feeding one more input after a run is the run of the longer sequence.
pub proof fn lemma_run_push(d: Seq<u8>, path: Seq<u8>, input: u8, cfg: LayoutConfig, w: WorldConfig)
    ensures
        run_spec(d, path.push(input), cfg, w) == match run_spec(d, path, cfg, w) {
            Some(x) => step_spec(x, input, cfg, w),
            None => None,
        },
{
    assert(path.push(input).drop_last() =~= path);
}

/// Two cells are side-adjacent exactly when one lies right, left, below or
/// above the other.
pub proof fn lemma_adjacent_cases(w: WorldConfig, p: int, c: int)
    requires
        w.wf(),
        w.adjacent(p, c),
    ensures
        ({
            let r = w.row_of(c);
            let k = w.col_of(c);
            ||| (k + 1 < w.width && p == w.cell_at(r, k + 1))
            ||| (k > 0 && p == w.cell_at(r, k - 1))
            ||| (r + 1 < w.height && p == w.cell_at(r + 1, k))
            ||| (r > 0 && p == w.cell_at(r - 1, k))
        }),
{
    lemma_cell_coords(w, p);
    lemma_cell_coords(w, c);
}

// ─── Laws of the transition function ───────────────────────────────────────

/// A state the search engine can work on: sixteen bytes, a location on the
/// grid, and key, door and switch fields that use only their four low bits.
pub open spec fn valid_state(d: Seq<u8>, cfg: LayoutConfig, w: WorldConfig) -> bool {
    &&& d.len() == 16
    &&& 0 <= read_location(d, cfg) < w.num_cells()
    &&& d[cfg.keys_offset as int] < 16
    &&& d[cfg.doors_offset as int] < 16
    &&& d[cfg.switches_offset as int] < 16
}

/// The location field can hold every cell of the world.
pub open spec fn location_fits(cfg: LayoutConfig, w: WorldConfig) -> bool {
    w.num_cells() <= cfg.loc_capacity()
}

proof fn lemma_low_nibble_flags(b: u8, id: u8)
    requires
        b < 16,
        id < 4,
    ensures
        with_flag(b, id) < 16,
        flipped(b, id) < 16,
{
    assert((b | (1u8 << id)) < 16) by (bit_vector)
        requires
            b < 16,
            id < 4,
    ;
    assert((b ^ (1u8 << id)) < 16) by (bit_vector)
        requires
            b < 16,
            id < 4,
    ;
}

proof fn lemma_move_target(w: WorldConfig, cell: int, input: u8)
    requires
        w.wf(),
        0 <= cell < w.num_cells(),
        1 <= input <= 4,
        ({
            let (tr, tc) = move_target(w, cell, input);
            tr < w.height && tc < w.width
        }),
    ensures
        ({
            let (tr, tc) = move_target(w, cell, input);
            let target = w.cell_at(tr, tc);
            &&& 0 <= target < w.num_cells()
            &&& target == cell || w.adjacent(cell, target)
        }),
{
    lemma_cell_coords(w, cell);
    let (tr, tc) = move_target(w, cell, input);
    lemma_cell_at(w, tr, tc);
}

/// Under a well-formed layout, an accepted input keeps a valid state valid,
/// lets one tick pass (held at `u16::MAX`), and loses no key; when the
/// location field can hold every cell, the state stays on its cell or moves
/// to a side-adjacent cell that is not a wall, and only a move changes it.
pub proof fn lemma_step_laws(d: Seq<u8>, input: u8, cfg: LayoutConfig, w: WorldConfig)
    requires
        cfg.wf(),
        w.wf(),
        valid_state(d, cfg, w),
        step_spec(d, input, cfg, w) is Some,
    ensures
        ({
            let n = step_spec(d, input, cfg, w)->0;
            let a = read_location(d, cfg);
            let b = read_location(n, cfg);
            let k = cfg.keys_offset as int;
            &&& valid_state(n, cfg, w)
            &&& read_ticks(n, cfg) == saturating_ticks(read_ticks(d, cfg), 1)
            &&& forall|j: u8| j < 8 && #[trigger] flag(d[k], j) ==> flag(n[k], j)
            &&& location_fits(cfg, w) ==> {
                &&& b == a || (w.adjacent(a, b) && w.walkable(b))
                &&& b != a ==> 1 <= input <= 4
            }
        }),
{
    let n = step_spec(d, input, cfg, w)->0;
    let k = cfg.keys_offset as int;
    let dr = cfg.doors_offset as int;
    let sw = cfg.switches_offset as int;
    let a = read_location(d, cfg);
    if input == 0 {
        lemma_write_ticks(d, cfg, saturating_ticks(read_ticks(d, cfg), 1));
        assert forall|j: u8| j < 8 && #[trigger] flag(d[k], j) implies flag(n[k], j) by {}
    } else if input == 5 {
        let here = w.terrain@[a];
        let next = advance_ticks(d, cfg, 1);
        lemma_write_ticks(d, cfg, saturating_ticks(read_ticks(d, cfg), 1));
        if is_switch(here) {
            lemma_low_nibble_flags(next[sw], (here - 10) as u8);
        } else if is_door(here) && flag(d[k], (here - 6) as u8) {
            lemma_low_nibble_flags(next[dr], (here - 6) as u8);
        }
        assert forall|j: u8| j < 8 && #[trigger] flag(d[k], j) implies flag(n[k], j) by {}
    } else {
        lemma_move_target(w, a, input);
        let (tr, tc) = move_target(w, a, input);
        let target = w.cell_at(tr, tc);
        let t = w.terrain@[target];
        lemma_grid_size(w.width, w.height);
        let placed = write_location(d, cfg, target as u16);
        lemma_write_location(d, cfg, target as u16);
        lemma_write_ticks(placed, cfg, saturating_ticks(read_ticks(placed, cfg), 1));
        let moved = advance_ticks(placed, cfg, 1);
        if is_key(t) {
            lemma_low_nibble_flags(moved[k], (t - 2) as u8);
            lemma_with_flag(moved[k], (t - 2) as u8);
        }
        assert forall|j: u8| j < 8 && #[trigger] flag(d[k], j) implies flag(n[k], j) by {}
    }
}

/// Under a well-formed layout, every state a run reaches from a valid state
/// is valid.
pub proof fn lemma_run_valid(d: Seq<u8>, path: Seq<u8>, cfg: LayoutConfig, w: WorldConfig)
    requires
        cfg.wf(),
        w.wf(),
        valid_state(d, cfg, w),
        run_spec(d, path, cfg, w) is Some,
    ensures
        valid_state(run_spec(d, path, cfg, w)->0, cfg, w),
    decreases path.len(),
{
    if path.len() > 0 {
        let x = run_spec(d, path.drop_last(), cfg, w)->0;
        lemma_run_valid(d, path.drop_last(), cfg, w);
        lemma_step_laws(x, path.last(), cfg, w);
    }
}

/// Under a well-formed layout, an accepted input keeps the state's location on
/// the grid.
pub proof fn lemma_step_stays_on_grid(d: Seq<u8>, input: u8, cfg: LayoutConfig, w: WorldConfig)
    requires
        cfg.wf(),
        w.wf(),
        d.len() == 16,
        0 <= read_location(d, cfg) < w.num_cells(),
        step_spec(d, input, cfg, w) is Some,
    ensures
        step_spec(d, input, cfg, w)->0.len() == 16,
        0 <= read_location(step_spec(d, input, cfg, w)->0, cfg) < w.num_cells(),
{
    let a = read_location(d, cfg);
    let k = cfg.keys_offset as int;
    if input == 0 || input == 5 {
        lemma_write_ticks(d, cfg, saturating_ticks(read_ticks(d, cfg), 1));
    } else {
        lemma_move_target(w, a, input);
        let (tr, tc) = move_target(w, a, input);
        let target = w.cell_at(tr, tc);
        lemma_grid_size(w.width, w.height);
        let placed = write_location(d, cfg, target as u16);
        lemma_write_location(d, cfg, target as u16);
        lemma_write_ticks(placed, cfg, saturating_ticks(read_ticks(placed, cfg), 1));
    }
}

/// Byte `j` belongs to the location, key, door, switch or tick field.
pub open spec fn in_step_fields(cfg: LayoutConfig, j: int) -> bool {
    ||| cfg.loc_offset <= j < cfg.loc_offset + cfg.loc_width()
    ||| j == cfg.keys_offset
    ||| j == cfg.doors_offset
    ||| j == cfg.switches_offset
    ||| cfg.ticks_offset <= j < cfg.ticks_offset + 2
}

/// Two states agree on every byte outside the fields a step reads or writes.
pub open spec fn same_outside_fields(d1: Seq<u8>, d2: Seq<u8>, cfg: LayoutConfig) -> bool {
    &&& d1.len() == 16
    &&& d2.len() == 16
    &&& forall|j: int| 0 <= j < 16 && !in_step_fields(cfg, j) ==> #[trigger] d1[j] == d2[j]
}

/// Two states have the same location, keys, doors and switches.
pub open spec fn same_position(d1: Seq<u8>, d2: Seq<u8>, cfg: LayoutConfig) -> bool {
    &&& read_location(d1, cfg) == read_location(d2, cfg)
    &&& d1[cfg.keys_offset as int] == d2[cfg.keys_offset as int]
    &&& d1[cfg.doors_offset as int] == d2[cfg.doors_offset as int]
    &&& d1[cfg.switches_offset as int] == d2[cfg.switches_offset as int]
}

/// Under a well-formed layout, a step leaves every byte outside the fields it
/// reads or writes as it was.
pub proof fn lemma_step_frame(d: Seq<u8>, input: u8, cfg: LayoutConfig, w: WorldConfig)
    requires
        cfg.wf(),
        w.wf(),
        valid_state(d, cfg, w),
        step_spec(d, input, cfg, w) is Some,
    ensures
        same_outside_fields(d, step_spec(d, input, cfg, w)->0, cfg),
{
    lemma_step_stays_on_grid(d, input, cfg, w);
}

/// Under a well-formed layout, what a step does depends only on the
/// location, keys, doors and switches of the state (and its tick counter,
/// which it advances): two valid states that agree on those fields and on the
/// bytes outside the step's fields are accepted alike, and lead to states that
/// again agree so.
pub proof fn lemma_step_congruent(
    d1: Seq<u8>,
    d2: Seq<u8>,
    input: u8,
    cfg: LayoutConfig,
    w: WorldConfig,
)
    requires
        cfg.wf(),
        w.wf(),
        valid_state(d1, cfg, w),
        valid_state(d2, cfg, w),
        same_outside_fields(d1, d2, cfg),
        same_position(d1, d2, cfg),
    ensures
        (step_spec(d1, input, cfg, w) is Some) == (step_spec(d2, input, cfg, w) is Some),
        step_spec(d1, input, cfg, w) is Some ==> {
            let n1 = step_spec(d1, input, cfg, w)->0;
            let n2 = step_spec(d2, input, cfg, w)->0;
            &&& same_outside_fields(n1, n2, cfg)
            &&& same_position(n1, n2, cfg)
        },
{
    let a = read_location(d1, cfg);
    lemma_write_ticks(d1, cfg, saturating_ticks(read_ticks(d1, cfg), 1));
    lemma_write_ticks(d2, cfg, saturating_ticks(read_ticks(d2, cfg), 1));
    if 1 <= input <= 4 {
        let (tr, tc) = move_target(w, a, input);
        if tr < w.height && tc < w.width {
            lemma_move_target(w, a, input);
            let target = w.cell_at(tr, tc);
            lemma_grid_size(w.width, w.height);
            let p1 = write_location(d1, cfg, target as u16);
            let p2 = write_location(d2, cfg, target as u16);
            lemma_write_location(d1, cfg, target as u16);
            lemma_write_location(d2, cfg, target as u16);
            lemma_write_ticks(p1, cfg, saturating_ticks(read_ticks(p1, cfg), 1));
            lemma_write_ticks(p2, cfg, saturating_ticks(read_ticks(p2, cfg), 1));
        }
    }
}

/// A run splits at any point: the first `k` inputs lead to some state, and
/// the remaining inputs lead from there to where the whole run leads.
pub proof fn lemma_run_split(d: Seq<u8>, path: Seq<u8>, k: int, cfg: LayoutConfig, w: WorldConfig)
    requires
        0 <= k <= path.len(),
        run_spec(d, path, cfg, w) is Some,
    ensures
        run_spec(d, path.subrange(0, k), cfg, w) is Some,
        run_spec(run_spec(d, path.subrange(0, k), cfg, w)->0, path.subrange(k, path.len() as int), cfg, w)
            == run_spec(d, path, cfg, w),
    decreases path.len(),
{
    if k == path.len() {
        assert(path.subrange(0, k) =~= path);
        assert(path.subrange(k, path.len() as int) =~= Seq::<u8>::empty());
    } else {
        let prefix = path.drop_last();
        lemma_run_split(d, prefix, k, cfg, w);
        assert(prefix.subrange(0, k) =~= path.subrange(0, k));
        let x = run_spec(d, path.subrange(0, k), cfg, w)->0;
        let rest = path.subrange(k, path.len() as int);
        assert(rest.drop_last() =~= prefix.subrange(k, prefix.len() as int));
        assert(rest.last() == path.last());
    }
}

/// Under a well-formed layout, a run from a valid state leaves every byte
/// outside the step fields as it was.
pub proof fn lemma_run_frame(d: Seq<u8>, path: Seq<u8>, cfg: LayoutConfig, w: WorldConfig)
    requires
        cfg.wf(),
        w.wf(),
        valid_state(d, cfg, w),
        run_spec(d, path, cfg, w) is Some,
    ensures
        same_outside_fields(d, run_spec(d, path, cfg, w)->0, cfg),
    decreases path.len(),
{
    if path.len() > 0 {
        let x = run_spec(d, path.drop_last(), cfg, w)->0;
        lemma_run_frame(d, path.drop_last(), cfg, w);
        lemma_run_valid(d, path.drop_last(), cfg, w);
        lemma_step_frame(x, path.last(), cfg, w);
    }
}

// ─── Laws of single inputs ──────────────────────────────────────────────────

/// The move `input` (1 Up, 2 Down, 3 Left, 4 Right) from the cell `a` has a
/// cell of the grid to go to.
pub open spec fn has_neighbour(w: WorldConfig, a: int, input: u8) -> bool {
    let r = w.row_of(a);
    let k = w.col_of(a);
    ||| input == 1 && r > 0
    ||| input == 2 && r + 1 < w.height
    ||| input == 3 && k > 0
    ||| input == 4 && k + 1 < w.width
}

/// The cell that the move `input` from `a` goes to: the one in the row
/// above (Up), the row below (Down), the column to the left (Left) or the
/// column to the right (Right).
pub open spec fn neighbour(w: WorldConfig, a: int, input: u8) -> int {
    let r = w.row_of(a);
    let k = w.col_of(a);
    if input == 1 {
        w.cell_at(r - 1, k)
    } else if input == 2 {
        w.cell_at(r + 1, k)
    } else if input == 3 {
        w.cell_at(r, k - 1)
    } else {
        w.cell_at(r, k + 1)
    }
}

/// The tick counter of `n` is one more than that of `d`, held at `u16::MAX`.
pub open spec fn one_tick_later(d: Seq<u8>, n: Seq<u8>, cfg: LayoutConfig) -> bool {
    read_ticks(n, cfg) == if read_ticks(d, cfg) < 65535 {
        read_ticks(d, cfg) + 1
    } else {
        65535
    }
}

/// Down from the bottom row and Right from the rightmost column are refused.
/// Up from the top row and Left from the leftmost column aim at the cell the
/// state is on; every other move aims at the neighbouring cell in its
/// direction.  A move aimed at a cell of terrain `t`:
/// - a wall (1) refuses it;
/// - a one-way passage refuses it exactly when it goes against the passage:
///   north (14) is entered only moving Up, south (15) only moving Down,
///   east (16) only moving Right, west (17) only moving Left;
/// - a door (6..=9) refuses it exactly when the door `t - 6` is closed and
///   its key is not held;
/// - every other terrain accepts it.
///
/// An accepted move puts the state on that cell, lets one tick pass, keeps
/// every key held and picks up the key `t - 2` of a key cell (2..=5), and
/// leaves the doors and switches as they were.
pub proof fn lemma_move_outcome(d: Seq<u8>, input: u8, cfg: LayoutConfig, w: WorldConfig)
    requires
        cfg.wf(),
        w.wf(),
        location_fits(cfg, w),
        valid_state(d, cfg, w),
        1 <= input <= 4,
    ensures
        !has_neighbour(w, read_location(d, cfg), input) && (input == 2 || input == 4) ==> step_spec(
            d,
            input,
            cfg,
            w,
        ) is None,
        has_neighbour(w, read_location(d, cfg), input) || input == 1 || input == 3 ==> ({
            let a = read_location(d, cfg);
            let b = if has_neighbour(w, a, input) {
                neighbour(w, a, input)
            } else {
                a
            };
            let t = w.terrain@[b];
            let r = step_spec(d, input, cfg, w);
            let keys = d[cfg.keys_offset as int];
            let doors = d[cfg.doors_offset as int];
            &&& t == 1 ==> r is None
            &&& t == 14 ==> (r is Some <==> input == 1)
            &&& t == 15 ==> (r is Some <==> input == 2)
            &&& t == 16 ==> (r is Some <==> input == 4)
            &&& t == 17 ==> (r is Some <==> input == 3)
            &&& 6 <= t <= 9 ==> (r is Some <==> (flag(doors, (t - 6) as u8) || flag(
                keys,
                (t - 6) as u8,
            )))
            &&& !(t == 1 || 6 <= t <= 9 || 14 <= t <= 17) ==> r is Some
            &&& r matches Some(n) ==> {
                &&& read_location(n, cfg) == b
                &&& one_tick_later(d, n, cfg)
                &&& n[cfg.doors_offset as int] == doors
                &&& n[cfg.switches_offset as int] == d[cfg.switches_offset as int]
                &&& forall|j: u8|
                    j < 8 ==> #[trigger] flag(n[cfg.keys_offset as int], j) == (flag(keys, j) || (2
                        <= t <= 5 && j == t - 2))
            }
        }),
{
    let a = read_location(d, cfg);
    lemma_cell_coords(w, a);
    let (tr, tc) = move_target(w, a, input);
    if has_neighbour(w, a, input) || input == 1 || input == 3 {
        let b = if has_neighbour(w, a, input) {
            neighbour(w, a, input)
        } else {
            a
        };
        assert(w.cell_at(tr, tc) == b);
        lemma_cell_at(w, tr, tc);
        lemma_grid_size(w.width, w.height);
        let t = w.terrain@[b];
        let k = cfg.keys_offset as int;
        let placed = write_location(d, cfg, b as u16);
        lemma_write_location(d, cfg, b as u16);
        lemma_write_ticks(placed, cfg, saturating_ticks(read_ticks(placed, cfg), 1));
        let moved = advance_ticks(placed, cfg, 1);
        assert(b as u16 as int % cfg.loc_capacity() == b);
        if is_key(t) {
            lemma_with_flag(moved[k], (t - 2) as u8);
        }
    }
}

/// Wait leaves the state where it is and changes no field but the tick
/// counter, which goes up by one.
pub proof fn lemma_wait_outcome(d: Seq<u8>, cfg: LayoutConfig, w: WorldConfig)
    requires
        cfg.wf(),
        valid_state(d, cfg, w),
    ensures
        step_spec(d, 0, cfg, w) matches Some(n) && {
            &&& read_location(n, cfg) == read_location(d, cfg)
            &&& one_tick_later(d, n, cfg)
            &&& n[cfg.keys_offset as int] == d[cfg.keys_offset as int]
            &&& n[cfg.doors_offset as int] == d[cfg.doors_offset as int]
            &&& n[cfg.switches_offset as int] == d[cfg.switches_offset as int]
        },
{
    lemma_write_ticks(d, cfg, saturating_ticks(read_ticks(d, cfg), 1));
}

/// Inputs other than Wait, the four moves and Activate are refused.
pub proof fn lemma_unknown_input(d: Seq<u8>, input: u8, cfg: LayoutConfig, w: WorldConfig)
    requires
        input > 5,
    ensures
        step_spec(d, input, cfg, w) is None,
{
}

/// Activate is always accepted.  It leaves the state on its cell, lets one
/// tick pass and keeps the keys.  On a switch (10..=13) it flips the switch
/// `t - 10` and no other; on a door (6..=9) whose key `t - 6` is held it
/// opens that door and no other; on any other cell, or a door whose key is
/// not held, the doors and switches stay as they were.
pub proof fn lemma_activate_outcome(d: Seq<u8>, cfg: LayoutConfig, w: WorldConfig)
    requires
        cfg.wf(),
        w.wf(),
        valid_state(d, cfg, w),
    ensures
        ({
            let h = w.terrain@[read_location(d, cfg)];
            let keys = d[cfg.keys_offset as int];
            let doors = d[cfg.doors_offset as int];
            let sw = d[cfg.switches_offset as int];
            step_spec(d, 5, cfg, w) matches Some(n) && {
                &&& read_location(n, cfg) == read_location(d, cfg)
                &&& one_tick_later(d, n, cfg)
                &&& n[cfg.keys_offset as int] == keys
                &&& forall|j: u8|
                    j < 8 ==> #[trigger] flag(n[cfg.switches_offset as int], j) == if 10 <= h <= 13
                        && j == h - 10 {
                        !flag(sw, j)
                    } else {
                        flag(sw, j)
                    }
                &&& forall|j: u8|
                    j < 8 ==> #[trigger] flag(n[cfg.doors_offset as int], j) == (flag(doors, j) || (6
                        <= h <= 9 && j == h - 6 && flag(keys, j)))
            }
        }),
{
    let a = read_location(d, cfg);
    let h = w.terrain@[a];
    let next = advance_ticks(d, cfg, 1);
    lemma_write_ticks(d, cfg, saturating_ticks(read_ticks(d, cfg), 1));
    if is_switch(h) {
        lemma_flipped(next[cfg.switches_offset as int], (h - 10) as u8);
    } else if is_door(h) && flag(d[cfg.keys_offset as int], (h - 6) as u8) {
        lemma_with_flag(next[cfg.doors_offset as int], (h - 6) as u8);
    }
}

/// Activating twice on the same cell gives the switches back as they were.
pub proof fn lemma_activate_twice(d: Seq<u8>, cfg: LayoutConfig, w: WorldConfig)
    requires
        cfg.wf(),
        w.wf(),
        valid_state(d, cfg, w),
    ensures
        step_spec(d, 5, cfg, w) matches Some(n1) && step_spec(n1, 5, cfg, w) matches Some(n2)
            && n2[cfg.switches_offset as int] == d[cfg.switches_offset as int],
{
    lemma_activate_outcome(d, cfg, w);
    lemma_step_laws(d, 5, cfg, w);
    let n1 = step_spec(d, 5, cfg, w)->0;
    lemma_activate_outcome(n1, cfg, w);
    let h = w.terrain@[read_location(d, cfg)];
    let s = cfg.switches_offset as int;
    let n2 = step_spec(n1, 5, cfg, w)->0;
    lemma_write_ticks(d, cfg, saturating_ticks(read_ticks(d, cfg), 1));
    let next1 = advance_ticks(n1, cfg, 1);
    lemma_write_ticks(n1, cfg, saturating_ticks(read_ticks(n1, cfg), 1));
    if is_switch(h) {
        lemma_flipped(d[s], (h - 10) as u8);
    }
}

} // verus!
