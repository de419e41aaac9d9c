//! IDA* search with a generational dominance filter.
//!
//! The filter remembers, for each (cell, keys, doors, switches) combination,
//! the smallest tick count at which the current iteration reached it; a state
//! reached again with no fewer ticks is pruned.  The filter is a flat array
//! of `cells * 16 * 16 * 16` slots when that is at most four million, and an
//! `FxHashMap` otherwise.

use vstd::prelude::*;
use std::hash::BuildHasherDefault;
use fxhash::{FxHasher, FxHashMap};
use crate::state::{PackedState, LayoutConfig, read_location, read_ticks};
use crate::env::{
    WorldConfig, INPUT_COUNT, step, step_spec, valid_state, run_spec, same_outside_fields,
    same_position, in_step_fields, lemma_run_push, lemma_step_laws, lemma_run_valid, lemma_num_cells_bound,
    lemma_step_congruent, lemma_step_frame, lemma_run_split, lemma_run_frame, location_fits,
};
use crate::pdb::{
    PatternDatabase, relaxed_distances, lemma_run_distance, lemma_heuristic_admissible,
};

verus! {

/// std's `BuildHasherDefault`, the hasher builder of `FxHashMap`, made known
/// to the verifier as an opaque type.
#[verifier::external_type_specification]
#[verifier::external_body]
#[verifier::reject_recursive_types(H)]
pub struct ExBuildHasherDefault<H>(BuildHasherDefault<H>);

/// fxhash's `FxHasher`, made known to the verifier as an opaque type.
#[verifier::external_type_specification]
#[verifier::external_body]
pub struct ExFxHasher(FxHasher);

/// `HashMap::get` on an `FxHashMap` (std's hash map with fxhash's `FxHasher`):
/// the value stored under `key`, if there is one.  `FxHasher` hashes a `u64`
/// to a fixed function of its bits, so the map behaves as a map on keys.
#[verifier::external_body]
fn fx_get(m: &FxHashMap<u64, u16>, key: u64) -> (r: Option<u16>)
    ensures
        r == (if m@.contains_key(key) {
            Some(m@[key])
        } else {
            None
        }),
{
    m.get(&key).copied()
}

/// `HashMap::insert` on an `FxHashMap`: afterwards `key` maps to `val` and
/// every other key keeps its value.
#[verifier::external_body]
fn fx_insert(m: &mut FxHashMap<u64, u16>, key: u64, val: u16)
    ensures
        final(m)@ == old(m)@.insert(key, val),
{
    m.insert(key, val);
}

// ─── Dominance filter ─────────────────────────────────────────────────────

/// Slot count up to which the filter is a flat array.
const FLAT_LIMIT: usize = 4_000_000;

/// The filter slot of a state: `cell * 4096 + keys * 256 + doors * 16 + switches`.
spec fn slot_of(d: Seq<u8>, cfg: LayoutConfig) -> int {
    read_location(d, cfg) * 4096 + d[cfg.keys_offset as int] * 256 + d[cfg.doors_offset as int] * 16
        + d[cfg.switches_offset as int]
}

enum DominanceFilter {
    /// Flat array indexed by slot; value = best tick count seen (0 = empty).
    Flat { data: Vec<u16> },
    /// Fallback for large state spaces.
    Hashed { map: FxHashMap<u64, u16> },
}

impl DominanceFilter {
    /// The tick count remembered for a slot (0 when none).
    spec fn stored(self, slot: int) -> u16 {
        match self {
            DominanceFilter::Flat { data } => if 0 <= slot < data@.len() {
                data@[slot]
            } else {
                0
            },
            DominanceFilter::Hashed { map } => if map@.contains_key(slot as u64) {
                map@[slot as u64]
            } else {
                0
            },
        }
    }

    /// A flat filter has a slot for every state of a world of `cells` cells.
    spec fn wf(self, cells: int) -> bool {
        match self {
            DominanceFilter::Flat { data } => data@.len() == cells * 4096,
            DominanceFilter::Hashed { .. } => true,
        }
    }

    /// An empty filter for a world of `cell_count` cells.
    fn new(cell_count: usize) -> (r: Self)
        requires
            cell_count <= 65025,
        ensures
            r.wf(cell_count as int),
            forall|s: int| 0 <= s < 65536 * 4096 ==> #[trigger] r.stored(s) == 0,
    {
        let slots = cell_count * 16 * 16 * 16;
        if slots <= FLAT_LIMIT {
            let mut data: Vec<u16> = Vec::with_capacity(slots);
            let mut i: usize = 0;
            while i < slots
                invariant
                    i <= slots,
                    data@.len() == i,
                    forall|j: int| 0 <= j < i ==> #[trigger] data@[j] == 0,
                decreases slots - i,
            {
                data.push(0);
                i += 1;
            }
            DominanceFilter::Flat { data }
        } else {
            let map: FxHashMap<u64, u16> = std::collections::HashMap::default();
            DominanceFilter::Hashed { map }
        }
    }

    /// Forget every slot.
    fn clear(&mut self, Ghost(cells): Ghost<int>)
        requires
            old(self).wf(cells),
        ensures
            final(self).wf(cells),
            forall|s: int| 0 <= s < 65536 * 4096 ==> #[trigger] final(self).stored(s) == 0,
    {
        match self {
            DominanceFilter::Flat { data } => {
                let n = data.len();
                let mut i: usize = 0;
                while i < n
                    invariant
                        i <= n,
                        data@.len() == n,
                        forall|j: int| 0 <= j < i ==> #[trigger] data@[j] == 0,
                    decreases n - i,
                {
                    data.set(i, 0);
                    i += 1;
                }
            },
            DominanceFilter::Hashed { map } => {
                map.clear();
            },
        }
    }
    /// The state's slot holds a tick count (non-zero) no greater than the state's.
    fn is_dominated(&self, state: &PackedState, layout: &LayoutConfig, Ghost(cells): Ghost<int>) -> (r:
        bool)
        requires
            self.wf(cells),
            layout.in_bounds(),
            filter_ready(state@, *layout, cells),
        ensures
            r == (self.stored(slot_of(state@, *layout)) != 0 && self.stored(
                slot_of(state@, *layout),
            ) <= read_ticks(state@, *layout)),
    {
        let idx = slot(state, layout);
        let ticks = state.get_ticks(layout);
        match self {
            DominanceFilter::Flat { data } => {
                let entry = data[idx as usize];
                entry != 0 && entry <= ticks
            },
            DominanceFilter::Hashed { map } => {
                match fx_get(map, idx) {
                    Some(stored) => stored != 0 && stored <= ticks,
                    None => false,
                }
            },
        }
    }

    /// Remember the state's tick count in its slot.
    fn mark(&mut self, state: &PackedState, layout: &LayoutConfig, Ghost(cells): Ghost<int>)
        requires
            old(self).wf(cells),
            layout.in_bounds(),
            filter_ready(state@, *layout, cells),
        ensures
            final(self).wf(cells),
            forall|s: int|
                0 <= s < 65536 * 4096 ==> #[trigger] final(self).stored(s) == if s == slot_of(
                    state@,
                    *layout,
                ) {
                    read_ticks(state@, *layout) as u16
                } else {
                    old(self).stored(s)
                },
    {
        let idx = slot(state, layout);
        let ticks = state.get_ticks(layout);
        match self {
            DominanceFilter::Flat { data } => {
                data.set(idx as usize, ticks);
            },
            DominanceFilter::Hashed { map } => {
                fx_insert(map, idx, ticks);
            },
        }
    }
}

/// The state fits the filter: its cell is below `cells` (at most 65536) and
/// its keys, doors and switches use only their four low bits.
spec fn filter_ready(d: Seq<u8>, cfg: LayoutConfig, cells: int) -> bool {
    &&& cells <= 65536
    &&& 0 <= read_location(d, cfg) < cells
    &&& d[cfg.keys_offset as int] < 16
    &&& d[cfg.doors_offset as int] < 16
    &&& d[cfg.switches_offset as int] < 16
}

/// The filter slot of a state.
fn slot(state: &PackedState, layout: &LayoutConfig) -> (r: u64)
    requires
        layout.in_bounds(),
        filter_ready(state@, *layout, 65536),
    ensures
        r == slot_of(state@, *layout),
        r < 65536 * 4096,
{
    let cell = state.get_location(layout) as u64;
    let keys = state.get_keys(layout) as u64;
    let doors = state.get_doors(layout) as u64;
    let switches = state.get_switches(layout) as u64;
    assert((cell << 12u64) | (keys << 8u64) | (doors << 4u64) | switches == cell * 4096 + keys * 256
        + doors * 16 + switches) by (bit_vector)
        requires
            cell < 65536,
            keys < 16,
            doors < 16,
            switches < 16,
    ;
    (cell << 12u64) | (keys << 8u64) | (doors << 4u64) | switches
}

// ─── What one iteration has settled ───────────────────────────────────────
//
// During an iteration with bound `B`, a slot whose filter entry is `t` and
// whose node is no longer on the search stack has been *settled*: for every
// state of the run with that slot and every accepted input, the successor was
// either cut by the bound (its estimate `t - t0 + 1 + h` exceeds `B`, and is at
// least the smallest estimate cut so far), or its slot holds an entry no
// greater than `t + 1`.  Chaining these facts along any path from the start
// shows that no path to a goal is shorter than the smallest estimate cut.

/// Number of filter slots of a world of at most 65536 cells.
spec fn slot_count() -> int {
    268435456int
}

/// The fixed data of one iteration.
struct SearchCtx {
    start: Seq<u8>,
    layout: LayoutConfig,
    world: WorldConfig,
    pdb: PatternDatabase,
    bound: int,
}

spec fn ctx_of(
    start: Seq<u8>,
    layout: LayoutConfig,
    world: WorldConfig,
    pdb: PatternDatabase,
    bound: int,
) -> SearchCtx {
    SearchCtx { start, layout, world, pdb, bound }
}

spec fn start_ticks(c: SearchCtx) -> int {
    read_ticks(c.start, c.layout)
}

/// Tick counts reach at most `u16::MAX` in the iteration without being held
/// there, so that a node's tick count is the start's plus its depth.
spec fn exact_mode(c: SearchCtx) -> bool {
    start_ticks(c) + c.bound <= 65535
}

spec fn h_of(c: SearchCtx, d: Seq<u8>) -> int {
    heuristic_of(c.pdb, d, c.layout) as int
}

/// A valid state that agrees with the start outside the step fields.
spec fn on_run(c: SearchCtx, d: Seq<u8>) -> bool {
    &&& valid_state(d, c.layout, c.world)
    &&& same_outside_fields(c.start, d, c.layout)
}

spec fn min_int(a: int, b: int) -> int {
    if a <= b {
        a
    } else {
        b
    }
}

/// The successor `n` of a node with `t` ticks was cut by the bound with an
/// estimate of at least `m`, or its slot holds an entry of at most `t + 1`.
spec fn outcome_ok(c: SearchCtx, flt: DominanceFilter, m: int, t: int, n: Seq<u8>) -> bool {
    let f = t - start_ticks(c) + 1 + h_of(c, n);
    ||| (f > c.bound && f >= m)
    ||| (flt.stored(slot_of(n, c.layout)) != 0 && flt.stored(slot_of(n, c.layout)) <= t + 1)
}

/// Every successor of the state `d`, a node with `t` ticks, is accounted for.
spec fn node_settled(c: SearchCtx, flt: DominanceFilter, m: int, d: Seq<u8>, t: int) -> bool {
    forall|i: u8|
        (#[trigger] step_spec(d, i, c.layout, c.world)) is Some ==> outcome_ok(
            c,
            flt,
            m,
            t,
            step_spec(d, i, c.layout, c.world)->0,
        )
}

/// The slot `sigma` is not a goal, and every state of the run with that slot
/// is settled as a node with `t` ticks.
spec fn slot_settled(c: SearchCtx, flt: DominanceFilter, m: int, sigma: int, t: int) -> bool {
    &&& c.pdb.distances()[sigma / 4096] != 0
    &&& forall|d: Seq<u8>|
        on_run(c, d) && #[trigger] slot_of(d, c.layout) == sigma ==> node_settled(c, flt, m, d, t)
}

/// Every slot with an entry, except those of the nodes on the stack, is settled.
spec fn settled(c: SearchCtx, flt: DominanceFilter, m: int, stack: Set<(int, int)>) -> bool {
    forall|sigma: int|
        0 <= sigma < slot_count() && #[trigger] flt.stored(sigma) != 0 && !stack.contains(
            (sigma, flt.stored(sigma) as int),
        ) ==> slot_settled(c, flt, m, sigma, flt.stored(sigma) as int)
}

/// Entries are never removed, only lowered.
spec fn lowered(f1: DominanceFilter, f2: DominanceFilter) -> bool {
    forall|x: int|
        0 <= x < slot_count() && #[trigger] f1.stored(x) != 0 ==> f2.stored(x) != 0 && f2.stored(x)
            <= f1.stored(x)
}

/// Entries of at most `t` are unchanged.
spec fn kept_below(f1: DominanceFilter, f2: DominanceFilter, t: int) -> bool {
    forall|x: int| 0 <= x < slot_count() && 0 < #[trigger] f1.stored(x) <= t ==> f2.stored(x) == f1.stored(x)
}

proof fn lemma_slot_facts(d: Seq<u8>, cfg: LayoutConfig, w: WorldConfig)
    requires
        valid_state(d, cfg, w),
    ensures
        0 <= slot_of(d, cfg) < slot_count(),
        slot_of(d, cfg) / 4096 == read_location(d, cfg),
{
    lemma_num_cells_bound(w);
}

/// Two valid states with the same slot have the same position.
proof fn lemma_slot_position(d1: Seq<u8>, d2: Seq<u8>, cfg: LayoutConfig, w: WorldConfig)
    requires
        valid_state(d1, cfg, w),
        valid_state(d2, cfg, w),
        slot_of(d1, cfg) == slot_of(d2, cfg),
    ensures
        same_position(d1, d2, cfg),
{
}

proof fn lemma_outcome_mono(
    c: SearchCtx,
    f1: DominanceFilter,
    m1: int,
    f2: DominanceFilter,
    m2: int,
    t: int,
    n: Seq<u8>,
)
    requires
        outcome_ok(c, f1, m1, t, n),
        lowered(f1, f2),
        m2 <= m1,
        0 <= slot_of(n, c.layout) < slot_count(),
    ensures
        outcome_ok(c, f2, m2, t, n),
{
}

proof fn lemma_node_settled_mono(
    c: SearchCtx,
    f1: DominanceFilter,
    m1: int,
    f2: DominanceFilter,
    m2: int,
    d: Seq<u8>,
    t: int,
)
    requires
        c.layout.wf(),
        c.world.wf(),
        valid_state(d, c.layout, c.world),
        node_settled(c, f1, m1, d, t),
        lowered(f1, f2),
        m2 <= m1,
    ensures
        node_settled(c, f2, m2, d, t),
{
    assert forall|i: u8| (#[trigger] step_spec(d, i, c.layout, c.world)) is Some implies outcome_ok(
        c,
        f2,
        m2,
        t,
        step_spec(d, i, c.layout, c.world)->0,
    ) by {
        lemma_step_laws(d, i, c.layout, c.world);
        lemma_slot_facts(step_spec(d, i, c.layout, c.world)->0, c.layout, c.world);
        lemma_outcome_mono(c, f1, m1, f2, m2, t, step_spec(d, i, c.layout, c.world)->0);
    }
}

proof fn lemma_slot_settled_mono(
    c: SearchCtx,
    f1: DominanceFilter,
    m1: int,
    f2: DominanceFilter,
    m2: int,
    sigma: int,
    t: int,
)
    requires
        c.layout.wf(),
        c.world.wf(),
        slot_settled(c, f1, m1, sigma, t),
        lowered(f1, f2),
        m2 <= m1,
    ensures
        slot_settled(c, f2, m2, sigma, t),
{
    assert forall|d: Seq<u8>| on_run(c, d) && #[trigger] slot_of(d, c.layout) == sigma implies node_settled(
        c,
        f2,
        m2,
        d,
        t,
    ) by {
        lemma_node_settled_mono(c, f1, m1, f2, m2, d, t);
    }
}

/// Lowering the smallest cut estimate keeps every settled slot settled.
proof fn lemma_settled_lower_m(
    c: SearchCtx,
    f: DominanceFilter,
    m1: int,
    m2: int,
    stack: Set<(int, int)>,
)
    requires
        c.layout.wf(),
        c.world.wf(),
        settled(c, f, m1, stack),
        m2 <= m1,
    ensures
        settled(c, f, m2, stack),
{
    assert forall|sigma: int|
        0 <= sigma < slot_count() && #[trigger] f.stored(sigma) != 0 && !stack.contains(
            (sigma, f.stored(sigma) as int),
        ) implies slot_settled(c, f, m2, sigma, f.stored(sigma) as int) by {
        lemma_slot_settled_mono(c, f, m1, f, m2, sigma, f.stored(sigma) as int);
    }
}

/// Marking a node's slot with its tick count, and putting the node on the
/// stack, keeps the filter settled.
proof fn lemma_settled_mark(
    c: SearchCtx,
    f1: DominanceFilter,
    f2: DominanceFilter,
    m: int,
    stack: Set<(int, int)>,
    sigma: int,
    t: int,
)
    requires
        c.layout.wf(),
        c.world.wf(),
        settled(c, f1, m, stack),
        0 <= sigma < slot_count(),
        0 <= t < 65536,
        f1.stored(sigma) == 0 || f1.stored(sigma) > t,
        t != 0 || f1.stored(sigma) == 0,
        forall|x: int|
            0 <= x < slot_count() ==> #[trigger] f2.stored(x) == if x == sigma {
                t as u16
            } else {
                f1.stored(x)
            },
    ensures
        settled(c, f2, m, stack.insert((sigma, t))),
        lowered(f1, f2),
        kept_below(f1, f2, t),
{
    assert forall|x: int| 0 <= x < slot_count() && #[trigger] f1.stored(x) != 0 implies f2.stored(x) != 0
        && f2.stored(x) <= f1.stored(x) by {
        if x == sigma {
            assert(t != 0);
        }
    }
    let st = stack.insert((sigma, t));
    assert forall|x: int|
        0 <= x < slot_count() && #[trigger] f2.stored(x) != 0 && !st.contains(
            (x, f2.stored(x) as int),
        ) implies slot_settled(c, f2, m, x, f2.stored(x) as int) by {
        assert(x != sigma);
        assert(f2.stored(x) == f1.stored(x));
        lemma_slot_settled_mono(c, f1, m, f2, m, x, f1.stored(x) as int);
    }
}

/// Once a node has had all its successors examined, taking it off the stack
/// keeps the filter settled.
proof fn lemma_settled_pop(
    c: SearchCtx,
    f: DominanceFilter,
    m: int,
    stack: Set<(int, int)>,
    sigma: int,
    t: int,
)
    requires
        settled(c, f, m, stack.insert((sigma, t))),
        t != 0 ==> f.stored(sigma) == t && slot_settled(c, f, m, sigma, t),
        0 <= sigma < slot_count(),
    ensures
        settled(c, f, m, stack),
{
    assert forall|x: int|
        0 <= x < slot_count() && #[trigger] f.stored(x) != 0 && !stack.contains(
            (x, f.stored(x) as int),
        ) implies slot_settled(c, f, m, x, f.stored(x) as int) by {
        if x == sigma && f.stored(x) as int == t {
        } else {
            assert(!stack.insert((sigma, t)).contains((x, f.stored(x) as int)));
        }
    }
}

/// A settled node makes its slot settled: every state of the run with the
/// same slot steps alike.
proof fn lemma_node_to_slot(c: SearchCtx, f: DominanceFilter, m: int, d: Seq<u8>, t: int)
    requires
        c.layout.wf(),
        c.world.wf(),
        on_run(c, d),
        node_settled(c, f, m, d, t),
        h_of(c, d) != 0,
    ensures
        slot_settled(c, f, m, slot_of(d, c.layout), t),
{
    lemma_slot_facts(d, c.layout, c.world);
    let sigma = slot_of(d, c.layout);
    assert forall|e: Seq<u8>| on_run(c, e) && #[trigger] slot_of(e, c.layout) == sigma implies node_settled(
        c,
        f,
        m,
        e,
        t,
    ) by {
        lemma_slot_position(d, e, c.layout, c.world);
        assert forall|j: int| 0 <= j < 16 && !in_step_fields(c.layout, j) implies #[trigger] d[j]
            == e[j] by {
            assert(c.start[j] == d[j]);
            assert(c.start[j] == e[j]);
        }
        assert forall|i: u8| (#[trigger] step_spec(e, i, c.layout, c.world)) is Some implies outcome_ok(
            c,
            f,
            m,
            t,
            step_spec(e, i, c.layout, c.world)->0,
        ) by {
            lemma_step_congruent(d, e, i, c.layout, c.world);
            assert(step_spec(d, i, c.layout, c.world) is Some);
            let nd = step_spec(d, i, c.layout, c.world)->0;
            let ne = step_spec(e, i, c.layout, c.world)->0;
            assert(slot_of(nd, c.layout) == slot_of(ne, c.layout));
        }
    }
}

// ─── IDA* ─────────────────────────────────────────────────────────────────

/// What the search may rely on: a well-formed layout and world, and a
/// well-formed heuristic table covering the world.
pub open spec fn search_ready(layout: LayoutConfig, world: WorldConfig, pdb: PatternDatabase) -> bool {
    &&& layout.wf()
    &&& world.wf()
    &&& pdb.wf()
    &&& pdb.num_cells() == world.num_cells()
}

/// The heuristic of a state: the table's distance for its cell.
pub open spec fn heuristic_of(pdb: PatternDatabase, d: Seq<u8>, layout: LayoutConfig) -> u32 {
    pdb.distances()[read_location(d, layout)]
}

/// A goal of the search: a run from `start` along `path` that ends on a state
/// whose heuristic is zero.
pub open spec fn reaches_goal(
    start: Seq<u8>,
    path: Seq<u8>,
    layout: LayoutConfig,
    world: WorldConfig,
    pdb: PatternDatabase,
) -> bool {
    &&& run_spec(start, path, layout, world) is Some
    &&& heuristic_of(pdb, run_spec(start, path, layout, world)->0, layout) == 0
}

/// The state is dominated by the filter: its slot holds a tick count no
/// greater than its own.
spec fn dominated(flt: DominanceFilter, d: Seq<u8>, layout: LayoutConfig) -> bool {
    flt.stored(slot_of(d, layout)) != 0 && flt.stored(slot_of(d, layout)) <= read_ticks(d, layout)
}

/// What a call of `dfs` may assume about the iteration when tick counts stay
/// exact.
spec fn dfs_pre(
    c: SearchCtx,
    d: Seq<u8>,
    g: int,
    path: Seq<u8>,
    flt: DominanceFilter,
    stack: Set<(int, int)>,
    m: int,
) -> bool {
    &&& on_run(c, d)
    &&& read_ticks(d, c.layout) == start_ticks(c) + g
    &&& g <= c.bound + 1
    &&& path.len() == g
    &&& settled(c, flt, m, stack)
    &&& forall|e: (int, int)| #[trigger] stack.contains(e) ==> e.1 < read_ticks(d, c.layout)
    &&& read_ticks(d, c.layout) == 0 ==> flt.stored(slot_of(d, c.layout)) == 0
}

/// What a call of `dfs` guarantees about the iteration when tick counts stay
/// exact.
spec fn dfs_post(
    c: SearchCtx,
    d: Seq<u8>,
    g: int,
    f0: DominanceFilter,
    f1: DominanceFilter,
    stack: Set<(int, int)>,
    res: Option<u64>,
    m1: int,
    path1: Seq<u8>,
) -> bool {
    let t = read_ticks(d, c.layout);
    let expanded = g + h_of(c, d) <= c.bound;
    &&& lowered(f0, f1)
    &&& kept_below(f0, f1, t)
    &&& !expanded ==> res == Some((g + h_of(c, d)) as u64)
    &&& res is Some ==> settled(c, f1, m1, stack)
    &&& res is Some && expanded ==> h_of(c, d) != 0
    &&& res is Some && expanded && t != 0 ==> f1.stored(slot_of(d, c.layout)) != 0 && f1.stored(
        slot_of(d, c.layout),
    ) <= t
    &&& res is Some && expanded && !dominated(f0, d, c.layout) ==> node_settled(c, f1, m1, d, t)
    &&& res is None ==> path1.len() <= c.bound
}

proof fn lemma_lowered_trans(f1: DominanceFilter, f2: DominanceFilter, f3: DominanceFilter)
    requires
        lowered(f1, f2),
        lowered(f2, f3),
    ensures
        lowered(f1, f3),
{
    assert forall|x: int| 0 <= x < slot_count() && #[trigger] f1.stored(x) != 0 implies f3.stored(x)
        != 0 && f3.stored(x) <= f1.stored(x) by {
        assert(f2.stored(x) != 0);
    }
}

proof fn lemma_kept_chain(
    f0: DominanceFilter,
    f1: DominanceFilter,
    f2: DominanceFilter,
    f3: DominanceFilter,
    t: int,
)
    requires
        kept_below(f0, f1, t),
        kept_below(f1, f2, t + 1),
        kept_below(f2, f3, t + 1),
    ensures
        kept_below(f0, f3, t),
{
    assert forall|x: int| 0 <= x < slot_count() && 0 < #[trigger] f0.stored(x) <= t implies f3.stored(x)
        == f0.stored(x) by {
        assert(f1.stored(x) == f0.stored(x));
        assert(f2.stored(x) == f1.stored(x));
    }
}

// ─── What the search computes ─────────────────────────────────────────────
//
// The functions below follow the search node by node, with the filter as a
// function from slots to tick counts: which result each call gives, what the
// filter holds afterwards, how many nodes were expanded, and which inputs lead
// to the goal found.

/// The outcome of searching below one node: `None` for a goal, `Some(b)` for
/// the smallest estimate cut (`u64::MAX` when none); the filter afterwards;
/// the number of nodes expanded; the inputs from the node to the goal found.
struct Expansion {
    res: Option<int>,
    flt: spec_fn(int) -> u16,
    count: nat,
    path: Seq<u8>,
}

/// `x`, held at `u64::MAX`.
spec fn sat64(x: int) -> int {
    if x < u64::MAX {
        x
    } else {
        u64::MAX as int
    }
}

/// The cost of one step from `d` to `n`: the ticks it let pass, at least one.
spec fn step_cost(d: Seq<u8>, n: Seq<u8>, cfg: LayoutConfig) -> int {
    let delta = read_ticks(n, cfg) - read_ticks(d, cfg);
    if delta > 1 {
        delta
    } else {
        1
    }
}

/// The filter function with slot `s` set to `t`.
spec fn mark_fn(f: spec_fn(int) -> u16, s: int, t: u16) -> spec_fn(int) -> u16 {
    |x: int| if x == s { t } else { f(x) }
}

/// The filter function of an empty filter.
spec fn no_marks() -> spec_fn(int) -> u16 {
    |x: int| 0u16
}

/// The filter holds the tick counts of `f` in every slot.
spec fn agrees(flt: DominanceFilter, f: spec_fn(int) -> u16) -> bool {
    forall|x: int| 0 <= x < slot_count() ==> #[trigger] flt.stored(x) == f(x)
}

/// Searching below the node `d`, reached at cost `g`, with the filter `f`: cut
/// when the estimate exceeds the bound, a goal when the heuristic is zero,
/// pruned when the filter holds a tick count no greater than the node's;
/// otherwise the node is marked, counted, and its inputs tried in order.
spec fn expand(c: SearchCtx, d: Seq<u8>, g: int, f: spec_fn(int) -> u16) -> Expansion
    decreases
            (if g <= c.bound {
                c.bound - g + 1
            } else {
                0
            }),
            7int,
{
    let h = h_of(c, d);
    let fv = sat64(g + h);
    let sigma = slot_of(d, c.layout);
    let t = read_ticks(d, c.layout);
    if fv > c.bound {
        Expansion { res: Some(fv), flt: f, count: 0, path: Seq::empty() }
    } else if h == 0 {
        Expansion { res: None, flt: f, count: 0, path: Seq::empty() }
    } else if f(sigma) != 0 && f(sigma) <= t {
        Expansion { res: Some(u64::MAX as int), flt: f, count: 0, path: Seq::empty() }
    } else {
        expand_inputs(c, d, g, 0, mark_fn(f, sigma, t as u16), u64::MAX as int, 1)
    }
}

/// Trying the inputs `i..6` of the expanded node `d`, with the filter `f`,
/// the smallest estimate cut so far and the nodes counted so far.
spec fn expand_inputs(
    c: SearchCtx,
    d: Seq<u8>,
    g: int,
    i: int,
    f: spec_fn(int) -> u16,
    min_excess: int,
    count: nat,
) -> Expansion
    decreases
            (if g <= c.bound {
                c.bound - g + 1
            } else {
                0
            }),
            6 - i,
{
    if !(0 <= i < 6 && g <= c.bound < u64::MAX) {
        Expansion { res: Some(min_excess), flt: f, count, path: Seq::empty() }
    } else {
        match step_spec(d, i as u8, c.layout, c.world) {
            None => expand_inputs(c, d, g, i + 1, f, min_excess, count),
            Some(n) => {
                let e = expand(c, n, sat64(g + step_cost(d, n, c.layout)), f);
                match e.res {
                    None => Expansion {
                        res: None,
                        flt: e.flt,
                        count: count + e.count,
                        path: seq![i as u8] + e.path,
                    },
                    Some(b) => expand_inputs(
                        c,
                        d,
                        g,
                        i + 1,
                        e.flt,
                        if b < min_excess {
                            b
                        } else {
                            min_excess
                        },
                        count + e.count,
                    ),
                }
            },
        }
    }
}

/// The iterations from the bound `bound` on: each searches from `start` with
/// an empty filter; a goal ends the search with its path, a cut estimate
/// below `u64::MAX` becomes the next bound, anything else ends it without a
/// path.  The second component counts the nodes expanded.
spec fn iterations(
    start: Seq<u8>,
    layout: LayoutConfig,
    world: WorldConfig,
    pdb: PatternDatabase,
    bound: int,
) -> (Option<Seq<u8>>, nat)
    decreases u64::MAX - bound,
{
    let e = expand(ctx_of(start, layout, world, pdb, bound), start, 0, no_marks());
    match e.res {
        None => (Some(e.path), e.count),
        Some(b) => if bound < b < u64::MAX {
            let rest = iterations(start, layout, world, pdb, b);
            (rest.0, e.count + rest.1)
        } else {
            (None, e.count)
        },
    }
}

/// What the iterative deepening computes from `start`, its first bound being
/// the start's heuristic: the inputs of the path found, if any, and the
/// number of nodes expanded over all iterations.
pub closed spec fn ida_outcome(
    start: Seq<u8>,
    layout: LayoutConfig,
    world: WorldConfig,
    pdb: PatternDatabase,
) -> (Option<Seq<u8>>, nat) {
    iterations(start, layout, world, pdb, heuristic_of(pdb, start, layout) as int)
}

/// The search result as the node model gives it.
spec fn res_of(r: Option<u64>) -> Option<int> {
    match r {
        Some(b) => Some(b as int),
        None => None,
    }
}

/// Depth-first search below `state`, reached from `start` along `path` at
/// cost `g`.  `None`: a goal was found and `path` leads to it.  `Some(b)`:
/// no goal within `bound`, `path` is as it was, and `b` is the smallest cost
/// estimate above the bound met below (`u64::MAX` when none).  The ghost
/// result is the smallest cut estimate of the iteration so far.
fn dfs(
    state: PackedState,
    g: u64,
    bound: u64,
    layout: &LayoutConfig,
    world: &WorldConfig,
    pdb: &PatternDatabase,
    path: &mut Vec<u8>,
    filter: &mut DominanceFilter,
    nodes: &mut u64,
    Ghost(start): Ghost<Seq<u8>>,
    Ghost(stack): Ghost<Set<(int, int)>>,
    Ghost(m0): Ghost<int>,
    Ghost(fm): Ghost<spec_fn(int) -> u16>,
) -> (r: (Option<u64>, Ghost<int>))
    requires
        agrees(*old(filter), fm),
        search_ready(*layout, *world, *pdb),
        valid_state(state@, *layout, *world),
        run_spec(start, old(path)@, *layout, *world) == Some(state@),
        old(filter).wf(world.num_cells()),
        bound < u64::MAX,
        m0 <= u64::MAX,
        exact_mode(ctx_of(start, *layout, *world, *pdb, bound as int)) ==> dfs_pre(
            ctx_of(start, *layout, *world, *pdb, bound as int),
            state@,
            g as int,
            old(path)@,
            *old(filter),
            stack,
            m0,
        ),
    ensures
        ({
            let e = expand(ctx_of(start, *layout, *world, *pdb, bound as int), state@, g as int, fm);
            &&& res_of(r.0) == e.res
            &&& agrees(*final(filter), e.flt)
            &&& *final(nodes) == sat64(*old(nodes) + e.count)
            &&& r.0 is None ==> final(path)@ == old(path)@ + e.path
        }),
        final(filter).wf(world.num_cells()),
        match r.0 {
            None => reaches_goal(start, final(path)@, *layout, *world, *pdb),
            Some(b) => final(path)@ == old(path)@ && b > bound && r.1@ == min_int(m0, b as int),
        },
        r.1@ <= u64::MAX,
        *final(nodes) >= *old(nodes),
        r.0 is None ==> final(path)@.len() >= old(path)@.len() && *final(nodes) >= min_int(
            u64::MAX as int,
            *old(nodes) + final(path)@.len() - old(path)@.len(),
        ),
        exact_mode(ctx_of(start, *layout, *world, *pdb, bound as int)) ==> dfs_post(
            ctx_of(start, *layout, *world, *pdb, bound as int),
            state@,
            g as int,
            *old(filter),
            *final(filter),
            stack,
            r.0,
            r.1@,
            final(path)@,
        ),
    decreases (if g <= bound {
        bound - g + 1
    } else {
        0
    }),
{
    let ghost c = ctx_of(start, *layout, *world, *pdb, bound as int);
    let ghost f0 = *filter;
    let ghost t = read_ticks(state@, *layout);
    let ghost e0 = expand(c, state@, g as int, fm);
    let ghost sigma = slot_of(state@, *layout);
    proof {
        lemma_num_cells_bound(*world);
        lemma_slot_facts(state@, *layout, *world);
    }
    let h = pdb.get_heuristic(&state, layout) as u64;
    let f = g.saturating_add(h);
    if f > bound {
        proof {
            if exact_mode(c) {
                lemma_settled_lower_m(c, *filter, m0, min_int(m0, f as int), stack);
            }
        }
        return (Some(f), Ghost(min_int(m0, f as int)));
    }
    if h == 0 {
        return (None, Ghost(m0));
    }
    if filter.is_dominated(&state, layout, Ghost(world.num_cells())) {
        return (Some(u64::MAX), Ghost(m0));
    }
    filter.mark(&state, layout, Ghost(world.num_cells()));
    let ghost f_mark = *filter;
    let ghost mut fcur = mark_fn(fm, sigma, t as u16);
    let ghost mut cnt: nat = 1;
    let ghost inner = stack.insert((sigma, t));
    proof {
        if exact_mode(c) {
            lemma_settled_mark(c, f0, f_mark, m0, stack, sigma, t);
        }
    }
    let ghost n0: int = *nodes as int;
    *nodes = nodes.saturating_add(1);
    let mut min_excess: u64 = u64::MAX;
    let ghost mut m: int = m0;
    let mut input: u8 = 0;
    while input < INPUT_COUNT
        invariant
            search_ready(*layout, *world, *pdb),
            valid_state(state@, *layout, *world),
            run_spec(start, path@, *layout, *world) == Some(state@),
            path@ == old(path)@,
            filter.wf(world.num_cells()),
            bound < u64::MAX,
            g <= bound,
            g + h <= bound,
            h != 0,
            min_excess > bound,
            m == min_int(m0, min_excess as int),
            m0 <= u64::MAX,
            c == ctx_of(start, *layout, *world, *pdb, bound as int),
            t == read_ticks(state@, *layout),
            sigma == slot_of(state@, *layout),
            0 <= sigma < slot_count(),
            h == h_of(c, state@),
            inner == stack.insert((sigma, t)),
            f0 == *old(filter),
            n0 == *old(nodes),
            *nodes >= min_int(u64::MAX as int, n0 + 1),
            agrees(*filter, fcur),
            e0 == expand(c, state@, g as int, fm),
            e0 == expand_inputs(c, state@, g as int, input as int, fcur, min_excess as int, cnt),
            *nodes == sat64(n0 + cnt),
            cnt >= 1,
            exact_mode(c) ==> {
                &&& dfs_pre(c, state@, g as int, old(path)@, f0, stack, m0)
                &&& settled(c, *filter, m, inner)
                &&& lowered(f_mark, *filter)
                &&& kept_below(f_mark, *filter, t + 1)
                &&& lowered(f0, f_mark)
                &&& kept_below(f0, f_mark, t)
                &&& f_mark.stored(sigma) == t
                &&& forall|j: u8|
                    j < input && (#[trigger] step_spec(state@, j, *layout, *world)) is Some
                        ==> outcome_ok(c, *filter, m, t, step_spec(state@, j, *layout, *world)->0)
            },
        decreases INPUT_COUNT - input,
    {
        if let Some(next) = step(state, input, layout, world) {
            let ghost n = next@;
            proof {
                lemma_step_laws(state@, input, *layout, *world);
                lemma_run_push(start, path@, input, *layout, *world);
                lemma_slot_facts(n, *layout, *world);
            }
            let before = state.get_ticks(layout);
            let after = next.get_ticks(layout);
            let delta = after.saturating_sub(before) as u64;
            let cost = if delta > 1 {
                delta
            } else {
                1
            };
            let next_g = g.saturating_add(cost);
            let ghost path_before = path@;
            let ghost f_before = *filter;
            let ghost m_before = m;
            path.push(input);
            proof {
                if exact_mode(c) {
                    lemma_step_frame(state@, input, *layout, *world);
                    assert forall|j: int| 0 <= j < 16 && !in_step_fields(*layout, j) implies #[trigger] start[j]
                        == n[j] by {
                        assert(start[j] == state@[j]);
                        assert(state@[j] == n[j]);
                    }
                    assert(next_g == g + 1);
                    assert forall|e: (int, int)| #[trigger] inner.contains(e) implies e.1 < read_ticks(
                        n,
                        *layout,
                    ) by {
                        if e != (sigma, t) {
                            assert(stack.contains(e));
                        }
                    }
                }
            }
            let (res, Ghost(m_after)) = dfs(
                next,
                next_g,
                bound,
                layout,
                world,
                pdb,
                path,
                filter,
                nodes,
                Ghost(start),
                Ghost(inner),
                Ghost(m),
                Ghost(fcur),
            );
            match res {
                None => {
                    proof {
                        if exact_mode(c) {
                            lemma_lowered_trans(f0, f_mark, f_before);
                            lemma_lowered_trans(f0, f_before, *filter);
                            lemma_kept_chain(f0, f_mark, f_before, *filter, t);
                        }
                    }
                    return (None, Ghost(m_after));
                },
                Some(b) => {
                    if b < min_excess {
                        min_excess = b;
                    }
                    proof {
                        m = m_after;
                        let e = expand(c, n, next_g as int, fcur);
                        fcur = e.flt;
                        cnt = cnt + e.count;
                    }
                },
            }
            path.pop();
            assert(path@ =~= path_before);
            proof {
                if exact_mode(c) {
                    lemma_lowered_trans(f_mark, f_before, *filter);
                    assert(outcome_ok(c, *filter, m, t, n));
                    assert forall|j: u8|
                        j < input + 1 && (#[trigger] step_spec(state@, j, *layout, *world)) is Some
                            implies outcome_ok(
                            c,
                            *filter,
                            m,
                            t,
                            step_spec(state@, j, *layout, *world)->0,
                        ) by {
                        if j < input {
                            lemma_step_laws(state@, j, *layout, *world);
                            lemma_slot_facts(step_spec(state@, j, *layout, *world)->0, *layout, *world);
                            lemma_outcome_mono(
                                c,
                                f_before,
                                m_before,
                                *filter,
                                m,
                                t,
                                step_spec(state@, j, *layout, *world)->0,
                            );
                        }
                    }
                }
            }
        }
        input += 1;
    }
    proof {
        if exact_mode(c) {
            assert(node_settled(c, *filter, m, state@, t));
            lemma_node_to_slot(c, *filter, m, state@, t);
            lemma_settled_pop(c, *filter, m, stack, sigma, t);
            lemma_lowered_trans(f0, f_mark, *filter);
        }
    }
    (Some(min_excess), Ghost(m))
}

/// `p` is a sequence of inputs that leads from `start` to the victory cell
/// along which every step advances the tick counter by one (it ends at most
/// at `u16::MAX`).
pub open spec fn short_goal_path(start: Seq<u8>, p: Seq<u8>, layout: LayoutConfig, world: WorldConfig) -> bool {
    &&& run_spec(start, p, layout, world) is Some
    &&& read_location(run_spec(start, p, layout, world)->0, layout) == world.victory_cell
    &&& read_ticks(start, layout) + p.len() <= 65535
}

/// Walking along a path from the start through settled slots: every goal
/// path is at least as long as the smallest estimate cut.
proof fn lemma_walk(c: SearchCtx, f: DominanceFilter, b: int, p: Seq<u8>, i: int, gi: int)
    requires
        c.layout.wf(),
        c.world.wf(),
        location_fits(c.layout, c.world),
        relaxed_distances(c.world, c.pdb.distances()),
        c.pdb.num_cells() == c.world.num_cells(),
        valid_state(c.start, c.layout, c.world),
        run_spec(c.start, p, c.layout, c.world) is Some,
        read_location(run_spec(c.start, p, c.layout, c.world)->0, c.layout) == c.world.victory_cell,
        settled(c, f, b, Set::empty()),
        0 <= i <= p.len(),
        gi <= i,
        run_spec(c.start, p.subrange(0, i), c.layout, c.world) is Some,
        h_of(c, run_spec(c.start, p.subrange(0, i), c.layout, c.world)->0) != 0,
        node_settled(
            c,
            f,
            b,
            run_spec(c.start, p.subrange(0, i), c.layout, c.world)->0,
            start_ticks(c) + gi,
        ),
    ensures
        b <= p.len(),
    decreases p.len() - i,
{
    let cfg = c.layout;
    let w = c.world;
    let dist = c.pdb.distances();
    let si = run_spec(c.start, p.subrange(0, i), cfg, w)->0;
    lemma_run_distance(w, cfg, dist, c.start, p.subrange(0, i));
    if i == p.len() {
        assert(p.subrange(0, i) =~= p);
    } else {
        let q = p.subrange(0, i + 1);
        assert(q.drop_last() =~= p.subrange(0, i));
        assert(q.last() == p[i]);
        lemma_run_split(c.start, p, i + 1, cfg, w);
        let n = run_spec(c.start, q, cfg, w)->0;
        assert(step_spec(si, p[i], cfg, w) == Some(n));
        lemma_run_distance(w, cfg, dist, c.start, q);
        lemma_run_frame(c.start, q, cfg, w);
        lemma_slot_facts(n, cfg, w);
        assert(outcome_ok(c, f, b, start_ticks(c) + gi, n));
        let rest = p.subrange(i + 1, p.len() as int);
        lemma_heuristic_admissible(w, cfg, dist, n, rest);
        let fv = gi + 1 + h_of(c, n);
        if fv > c.bound && fv >= b {
        } else {
            let sigma = slot_of(n, cfg);
            let tn = f.stored(sigma) as int;
            assert(!Set::<(int, int)>::empty().contains((sigma, tn)));
            assert(slot_settled(c, f, b, sigma, tn));
            assert(node_settled(c, f, b, n, tn));
            lemma_walk(c, f, b, p, i + 1, tn - start_ticks(c));
        }
    }
}

/// Iterative-deepening A* from `start` to a state whose heuristic is zero.
///
/// Returns the inputs of the path found and the number of nodes expanded.
/// `None` when the start's heuristic is `u32::MAX` (the victory cell cannot be
/// reached even in the relaxed graph), or when an iteration meets no cost
/// estimate above its bound: every later iteration would then search the same
/// nodes again without finding a goal.
///
/// The path and the node count are those of `ida_outcome`, the count held at
/// `u64::MAX`; the count is at least the length of the path.  With the table
/// of relaxed distances of the world and a location field that holds every
/// cell, the path found is no longer than any path to the victory cell along
/// which every step advances the tick counter by one, and a path is found
/// whenever such a path exists, from any start, wall cells included.
pub fn solve(start: PackedState, layout: &LayoutConfig, world: &WorldConfig, pdb: &PatternDatabase) -> (r:
    Option<(Vec<u8>, u64)>)
    requires
        search_ready(*layout, *world, *pdb),
        valid_state(start@, *layout, *world),
    ensures
        heuristic_of(*pdb, start@, *layout) == u32::MAX ==> r is None,
        heuristic_of(*pdb, start@, *layout) == 0 ==> (r matches Some((p, n)) && p@.len() == 0 && n
            == 0),
        r matches Some((p, _)) ==> reaches_goal(start@, p@, *layout, *world, *pdb),
        r matches Some((p, _)) ==> (relaxed_distances(*world, pdb.distances()) ==> read_location(
            run_spec(start@, p@, *layout, *world)->0,
            *layout,
        ) == world.victory_cell),
        r matches Some((p, n)) ==> n >= p@.len(),
        r matches Some((q, _)) ==> (relaxed_distances(*world, pdb.distances()) && location_fits(
            *layout,
            *world,
        ) ==> forall|p: Seq<u8>|
            #[trigger] short_goal_path(start@, p, *layout, *world) ==> q@.len() <= p.len()),
        0 < heuristic_of(*pdb, start@, *layout) < u32::MAX ==> {
            let o = ida_outcome(start@, *layout, *world, *pdb);
            &&& (r is Some <==> o.0 is Some)
            &&& r matches Some((p, n)) ==> o.0 == Some(p@) && n == (if o.1 < u64::MAX {
                o.1 as int
            } else {
                u64::MAX as int
            })
        },
        relaxed_distances(*world, pdb.distances()) && location_fits(*layout, *world) ==> forall|
            p: Seq<u8>|
            #[trigger] short_goal_path(start@, p, *layout, *world) ==> r is Some,
{
    let ghost precise = relaxed_distances(*world, pdb.distances()) && location_fits(*layout, *world);
    let h = pdb.get_heuristic(&start, layout);
    proof {
        if precise {
            assert forall|p: Seq<u8>| #[trigger] short_goal_path(start@, p, *layout, *world) implies h
                <= p.len() by {
                lemma_heuristic_admissible(*world, *layout, pdb.distances(), start@, p);
            }
        }
    }
    if h == u32::MAX {
        return None;
    }
    if h == 0 {
        return Some((Vec::new(), 0));
    }
    let mut bound: u64 = h as u64;
    let mut path: Vec<u8> = Vec::with_capacity(64);
    let mut nodes_evaluated: u64 = 0;
    proof {
        lemma_num_cells_bound(*world);
    }
    let mut filter = DominanceFilter::new(world.cell_count());
    let ghost mut acc: nat = 0;
    let ghost total = iterations(start@, *layout, *world, *pdb, h as int);
    loop
        invariant
            total == iterations(start@, *layout, *world, *pdb, h as int),
            total.0 == iterations(start@, *layout, *world, *pdb, bound as int).0,
            total.1 == acc + iterations(start@, *layout, *world, *pdb, bound as int).1,
            nodes_evaluated == sat64(acc as int),
            search_ready(*layout, *world, *pdb),
            valid_state(start@, *layout, *world),
            path@.len() == 0,
            filter.wf(world.num_cells()),
            bound < u64::MAX,
            h == heuristic_of(*pdb, start@, *layout),
            0 < h < u32::MAX,
            h <= bound,
            precise == (relaxed_distances(*world, pdb.distances()) && location_fits(*layout, *world)),
            precise ==> forall|p: Seq<u8>|
                #[trigger] short_goal_path(start@, p, *layout, *world) ==> bound <= p.len(),
        decreases u64::MAX - bound,
    {
        filter.clear(Ghost(world.num_cells()));
        let ghost c = ctx_of(start@, *layout, *world, *pdb, bound as int);
        let ghost e = expand(c, start@, 0, no_marks());
        let ghost nodes_before = nodes_evaluated;
        let ghost f_start = filter;
        proof {
            assert(run_spec(start@, path@, *layout, *world) == Some(start@));
            lemma_slot_facts(start@, *layout, *world);
            if exact_mode(c) {
                assert forall|j: int| 0 <= j < 16 && !in_step_fields(*layout, j) implies #[trigger] start@[j]
                    == start@[j] by {}
                assert(!dominated(f_start, start@, *layout));
            }
        }
        let (res, Ghost(m1)) = dfs(
            start,
            0,
            bound,
            layout,
            world,
            pdb,
            &mut path,
            &mut filter,
            &mut nodes_evaluated,
            Ghost(start@),
            Ghost(Set::empty()),
            Ghost(u64::MAX as int),
            Ghost(no_marks()),
        );
        match res {
            None => {
                proof {
                    lemma_run_valid(start@, path@, *layout, *world);
                    if precise {
                        assert forall|p: Seq<u8>| #[trigger]
                            short_goal_path(start@, p, *layout, *world) implies path@.len() <= p.len() by {
                            assert(exact_mode(c));
                        }
                    }
                }
                proof {
                    assert(path@ =~= e.path);
                }
                // The path length fits a `u64`, so the count is at least it.
                let found = path.len();
                assert(nodes_evaluated >= found);
                return Some((path, nodes_evaluated));
            },
            Some(b) => {
                proof {
                    if precise {
                        assert forall|p: Seq<u8>| #[trigger]
                            short_goal_path(start@, p, *layout, *world) implies b <= p.len() by {
                            assert(exact_mode(c));
                            assert(p.subrange(0, 0) =~= Seq::<u8>::empty());
                            lemma_walk(c, filter, m1, p, 0, 0);
                        }
                    }
                }
                if b == u64::MAX {
                    return None;
                }
                proof {
                    acc = acc + e.count;
                }
                bound = b;
            },
        }
    }
}

} // verus!
