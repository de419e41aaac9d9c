//! Pattern database: a breadth-first search backwards from the victory cell
//! over a relaxed graph (doors open, switches and one-way passages ignored)
//! gives each walkable cell its distance to victory, and a wall cell gets one
//! more than its nearest walkable neighbour; lookup is `table[cell * 16 + keys]`.

use vstd::prelude::*;
use crate::state::{PackedState, LayoutConfig, read_location};
use crate::env::{
    WorldConfig, valid_state, location_fits, run_spec, lemma_step_laws, lemma_cell_coords,
    lemma_cell_at, lemma_adjacent_cases, lemma_num_cells_bound,
};

verus! {

/// One move of the relaxed graph: from `p` to a side-adjacent cell `c` that is
/// not a wall (doors open, switches and one-way passages ignored).  The
/// victory cell can also be entered from any walkable neighbour, whatever its
/// own terrain.
pub open spec fn relaxed_move(w: WorldConfig, p: int, c: int) -> bool {
    &&& w.adjacent(p, c)
    &&& (w.walkable(c) || (c == w.victory_cell as int && w.walkable(p)))
}

/// `dist` gives each cell of `w` its distance to the victory cell in the
/// relaxed graph, and `u32::MAX` where the victory cell cannot be reached:
/// the victory cell is at 0 and no other cell is; every other cell at a
/// finite distance has a move to a cell one closer; and every move into a
/// cell at a finite distance starts from a cell at most one further.  Wall
/// cells are covered too: one move off a wall leads to a walkable neighbour.
pub open spec fn relaxed_distances(w: WorldConfig, dist: Seq<u32>) -> bool {
    let n = w.num_cells();
    let v = w.victory_cell as int;
    &&& dist.len() == n
    &&& dist[v] == 0
    &&& forall|c: int| 0 <= c < n && #[trigger] dist[c] == 0 ==> c == v
    &&& forall|c: int|
        0 <= c < n && #[trigger] dist[c] != u32::MAX && c != v ==> exists|q: int|
            #[trigger] relaxed_move(w, c, q) && dist[q] != u32::MAX && dist[q] + 1 == dist[c]
    &&& forall|p: int, c: int|
        #[trigger] relaxed_move(w, p, c) && dist[c] != u32::MAX ==> dist[p] != u32::MAX && dist[p]
            <= dist[c] + 1
}

/// Distances of the backward search over walkable cells alone: as
/// `relaxed_distances`, but every cell at a finite distance other than the
/// victory cell is walkable, and only walkable cells are bound by their
/// neighbours.
spec fn walk_distances(w: WorldConfig, dist: Seq<u32>) -> bool {
    let n = w.num_cells();
    let v = w.victory_cell as int;
    &&& dist.len() == n
    &&& dist[v] == 0
    &&& forall|c: int| 0 <= c < n && #[trigger] dist[c] == 0 ==> c == v
    &&& forall|c: int|
        0 <= c < n && #[trigger] dist[c] != u32::MAX && c != v ==> {
            &&& w.walkable(c)
            &&& exists|q: int|
                #[trigger] w.adjacent(q, c) && dist[q] != u32::MAX && dist[q] + 1 == dist[c]
        }
    &&& forall|p: int, c: int|
        #[trigger] w.adjacent(p, c) && dist[c] != u32::MAX && w.walkable(p) ==> dist[p]
            != u32::MAX && dist[p] <= dist[c] + 1
    &&& forall|c: int| 0 <= c < n && #[trigger] dist[c] != u32::MAX ==> dist[c] < n
}

/// Heuristic table: one distance per (cell, keys) pair, sixteen key
/// combinations per cell, every combination of a cell holding the same value.
pub struct PatternDatabase {
    table: Vec<u32>,
    cell_count: usize,
}

impl PatternDatabase {
    /// Number of cells the table covers.
    pub closed spec fn num_cells(self) -> int {
        self.cell_count as int
    }

    /// Distance of each cell to victory, as the table holds it.
    pub closed spec fn distances(self) -> Seq<u32> {
        Seq::new(self.cell_count as nat, |c: int| self.table@[c * 16])
    }

    /// The table holds sixteen equal entries per cell.
    pub closed spec fn wf(self) -> bool {
        &&& self.table@.len() == self.cell_count * 16
        &&& self.cell_count <= 65536
        &&& forall|c: int, k: int|
            0 <= c < self.cell_count && 0 <= k < 16 ==> #[trigger] self.table@[c * 16 + k]
                == self.table@[c * 16]
    }

    /// Compute the table for a world: the relaxed distance of every cell,
    /// wall cells included, repeated for the sixteen key combinations.
    pub fn compute(_layout: &LayoutConfig, world: &WorldConfig) -> (pdb: Self)
        requires
            world.wf(),
        ensures
            pdb.wf(),
            pdb.num_cells() == world.num_cells(),
            relaxed_distances(*world, pdb.distances()),
    {
        let walk = bfs_from_victory(world);
        let dist = settle_walls(world, &walk);
        let cells = world.cell_count();
        let mut table: Vec<u32> = Vec::with_capacity(cells * 16);
        let mut cell: usize = 0;
        while cell < cells
            invariant
                cells == world.num_cells(),
                cells <= 65025,
                dist@.len() == cells,
                cell <= cells,
                table@.len() == cell * 16,
                forall|j: int| 0 <= j < table@.len() ==> #[trigger] table@[j] == dist@[j / 16],
            decreases cells - cell,
        {
            let d = dist[cell];
            let mut keys: usize = 0;
            while keys < 16
                invariant
                    cells == world.num_cells(),
                    cells <= 65025,
                    cell < cells,
                    dist@.len() == cells,
                    d == dist@[cell as int],
                    keys <= 16,
                    table@.len() == cell * 16 + keys,
                    forall|j: int| 0 <= j < table@.len() ==> #[trigger] table@[j] == dist@[j / 16],
                decreases 16 - keys,
            {
                table.push(d);
                keys += 1;
            }
            cell += 1;
        }
        let pdb = PatternDatabase { table, cell_count: cells };
        assert forall|c: int, k: int| 0 <= c < cells && 0 <= k < 16 implies #[trigger] pdb.table@[c
            * 16 + k] == pdb.table@[c * 16] by {
            assert((c * 16 + k) / 16 == c);
            assert((c * 16) / 16 == c);
        }
        assert forall|c: int| 0 <= c < cells implies pdb.distances()[c] == dist@[c] by {
            assert((c * 16) / 16 == c);
        }
        assert(pdb.distances() =~= dist@);
        pdb
    }

    /// Heuristic lookup for a state: the distance of its cell.
    pub fn get_heuristic(&self, state: &PackedState, layout: &LayoutConfig) -> (r: u32)
        requires
            self.wf(),
            layout.loc_in_bounds(),
            layout.keys_offset < 16,
            read_location(state@, *layout) < self.num_cells(),
            state@[layout.keys_offset as int] < 16,
        ensures
            r == self.distances()[read_location(state@, *layout)],
    {
        let cell = state.get_location(layout) as usize;
        let keys = state.get_keys(layout) as usize;
        assert(self.table@[cell * 16 + keys] == self.table@[cell * 16]);
        self.table[cell * 16 + keys]
    }

    /// Number of cells the table covers.
    pub fn cell_count(&self) -> (r: usize)
        ensures
            r == self.num_cells(),
    {
        self.cell_count
    }
}

/// Along any run, the relaxed distance drops by at most one per input.
pub proof fn lemma_run_distance(
    w: WorldConfig,
    cfg: LayoutConfig,
    dist: Seq<u32>,
    d: Seq<u8>,
    path: Seq<u8>,
)
    requires
        cfg.wf(),
        w.wf(),
        location_fits(cfg, w),
        relaxed_distances(w, dist),
        valid_state(d, cfg, w),
        run_spec(d, path, cfg, w) is Some,
    ensures
        ({
            let e = run_spec(d, path, cfg, w)->0;
            &&& valid_state(e, cfg, w)
            &&& dist[read_location(d, cfg)] <= path.len() + dist[read_location(e, cfg)]
        }),
    decreases path.len(),
{
    if path.len() > 0 {
        let prefix = path.drop_last();
        let x = run_spec(d, prefix, cfg, w)->0;
        lemma_run_distance(w, cfg, dist, d, prefix);
        lemma_step_laws(x, path.last(), cfg, w);
        let e = run_spec(d, path, cfg, w)->0;
        let a = read_location(x, cfg);
        let b = read_location(e, cfg);
        if a != b && dist[b] != u32::MAX {
            assert(relaxed_move(w, a, b));
            assert(dist[a] <= dist[b] + 1);
        }
    }
}

/// The heuristic is admissible: from any valid state, under a well-formed
/// layout whose location field can hold every cell, every sequence of inputs
/// that ends on the victory cell is at least as long as the relaxed distance
/// of the starting cell.
pub proof fn lemma_heuristic_admissible(
    w: WorldConfig,
    cfg: LayoutConfig,
    dist: Seq<u32>,
    d: Seq<u8>,
    path: Seq<u8>,
)
    requires
        cfg.wf(),
        w.wf(),
        location_fits(cfg, w),
        relaxed_distances(w, dist),
        valid_state(d, cfg, w),
        run_spec(d, path, cfg, w) is Some,
        read_location(run_spec(d, path, cfg, w)->0, cfg) == w.victory_cell,
    ensures
        dist[read_location(d, cfg)] <= path.len(),
{
    lemma_run_distance(w, cfg, dist, d, path);
}

proof fn lemma_relaxed_le(w: WorldConfig, d1: Seq<u32>, d2: Seq<u32>, c: int)
    requires
        w.wf(),
        relaxed_distances(w, d1),
        relaxed_distances(w, d2),
        0 <= c < w.num_cells(),
        d2[c] != u32::MAX,
    ensures
        d1[c] != u32::MAX,
        d1[c] <= d2[c],
    decreases d2[c],
{
    if c != w.victory_cell as int {
        let q = choose|q: int|
            #[trigger] relaxed_move(w, c, q) && d2[q] != u32::MAX && d2[q] + 1 == d2[c];
        lemma_relaxed_le(w, d1, d2, q);
    }
}

/// A world has one table of relaxed distances: any two tables that meet
/// `relaxed_distances` are equal.
pub proof fn lemma_relaxed_distances_unique(w: WorldConfig, d1: Seq<u32>, d2: Seq<u32>)
    requires
        w.wf(),
        relaxed_distances(w, d1),
        relaxed_distances(w, d2),
    ensures
        d1 == d2,
{
    assert forall|c: int| 0 <= c < d1.len() implies d1[c] == d2[c] by {
        if d2[c] != u32::MAX {
            lemma_relaxed_le(w, d1, d2, c);
            lemma_relaxed_le(w, d2, d1, c);
        } else if d1[c] != u32::MAX {
            lemma_relaxed_le(w, d2, d1, c);
        }
    }
    assert(d1 =~= d2);
}

// ─── Breadth-first search ───────────────────────────────────────────────────

/// Shape of the search state: one distance per cell, distinct queued cells on
/// the grid, and the head inside the queue.
spec fn bfs_shape(w: WorldConfig, dist: Seq<u32>, queue: Seq<usize>, head: int) -> bool {
    &&& w.num_cells() <= 65025
    &&& dist.len() == w.num_cells()
    &&& 0 <= head <= queue.len()
    &&& forall|i: int| 0 <= i < queue.len() ==> #[trigger] queue[i] < w.num_cells()
    &&& queue.no_duplicates()
}

/// Exactly the queued cells have a finite distance.
#[verifier::opaque]
spec fn bfs_found(w: WorldConfig, dist: Seq<u32>, queue: Seq<usize>) -> bool {
    forall|x: int|
        0 <= x < w.num_cells() ==> (#[trigger] dist[x] != u32::MAX <==> queue.contains(x as usize))
}

/// The victory cell is at 0; every other cell at a finite distance is
/// walkable and has a neighbour one closer.
#[verifier::opaque]
spec fn bfs_descent(w: WorldConfig, dist: Seq<u32>) -> bool {
    &&& dist[w.victory_cell as int] == 0
    &&& forall|c: int|
        0 <= c < w.num_cells() && #[trigger] dist[c] != u32::MAX && c != w.victory_cell as int
            ==> {
            &&& dist[c] >= 1
            &&& w.walkable(c)
            &&& exists|q: int|
                #[trigger] w.adjacent(q, c) && dist[q] != u32::MAX && dist[q] + 1 == dist[c]
        }
}

/// Queued distances never decrease, the `j`-th is at most `j`, and the last
/// is at most one more than the head's.
#[verifier::opaque]
spec fn bfs_order(dist: Seq<u32>, queue: Seq<usize>, head: int) -> bool {
    &&& forall|i: int, j: int|
        0 <= i <= j < queue.len() ==> dist[#[trigger] queue[i] as int] <= dist[#[trigger] queue[j] as int]
    &&& forall|j: int| 0 <= j < queue.len() ==> dist[#[trigger] queue[j] as int] <= j
    &&& head < queue.len() ==> dist[queue[queue.len() - 1] as int] <= dist[queue[head] as int] + 1
}

/// Every walkable neighbour of a cell before the head has a finite distance
/// at most one more than that cell's.
#[verifier::opaque]
spec fn bfs_done(w: WorldConfig, dist: Seq<u32>, queue: Seq<usize>, head: int) -> bool {
    forall|i: int, p: int|
        0 <= i < head && #[trigger] w.adjacent(p, #[trigger] queue[i] as int) && w.walkable(p)
            ==> dist[p] != u32::MAX && dist[p] <= dist[queue[i] as int] + 1
}

/// The state of the backward search: `dist` holds the distances found,
/// `queue` every cell found, in order, and the cells before `head` have had
/// their neighbours examined.
spec fn bfs_inv(w: WorldConfig, dist: Seq<u32>, queue: Seq<usize>, head: int) -> bool {
    &&& bfs_shape(w, dist, queue, head)
    &&& bfs_found(w, dist, queue)
    &&& bfs_descent(w, dist)
    &&& bfs_order(dist, queue, head)
    &&& bfs_done(w, dist, queue, head)
}

/// A sequence of distinct cell indices below `n` has at most `n` entries.
proof fn lemma_distinct_cells_bounded(q: Seq<usize>, n: int)
    requires
        n >= 0,
        q.no_duplicates(),
        forall|i: int| 0 <= i < q.len() ==> #[trigger] q[i] < n,
    ensures
        q.len() <= n,
{
    let f = |x: usize| x as int;
    assert(vstd::relations::injective(f));
    q.lemma_no_duplicates_injective(f);
    let qi = q.map_values(f);
    qi.unique_seq_to_set();
    let r = vstd::set_lib::set_int_range(0, n);
    vstd::set_lib::lemma_int_range(0, n);
    assert forall|x: int| qi.to_set().contains(x) implies r.contains(x) by {
        let i = choose|i: int| 0 <= i < qi.len() && qi[i] == x;
        assert(q[i] < n);
    }
    vstd::set_lib::lemma_len_subset(qi.to_set(), r);
}

proof fn lemma_push_found(w: WorldConfig, d0: Seq<u32>, q0: Seq<usize>, p: usize, v: u32)
    requires
        bfs_found(w, d0, q0),
        d0.len() == w.num_cells(),
        w.num_cells() <= 65025,
        p < w.num_cells(),
        v != u32::MAX,
    ensures
        bfs_found(w, d0.update(p as int, v), q0.push(p)),
{
    reveal(bfs_found);
    let d1 = d0.update(p as int, v);
    let q1 = q0.push(p);
    assert forall|x: int| 0 <= x < w.num_cells() implies (#[trigger] d1[x] != u32::MAX
        <==> q1.contains(x as usize)) by {
        if x == p as int {
            assert(q1[q0.len() as int] == p);
        } else {
            if q1.contains(x as usize) {
                let i = choose|i: int| 0 <= i < q1.len() && q1[i] == x as usize;
                assert(i < q0.len());
                assert(q0[i] == x as usize);
            }
            if d0[x] != u32::MAX {
                assert(q0.contains(x as usize));
                let i = choose|i: int| 0 <= i < q0.len() && q0[i] == x as usize;
                assert(q1[i] == x as usize);
            }
        }
    }
}

proof fn lemma_push_descent(w: WorldConfig, d0: Seq<u32>, c: usize, p: usize)
    requires
        w.wf(),
        bfs_descent(w, d0),
        d0.len() == w.num_cells(),
        w.adjacent(p as int, c as int),
        w.walkable(p as int),
        d0[p as int] == u32::MAX,
        d0[c as int] != u32::MAX,
        d0[c as int] + 1 < u32::MAX,
    ensures
        bfs_descent(w, d0.update(p as int, (d0[c as int] + 1) as u32)),
{
    reveal(bfs_descent);
    let n = w.num_cells();
    let d1 = d0.update(p as int, (d0[c as int] + 1) as u32);
    assert forall|x: int|
        0 <= x < n && #[trigger] d1[x] != u32::MAX && x != w.victory_cell as int implies {
        &&& d1[x] >= 1
        &&& w.walkable(x)
        &&& exists|q: int| #[trigger] w.adjacent(q, x) && d1[q] != u32::MAX && d1[q] + 1 == d1[x]
    } by {
        if x == p as int {
            assert(w.adjacent(c as int, x)) by {
                lemma_cell_coords(w, c as int);
                lemma_cell_coords(w, p as int);
            }
        } else {
            let q = choose|q: int| #[trigger] w.adjacent(q, x) && d0[q] != u32::MAX && d0[q] + 1
                == d0[x];
            assert(d1[q] == d0[q]);
        }
    }
}

proof fn lemma_push_order(d0: Seq<u32>, q0: Seq<usize>, head: int, p: usize)
    requires
        bfs_order(d0, q0, head),
        0 <= head < q0.len(),
        forall|i: int| 0 <= i < q0.len() ==> #[trigger] q0[i] != p && q0[i] < d0.len(),
        0 <= p < d0.len(),
        d0[q0[head] as int] + 1 < u32::MAX,
    ensures
        bfs_order(d0.update(p as int, (d0[q0[head] as int] + 1) as u32), q0.push(p), head),
{
    reveal(bfs_order);
    let d1 = d0.update(p as int, (d0[q0[head] as int] + 1) as u32);
    let q1 = q0.push(p);
    assert forall|i: int, j: int| 0 <= i <= j < q1.len() implies d1[#[trigger] q1[i] as int]
        <= d1[#[trigger] q1[j] as int] by {
        if j == q0.len() {
            if i < q0.len() {
                assert(d0[q0[i] as int] <= d0[q0[q0.len() - 1] as int]);
                assert(d1[q0[i] as int] == d0[q0[i] as int]);
            }
        } else {
            assert(d1[q0[i] as int] == d0[q0[i] as int]);
            assert(d1[q0[j] as int] == d0[q0[j] as int]);
        }
    }
    assert forall|j: int| 0 <= j < q1.len() implies d1[#[trigger] q1[j] as int] <= j by {
        if j < q0.len() {
            assert(d1[q0[j] as int] == d0[q0[j] as int]);
        } else {
            assert(d0[q0[head] as int] <= head);
        }
    }
    assert(d1[q0[head] as int] == d0[q0[head] as int]);
}

proof fn lemma_push_done(w: WorldConfig, d0: Seq<u32>, q0: Seq<usize>, head: int, p: usize, v: u32)
    requires
        bfs_done(w, d0, q0, head),
        0 <= head <= q0.len(),
        forall|i: int| 0 <= i < q0.len() ==> #[trigger] q0[i] != p && q0[i] < d0.len(),
        d0[p as int] == u32::MAX,
        0 <= p < d0.len(),
        d0.len() == w.num_cells(),
    ensures
        bfs_done(w, d0.update(p as int, v), q0.push(p), head),
{
    reveal(bfs_done);
    let d1 = d0.update(p as int, v);
    let q1 = q0.push(p);
    assert forall|i: int, x: int|
        0 <= i < head && #[trigger] w.adjacent(x, #[trigger] q1[i] as int) && w.walkable(x) implies d1[x]
        != u32::MAX && d1[x] <= d1[q1[i] as int] + 1 by {
        assert(q1[i] == q0[i]);
        assert(w.adjacent(x, q0[i] as int));
        assert(q0[i] != p);
    }
}

/// Giving a walkable, not yet found neighbour `p` of the head cell `c` the
/// distance of `c` plus one and appending it to the queue keeps the search state.
proof fn lemma_bfs_push(w: WorldConfig, d0: Seq<u32>, q0: Seq<usize>, head: int, c: usize, p: usize)
    requires
        w.wf(),
        bfs_inv(w, d0, q0, head),
        head < q0.len(),
        c == q0[head],
        w.adjacent(p as int, c as int),
        w.walkable(p as int),
        d0[p as int] == u32::MAX,
        d0[c as int] + 1 < u32::MAX,
    ensures
        bfs_inv(w, d0.update(p as int, (d0[c as int] + 1) as u32), q0.push(p), head),
{
    let v = (d0[c as int] + 1) as u32;
    assert(!q0.contains(p) && d0[c as int] != u32::MAX) by {
        reveal(bfs_found);
        assert(q0.contains(c));
    }
    assert forall|i: int| 0 <= i < q0.len() implies #[trigger] q0[i] != p && q0[i] < d0.len() by {
        assert(q0.contains(q0[i]));
    }
    lemma_push_found(w, d0, q0, p, v);
    lemma_push_descent(w, d0, c, p);
    lemma_push_order(d0, q0, head, p);
    lemma_push_done(w, d0, q0, head, p, v);
    let q1 = q0.push(p);
    assert(q1.no_duplicates()) by {
        assert forall|i: int, j: int| 0 <= i < j < q1.len() implies q1[i] != q1[j] by {
            if j == q0.len() {
                assert(q1[i] == q0[i]);
            }
        }
    }
}

/// Examine the neighbour `p` of the cell `c` at the head of the queue: a
/// walkable neighbour not found yet gets the distance of `c` plus one and joins
/// the queue.
fn relax(
    world: &WorldConfig,
    dist: &mut Vec<u32>,
    queue: &mut Vec<usize>,
    Ghost(head): Ghost<int>,
    c: usize,
    p: usize,
)
    requires
        world.wf(),
        bfs_inv(*world, old(dist)@, old(queue)@, head),
        head < old(queue)@.len(),
        c == old(queue)@[head],
        world.adjacent(p as int, c as int),
    ensures
        bfs_inv(*world, final(dist)@, final(queue)@, head),
        final(queue)@.len() >= old(queue)@.len(),
        final(queue)@.subrange(0, old(queue)@.len() as int) == old(queue)@,
        forall|x: int|
            0 <= x < old(dist)@.len() && old(dist)@[x] != u32::MAX ==> #[trigger] final(dist)@[x]
                == old(dist)@[x],
        world.walkable(p as int) ==> final(dist)@[p as int] != u32::MAX && final(dist)@[p as int]
            <= final(dist)@[c as int] + 1,
{
    let ghost n = world.num_cells();
    let ghost q0 = queue@;
    let ghost d0 = dist@;
    proof {
        lemma_num_cells_bound(*world);
        reveal(bfs_found);
        reveal(bfs_order);
        assert(q0.contains(c));
    }
    let t = world.terrain_at(p as u16);
    if !world.rule(t).walkable {
        return;
    }
    if dist[p] != u32::MAX {
        // `p` is in the queue, so its distance is at most that of the last
        // queued cell, which is at most one more than that of `c`.
        proof {
            assert(q0.contains(p));
            let j = choose|j: int| 0 <= j < q0.len() && q0[j] == p;
            assert(d0[q0[j] as int] <= d0[q0[q0.len() - 1] as int]);
        }
        return;
    }
    proof {
        assert(d0[q0[head] as int] <= head);
        lemma_distinct_cells_bounded(q0, n);
        lemma_bfs_push(*world, d0, q0, head, c, p);
    }
    let d = dist[c];
    dist.set(p, d + 1);
    queue.push(p);
    assert(queue@.subrange(0, q0.len() as int) =~= q0);
}

/// The search state right after the victory cell is queued.
proof fn lemma_bfs_start(w: WorldConfig, dist: Seq<u32>, queue: Seq<usize>)
    requires
        w.wf(),
        dist.len() == w.num_cells(),
        forall|x: int| 0 <= x < dist.len() && x != w.victory_cell as int ==> dist[x] == u32::MAX,
        dist[w.victory_cell as int] == 0,
        queue == seq![w.victory_cell as usize],
    ensures
        bfs_inv(w, dist, queue, 0),
{
    reveal(bfs_found);
    reveal(bfs_descent);
    reveal(bfs_order);
    reveal(bfs_done);
    lemma_num_cells_bound(w);
    assert forall|x: int| 0 <= x < w.num_cells() implies (#[trigger] dist[x] != u32::MAX
        <==> queue.contains(x as usize)) by {
        if x == w.victory_cell as int {
            assert(queue[0] == x as usize);
        }
    }
}

/// Once every walkable neighbour of the head cell has a finite distance at
/// most one more than the head's, the head can move on.
proof fn lemma_bfs_advance(w: WorldConfig, dist: Seq<u32>, queue: Seq<usize>, head: int)
    requires
        bfs_inv(w, dist, queue, head),
        head < queue.len(),
        forall|p: int|
            #[trigger] w.adjacent(p, queue[head] as int) && w.walkable(p) ==> dist[p] != u32::MAX
                && dist[p] <= dist[queue[head] as int] + 1,
    ensures
        bfs_inv(w, dist, queue, head + 1),
{
    reveal(bfs_order);
    reveal(bfs_done);
    if head + 1 < queue.len() {
        assert(dist[queue[head] as int] <= dist[queue[head + 1] as int]);
    }
    assert forall|i: int, p: int|
        0 <= i < head + 1 && #[trigger] w.adjacent(p, #[trigger] queue[i] as int) && w.walkable(p)
            implies dist[p] != u32::MAX && dist[p] <= dist[queue[i] as int] + 1 by {
        if i == head {
        }
    }
}

/// When the queue is exhausted, the distances are those of the walkable cells.
proof fn lemma_bfs_finish(w: WorldConfig, dist: Seq<u32>, queue: Seq<usize>)
    requires
        w.wf(),
        bfs_inv(w, dist, queue, queue.len() as int),
    ensures
        walk_distances(w, dist),
{
    assert forall|c: int| 0 <= c < w.num_cells() && #[trigger] dist[c] != u32::MAX implies dist[c]
        < w.num_cells() by {
        reveal(bfs_found);
        reveal(bfs_order);
        lemma_distinct_cells_bounded(queue, w.num_cells());
        assert(queue.contains(c as usize));
        let i = choose|i: int| 0 <= i < queue.len() && queue[i] == c as usize;
        assert(dist[queue[i] as int] <= i);
    }
    assert forall|p: int, c: int|
        #[trigger] w.adjacent(p, c) && dist[c] != u32::MAX && w.walkable(p) implies dist[p]
        != u32::MAX && dist[p] <= dist[c] + 1 by {
        reveal(bfs_found);
        reveal(bfs_done);
        assert(queue.contains(c as usize));
        let i = choose|i: int| 0 <= i < queue.len() && queue[i] == c as usize;
        assert(w.adjacent(p, queue[i] as int));
    }
    assert(dist[w.victory_cell as int] == 0 && forall|c: int|
        0 <= c < w.num_cells() && #[trigger] dist[c] != u32::MAX && c != w.victory_cell as int
            ==> {
            &&& dist[c] >= 1
            &&& w.walkable(c)
            &&& exists|q: int|
                #[trigger] w.adjacent(q, c) && dist[q] != u32::MAX && dist[q] + 1 == dist[c]
        }) by {
        reveal(bfs_descent);
    }
    assert forall|c: int| 0 <= c < w.num_cells() && #[trigger] dist[c] == 0 implies c
        == w.victory_cell as int by {
        if c != w.victory_cell as int {
            assert(dist[c] != u32::MAX);
        }
    }
}

/// The backward breadth-first search from the victory cell.
fn bfs_from_victory(world: &WorldConfig) -> (dist: Vec<u32>)
    requires
        world.wf(),
    ensures
        walk_distances(*world, dist@),
{
    let cells = world.cell_count();
    let mut dist: Vec<u32> = Vec::with_capacity(cells);
    let mut i: usize = 0;
    while i < cells
        invariant
            i <= cells,
            dist@.len() == i,
            forall|j: int| 0 <= j < i ==> #[trigger] dist@[j] == u32::MAX,
        decreases cells - i,
    {
        dist.push(u32::MAX);
        i += 1;
    }
    let victory = world.victory_cell as usize;
    let mut queue: Vec<usize> = Vec::with_capacity(cells);
    dist.set(victory, 0);
    queue.push(victory);
    let mut head: usize = 0;
    proof {
        assert(queue@ =~= seq![victory]);
        lemma_bfs_start(*world, dist@, queue@);
    }
    while head < queue.len()
        invariant
            world.wf(),
            cells == world.num_cells(),
            cells <= 65025,
            bfs_inv(*world, dist@, queue@, head as int),
        decreases cells - head,
    {
        proof {
            lemma_distinct_cells_bounded(queue@, cells as int);
            assert(queue@[head as int] < cells);
        }
        let c = queue[head];
        let ghost q0 = queue@;
        proof {
            lemma_cell_coords(*world, c as int);
            reveal(bfs_found);
            assert(q0.contains(c));
        }
        let (row, col) = world.coords(c as u16);
        let ghost d0 = dist@;
        if col + 1 < world.width {
            proof {
                lemma_cell_at(*world, row as int, col as int + 1);
            }
            let p = world.idx(row, col + 1) as usize;
            proof {
                lemma_cell_coords(*world, p as int);
            }
            relax(world, &mut dist, &mut queue, Ghost(head as int), c, p);
        }
        let ghost d1 = dist@;
        if col > 0 {
            proof {
                lemma_cell_at(*world, row as int, col as int - 1);
            }
            let p = world.idx(row, col - 1) as usize;
            proof {
                lemma_cell_coords(*world, p as int);
            }
            relax(world, &mut dist, &mut queue, Ghost(head as int), c, p);
        }
        let ghost d2 = dist@;
        if row + 1 < world.height {
            proof {
                lemma_cell_at(*world, row as int + 1, col as int);
            }
            let p = world.idx(row + 1, col) as usize;
            proof {
                lemma_cell_coords(*world, p as int);
            }
            relax(world, &mut dist, &mut queue, Ghost(head as int), c, p);
        }
        let ghost d3 = dist@;
        if row > 0 {
            proof {
                lemma_cell_at(*world, row as int - 1, col as int);
            }
            let p = world.idx(row - 1, col) as usize;
            proof {
                lemma_cell_coords(*world, p as int);
            }
            relax(world, &mut dist, &mut queue, Ghost(head as int), c, p);
        }
        proof {
            let d = dist@;
            let h = head as int;
            assert(queue@[h] == c);
            assert forall|p: int| #[trigger]
                world.adjacent(p, queue@[h] as int) && world.walkable(p) implies d[p] != u32::MAX
                && d[p] <= d[c as int] + 1 by {
                lemma_adjacent_cases(*world, p, c as int);
            }
            lemma_bfs_advance(*world, d, queue@, h);
        }
        head += 1;
    }
    proof {
        lemma_bfs_finish(*world, dist@, queue@);
    }
    dist
}

// ─── Wall cells ─────────────────────────────────────────────────────────────

/// `val` is one more than the least distance among the walkable neighbours
/// of `c` that have a finite one, or `u32::MAX` when none has.
spec fn wall_value(w: WorldConfig, walk: Seq<u32>, c: int, val: u32) -> bool {
    &&& reach_value(w, walk, c, val)
    &&& forall|q: int|
        #[trigger] w.adjacent(c, q) && w.walkable(q) && walk[q] != u32::MAX ==> val != u32::MAX
            && val <= walk[q] + 1
}

/// `val` is `u32::MAX` or one more than the distance of a walkable
/// neighbour of `c`.
spec fn reach_value(w: WorldConfig, walk: Seq<u32>, c: int, val: u32) -> bool {
    val == u32::MAX || exists|q: int|
        #[trigger] w.adjacent(c, q) && w.walkable(q) && walk[q] != u32::MAX && val == walk[q] + 1
}

/// The settled distance of `c`: its walking distance when it is walkable or
/// the victory cell, its wall value otherwise.
spec fn settled_value(w: WorldConfig, walk: Seq<u32>, c: int, val: u32) -> bool {
    if w.walkable(c) || c == w.victory_cell as int {
        val == walk[c]
    } else {
        wall_value(w, walk, c, val)
    }
}

/// Settling every cell of the walking distances gives the relaxed distances.
proof fn lemma_settled_relaxed(w: WorldConfig, walk: Seq<u32>, dist: Seq<u32>)
    requires
        w.wf(),
        walk_distances(w, walk),
        dist.len() == w.num_cells(),
        forall|c: int| 0 <= c < w.num_cells() ==> settled_value(w, walk, c, #[trigger] dist[c]),
    ensures
        relaxed_distances(w, dist),
{
    let n = w.num_cells();
    let v = w.victory_cell as int;
    assert(settled_value(w, walk, v, dist[v]));
    assert forall|c: int| 0 <= c < n && #[trigger] dist[c] == 0 implies c == v by {
        assert(settled_value(w, walk, c, dist[c]));
        if !(w.walkable(c) || c == v) {
            let q = choose|q: int|
                #[trigger] w.adjacent(c, q) && w.walkable(q) && walk[q] != u32::MAX && dist[c]
                    == walk[q] + 1;
        }
    }
    assert forall|c: int| 0 <= c < n && #[trigger] dist[c] != u32::MAX && c != v implies exists|q: int|
        #[trigger] relaxed_move(w, c, q) && dist[q] != u32::MAX && dist[q] + 1 == dist[c] by {
        assert(settled_value(w, walk, c, dist[c]));
        if w.walkable(c) {
            assert(walk[c] != u32::MAX);
            let q = choose|q: int|
                #[trigger] w.adjacent(q, c) && walk[q] != u32::MAX && walk[q] + 1 == walk[c];
            if q != v {
                assert(walk[q] != u32::MAX);
                assert(w.walkable(q));
            }
            assert(settled_value(w, walk, q, dist[q]));
            assert(w.adjacent(c, q));
            assert(relaxed_move(w, c, q));
        } else {
            let q = choose|q: int|
                #[trigger] w.adjacent(c, q) && w.walkable(q) && walk[q] != u32::MAX && dist[c]
                    == walk[q] + 1;
            assert(settled_value(w, walk, q, dist[q]));
            assert(relaxed_move(w, c, q));
        }
    }
    assert forall|p: int, c: int| #[trigger]
        relaxed_move(w, p, c) && dist[c] != u32::MAX implies dist[p] != u32::MAX && dist[p] <= dist[c]
        + 1 by {
        assert(settled_value(w, walk, c, dist[c]));
        assert(settled_value(w, walk, p, dist[p]));
        if w.walkable(p) {
            assert(w.adjacent(p, c) && walk[c] != u32::MAX);
        } else if p != v {
            assert(w.adjacent(p, c) && w.walkable(c) && walk[c] != u32::MAX);
        }
    }
}

/// Offer the neighbour `q` to the running best of a wall cell: when `q` is
/// walkable at a finite distance and one more than that distance is below
/// `best`, it is the new best.
fn improve(world: &WorldConfig, walk: &Vec<u32>, best: u32, q: usize) -> (r: u32)
    requires
        world.wf(),
        walk_distances(*world, walk@),
        q < world.num_cells(),
    ensures
        r == (if world.walkable(q as int) && walk@[q as int] != u32::MAX && walk@[q as int] + 1
            < best {
            (walk@[q as int] + 1) as u32
        } else {
            best
        }),
{
    proof {
        lemma_num_cells_bound(*world);
    }
    let t = world.terrain_at(q as u16);
    let d = walk[q];
    if world.rule(t).walkable && d != u32::MAX && d + 1 < best {
        d + 1
    } else {
        best
    }
}

/// What offering a neighbour keeps of the running best.
proof fn lemma_improve(w: WorldConfig, walk: Seq<u32>, c: int, best: u32, q: int, r: u32)
    requires
        reach_value(w, walk, c, best),
        w.adjacent(c, q),
        walk[q] != u32::MAX ==> walk[q] < 65025,
        r == (if w.walkable(q) && walk[q] != u32::MAX && walk[q] + 1 < best {
            (walk[q] + 1) as u32
        } else {
            best
        }),
    ensures
        reach_value(w, walk, c, r),
        r <= best,
        w.walkable(q) && walk[q] != u32::MAX ==> r != u32::MAX && r <= walk[q] + 1,
{
}

/// The wall value of `c`, from its four possible neighbours.
fn wall_distance(world: &WorldConfig, walk: &Vec<u32>, c: usize) -> (r: u32)
    requires
        world.wf(),
        walk_distances(*world, walk@),
        c < world.num_cells(),
    ensures
        wall_value(*world, walk@, c as int, r),
{
    proof {
        lemma_num_cells_bound(*world);
        lemma_cell_coords(*world, c as int);
    }
    let ghost w = *world;
    let ghost ci = c as int;
    let (row, col) = world.coords(c as u16);
    let mut best = u32::MAX;
    let ghost b0 = best;
    if col + 1 < world.width {
        proof {
            lemma_cell_at(*world, row as int, col as int + 1);
        }
        let q = world.idx(row, col + 1) as usize;
        proof {
            lemma_cell_coords(*world, q as int);
        }
        best = improve(world, walk, best, q);
        proof {
            lemma_improve(w, walk@, ci, b0, q as int, best);
        }
    }
    let ghost b1 = best;
    if col > 0 {
        proof {
            lemma_cell_at(*world, row as int, col as int - 1);
        }
        let q = world.idx(row, col - 1) as usize;
        proof {
            lemma_cell_coords(*world, q as int);
        }
        best = improve(world, walk, best, q);
        proof {
            lemma_improve(w, walk@, ci, b1, q as int, best);
        }
    }
    let ghost b2 = best;
    if row + 1 < world.height {
        proof {
            lemma_cell_at(*world, row as int + 1, col as int);
        }
        let q = world.idx(row + 1, col) as usize;
        proof {
            lemma_cell_coords(*world, q as int);
        }
        best = improve(world, walk, best, q);
        proof {
            lemma_improve(w, walk@, ci, b2, q as int, best);
        }
    }
    let ghost b3 = best;
    if row > 0 {
        proof {
            lemma_cell_at(*world, row as int - 1, col as int);
        }
        let q = world.idx(row - 1, col) as usize;
        proof {
            lemma_cell_coords(*world, q as int);
        }
        best = improve(world, walk, best, q);
        proof {
            lemma_improve(w, walk@, ci, b3, q as int, best);
        }
    }
    proof {
        assert forall|q: int| #[trigger]
            w.adjacent(ci, q) && w.walkable(q) && walk@[q] != u32::MAX implies best != u32::MAX
            && best <= walk@[q] + 1 by {
            lemma_adjacent_cases(w, q, ci);
        }
    }
    best
}

/// The relaxed distances from the walking distances: each wall cell other
/// than the victory cell gets its wall value, every other cell keeps its
/// distance.
fn settle_walls(world: &WorldConfig, walk: &Vec<u32>) -> (dist: Vec<u32>)
    requires
        world.wf(),
        walk_distances(*world, walk@),
    ensures
        relaxed_distances(*world, dist@),
{
    let cells = world.cell_count();
    let victory = world.victory_cell as usize;
    let mut dist: Vec<u32> = Vec::with_capacity(cells);
    let mut c: usize = 0;
    while c < cells
        invariant
            world.wf(),
            walk_distances(*world, walk@),
            cells == world.num_cells(),
            cells <= 65025,
            victory == world.victory_cell,
            c <= cells,
            dist@.len() == c,
            forall|j: int| 0 <= j < c ==> settled_value(*world, walk@, j, #[trigger] dist@[j]),
        decreases cells - c,
    {
        let t = world.terrain_at(c as u16);
        let val = if world.rule(t).walkable || c == victory {
            walk[c]
        } else {
            wall_distance(world, walk, c)
        };
        let ghost d0 = dist@;
        dist.push(val);
        proof {
            assert forall|j: int| 0 <= j < c + 1 implies settled_value(
                *world,
                walk@,
                j,
                #[trigger] dist@[j],
            ) by {
                if j < c {
                    assert(dist@[j] == d0[j]);
                }
            }
        }
        c += 1;
    }
    proof {
        lemma_settled_relaxed(*world, walk@, dist@);
    }
    dist
}

} // verus!
