# tas_engine

A deterministic state-space pathfinding engine for tool-assisted runs through
a grid world, written in Verus.  The library under `src/` is verified; the
program under `app/` (benchmarks, timing loops, floating-point helpers, file
output) is ordinary Rust around it.

## Layout

| Module | Contents |
|--------|----------|
| `state` | `PackedState` (sixteen bytes) and `LayoutConfig`; every getter and setter is specified over the byte sequence, with round-trip and field-independence facts |
| `env` | `WorldConfig`, the built-in mazes, `Input`, `Terrain` and the transition function `step`, specified by `step_spec`; laws about accepted inputs and runs |
| `pdb` | `PatternDatabase`: a backward breadth-first search giving the relaxed distance of every walkable cell, and of every wall cell through its nearest walkable neighbour; the table is proved to be the unique table of relaxed distances, and admissible from every state |
| `search` | IDA* with a dominance filter (flat array or `FxHashMap`); its path and node count are those of a node-by-node model of the search, a path found reaches the goal, and within the range where tick counts do not saturate it is a shortest one |
| `driver` | Input scheduling, the `.tas` byte image, and the decisions and statistics of the live injection loop |
| `io_layer` | `StateProvider` / `InputInjector`, the internal simulator and the outline of an external process hook |
| `grid` | Clamping and flattening integer coordinates of a uniform 3D grid, and splitting a cell index back |

## Running

`cargo test` runs the tests under `tests/`; `app/main.rs` is the dashboard.
