//! A deterministic state-space pathfinding engine: a byte-packed game state,
//! a grid world with keys, doors, switches and one-way passages, a pattern
//! database heuristic, an IDA* solver and an input scheduler.

pub mod state;
pub mod env;
pub mod pdb;
pub mod search;
pub mod driver;
pub mod io_layer;
pub mod grid;
