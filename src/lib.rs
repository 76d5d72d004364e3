//! A* shortest paths on a fixed 4-connected grid of cells, some of them walls.
//!
//! - `grid`: the grid, positions, walks.
//! - `node`: frontier entries and their priority order; the Manhattan heuristic.
//! - `machine`: the search as a mathematical state machine, one step at a time.
//! - `search`: the executable search, proved to take exactly those steps.
//! - `search_inv`, `optimal`: what every state of a search satisfies.
//! - `theorems`: what follows for the outcome of a search.
//! - `controller`: start and goal roles, clicks, and input handling.
use vstd::prelude::*;

pub mod grid;
pub mod node;
pub mod machine;
pub mod search_inv;
pub mod search;
pub mod optimal;
pub mod theorems;
pub mod controller;

verus! {

} // verus!
