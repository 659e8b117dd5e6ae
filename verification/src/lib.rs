//! A Battlesnake engine: board geometry on bitboards, a turn simulator that applies
//! the game rules, board analysis (flood fills, Voronoi territory, corridors) and the
//! integer parts of move selection.
use vstd::prelude::*;

pub mod api;
pub mod bitboard;
pub mod board;
pub mod heuristic;
pub mod bits;
pub mod minimax;
pub mod opponent;
pub mod simulator;
pub mod strategy;
pub mod territory;
pub mod types;

verus! {
} // verus!
