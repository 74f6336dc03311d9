//! Engine for logic-grid deduction puzzles: solution generation, clue
//! predicates, a forward-chaining constraint solver and the player's board.
pub mod tile;
pub mod candidate;
pub mod rng;
pub mod solution;
pub mod grid;
pub mod board;
pub mod clue;
pub mod solver;
pub mod placement;
pub mod generator;
pub mod events;
pub mod text;
