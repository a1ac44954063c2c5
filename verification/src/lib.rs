//! A constraint-satisfaction engine for fixed-size grid puzzles
//! (Sudoku, binary/balance grids and other Latin-square-style puzzles),
//! solved by chronological backtracking.
//!
//! The engine is built from three pieces: a per-cell candidate cursor
//! ([`domains::Domain`]), a grid-shaped problem container with a row-major
//! traversal cursor ([`problem::grid::Grid`]), and a solver loop
//! ([`solver::CSPSolver`]) that probes forward while an ordered list of
//! pluggable constraints ([`constraints::Constraint`]) holds and backtracks
//! when one is violated.

pub mod constraints;
pub mod domains;
pub mod presentation;
pub mod problem;
pub mod solver;
