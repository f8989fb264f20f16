//! A verified Sudoku solver.
//!
//! A board is a flat vector of 81 cells in row-major order, `0` marking
//! an empty cell.  [`solver::solve`] fills it in place by exhaustive
//! backtracking — cells in row-major order, candidates in ascending
//! order — and its contract pins the outcome exactly: it succeeds if and
//! only if the board can be completed, the board then holds the first
//! completion in search order, and on failure the board is left exactly
//! as it was given.  [`laws`] derives determinism and the fixed-point
//! behaviour on solved boards from that contract.

pub mod grid;
pub mod laws;
pub mod solver;
