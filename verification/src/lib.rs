//! Puzzle solvers built around a verified shortest-path engine for dense
//! rectangular grids.

pub mod boundary;
pub mod climb;
pub mod compass;
pub mod days;
pub mod frontier;
pub mod outside;
pub mod powers;
pub mod relaxation;
pub mod rule;
pub mod search;
pub mod state;
pub mod surface;
pub mod text;
pub mod walks;
