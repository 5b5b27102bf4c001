//! Solo-chess puzzle solver.
//!
//! Solo chess is a single-player variant: every move must capture a piece,
//! each piece may capture at most a fixed number of times, and if a King is
//! on the board it must be the last piece standing.  The crate models the
//! board, generates the legal capture moves for each piece, and searches for
//! a capture sequence that reduces the board to a single piece.

pub mod board;
pub mod cell;
pub mod generator;
pub mod piece;
pub mod rules;
pub mod solver;
pub mod step;
