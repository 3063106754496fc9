//! Verified model and solver for the game of Chomp.
//!
//! A rectangular bar of cells is eaten from the lower-right: each move
//! removes a chosen cell together with everything weakly below and to the
//! right of it.  The cell at row 0, column 0 is poisoned; whoever eats it
//! loses.  The board is kept as a staircase (the widths of consecutive
//! rows never increase), and an exhaustive negamax search decides whether
//! the player to move has a forced win.

pub mod board;
pub mod solver;

pub use board::Bar;
