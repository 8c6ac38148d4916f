//! A rules engine for Othello: an 8x8 board, the capture rule, and the
//! alternation of turns.

use vstd::prelude::*;

pub mod board;
pub mod capture;
pub mod geometry;
pub mod state;
pub mod tally;

pub use board::Board;
pub use board::Piece;
pub use state::GameState;

verus! {

/// Why a placement was refused.
#[derive(Debug, PartialEq, Eq)]
pub enum PlaceError {
    /// The square already holds a piece.
    Occupied(usize, usize),
    /// The piece belongs to the side that is not due to move.
    Turn(Piece),
    /// None of the up to eight squares around the square holds a piece.
    NotAdjacent(usize, usize),
    /// The square lies outside the board.
    OutOfBounds(usize, usize),
    /// The placement would capture nothing.
    NoFlips(usize, usize),
}

} // verus!
