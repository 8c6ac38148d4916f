//! One game: a board and the side that is due to move.

use crate::board::{Board, Piece};
use crate::geometry::in_bounds;
use crate::PlaceError;
use std::ops::Not;
use vstd::prelude::*;

verus! {

/// A game of Othello in progress. Black moves first, and the turn passes to
/// the other side with every piece that is placed.
#[derive(Clone, Copy, Debug, PartialEq, Eq)]
pub struct GameState {
    board: Board,
    turn: Piece,
}

impl GameState {
    /// The board as it stands.
    pub closed spec fn spec_board(&self) -> Board {
        self.board
    }

    /// The side that is due to move.
    pub closed spec fn spec_turn(&self) -> Piece {
        self.turn
    }

    /// What an attempt to place `piece` at `(x, y)` is answered with. The
    /// rules are tried in a fixed order, and the first one that is broken
    /// names the error.
    pub open spec fn verdict(&self, x: usize, y: usize, piece: Piece) -> Result<(), PlaceError> {
        if !in_bounds(x as int, y as int) {
            Err(PlaceError::OutOfBounds(x, y))
        } else if piece != self.turn() {
            Err(PlaceError::Turn(piece))
        } else if self.board().at(x as int, y as int) is Some {
            Err(PlaceError::Occupied(x, y))
        } else if !self.board().has_neighbor(x as int, y as int) {
            Err(PlaceError::NotAdjacent(x, y))
        } else if self.board().flip_count(x as int, y as int, piece) == 0 {
            Err(PlaceError::NoFlips(x, y))
        } else {
            Ok(())
        }
    }

    /// A placement is accepted exactly when the piece belongs to the side
    /// that is due to move and the rules of the board allow it.
    pub proof fn lemma_verdict_ok(&self, x: usize, y: usize, piece: Piece)
        ensures
            self.verdict(x, y, piece) is Ok <==> piece == self.turn() && self.board().legal(
                x as int,
                y as int,
                piece,
            ),
    {
        if in_bounds(x as int, y as int) {
            self.board().lemma_flip_count_bound(x as int, y as int, piece);
        }
    }

    /// Two games with the same board and the same side to move are the same
    /// game.
    pub proof fn lemma_equal_by_parts(&self, other: &GameState)
        requires
            self.board() == other.board(),
            self.turn() == other.turn(),
        ensures
            *self == *other,
    {
    }

    /// A game that is put together again from the squares of its board and
    /// from its side to move is the same game.
    pub proof fn lemma_round_trip(&self, back: &GameState)
        requires
            Board::of_cells(self.board()@) == Some(back.board()),
            back.turn() == self.turn(),
        ensures
            *back == *self,
    {
        self.board().lemma_cells_round_trip();
    }

    /// A game at its start: the four central squares are taken and Black is
    /// due to move.
    pub fn new() -> (game: GameState)
        ensures
            game.turn() == Piece::Black,
            forall|x: int, y: int| #[trigger] game.board().at(x, y) == Board::initial(x, y),
            game.board().pieces(Piece::Black) == 2,
            game.board().pieces(Piece::White) == 2,
    {
        GameState { board: Board::new(), turn: Piece::Black }
    }

    /// A game that stands at `board` with `turn` due to move.
    pub fn from_parts(board: Board, turn: Piece) -> (game: GameState)
        ensures
            game.board() == board,
            game.turn() == turn,
    {
        GameState { board, turn }
    }

    /// The board as it stands.
    #[verifier::when_used_as_spec(spec_board)]
    pub fn board(&self) -> (board: Board)
        ensures
            board == self.board(),
    {
        self.board
    }

    /// The side that is due to move.
    #[verifier::when_used_as_spec(spec_turn)]
    pub fn turn(&self) -> (turn: Piece)
        ensures
            turn == self.turn(),
    {
        self.turn
    }

    /// Tries the rules on a placement of `piece` at `(x, y)` and changes
    /// nothing.
    pub fn validate(&self, x: usize, y: usize, piece: Piece) -> (r: Result<(), PlaceError>)
        ensures
            r == self.verdict(x, y, piece),
    {
        if x >= 8 || y >= 8 {
            return Err(PlaceError::OutOfBounds(x, y));
        }
        if piece != self.turn {
            return Err(PlaceError::Turn(piece));
        }
        if self.board.get(x, y).is_some() {
            return Err(PlaceError::Occupied(x, y));
        }
        match self.board.adjacent(x, y) {
            Ok(true) => {},
            _ => {
                return Err(PlaceError::NotAdjacent(x, y));
            },
        }
        if self.board.flips(x, y, piece) == 0 {
            return Err(PlaceError::NoFlips(x, y));
        }
        Ok(())
    }

    /// Places `piece` at `(x, y)` if the rules allow it: the captured
    /// opponents change colour, the square takes the piece, and the turn
    /// passes to the other side. A placement that the rules refuse changes
    /// nothing.
    pub fn place(&mut self, x: usize, y: usize, piece: Piece) -> (r: Result<(), PlaceError>)
        ensures
            r == old(self).verdict(x, y, piece),
            r is Err ==> *final(self) == *old(self),
            r is Ok ==> final(self).turn() == piece.opponent(),
            r is Ok ==> forall|cx: int, cy: int| #[trigger]
                final(self).board().at(cx, cy) == old(self).board().after_move(
                    x as int,
                    y as int,
                    piece,
                    cx,
                    cy,
                ),
            r is Ok ==> final(self).board().pieces(piece) == old(self).board().pieces(piece) + 1
                + old(self).board().flip_count(x as int, y as int, piece),
            r is Ok ==> final(self).board().pieces(piece.opponent()) + old(self).board().flip_count(
                x as int,
                y as int,
                piece,
            ) == old(self).board().pieces(piece.opponent()),
            r is Ok ==> final(self).board().occupied() == old(self).board().occupied() + 1,
    {
        match self.validate(x, y, piece) {
            Ok(()) => {},
            Err(e) => {
                return Err(e);
            },
        }
        self.board.flip(x, y, piece);
        self.board.put(x, y, piece);
        self.turn = piece.not();
        Ok(())
    }

    /// Whether `piece` could be placed on some square if its side were due
    /// to move. A side without such a square cannot move.
    pub fn has_legal_move(&self, piece: Piece) -> (r: bool)
        ensures
            r == exists|x: int, y: int| #[trigger] self.board().legal(x, y, piece),
    {
        let r = self.board.has_legal_move(piece);
        proof {
            if r {
                let (x, y) = choose|x: int, y: int| #[trigger] self.board.legal(x, y, piece);
                assert(self.board().legal(x, y, piece));
            }
        }
        r
    }
}

} // verus!
