//! The small enumerations the board and the move generator are written in.

use vstd::prelude::*;

verus! {

/// A side of the game.
#[derive(Copy, Clone, Debug, PartialEq, Eq, Structural)]
pub enum Player {
    White,
    Black,
}

impl Player {
    /// The other side.
    pub open spec fn spec_other(self) -> Player {
        match self {
            Player::White => Player::Black,
            Player::Black => Player::White,
        }
    }

    /// Returns the other side.
    pub fn other_player(self) -> (r: Player)
        ensures
            r == self.spec_other(),
    {
        match self {
            Player::White => Player::Black,
            Player::Black => Player::White,
        }
    }

    /// The index of the side: 0 for white, 1 for black.
    pub open spec fn spec_index(self) -> int {
        match self {
            Player::White => 0,
            Player::Black => 1,
        }
    }

    /// Returns the index of the side: 0 for white, 1 for black.
    pub fn index(self) -> (r: usize)
        ensures
            r == self.spec_index(),
    {
        match self {
            Player::White => 0,
            Player::Black => 1,
        }
    }
}

/// A kind of piece: pawn, knight, bishop, rook, queen, king.
#[derive(Copy, Clone, Debug, PartialEq, Eq, Structural)]
pub enum Piece {
    P,
    N,
    B,
    R,
    Q,
    K,
}

impl Piece {
    /// The index of the kind of piece, 0 for a pawn up to 5 for a king.
    pub open spec fn spec_index(self) -> int {
        match self {
            Piece::P => 0,
            Piece::N => 1,
            Piece::B => 2,
            Piece::R => 3,
            Piece::Q => 4,
            Piece::K => 5,
        }
    }

    /// Returns the index of the kind of piece.
    pub fn index(self) -> (r: usize)
        ensures
            r == self.spec_index(),
            r < 6,
    {
        match self {
            Piece::P => 0,
            Piece::N => 1,
            Piece::B => 2,
            Piece::R => 3,
            Piece::Q => 4,
            Piece::K => 5,
        }
    }
}

/// The kind of piece at an index below 6.
pub open spec fn piece_at_index(i: int) -> Piece {
    if i == 0 {
        Piece::P
    } else if i == 1 {
        Piece::N
    } else if i == 2 {
        Piece::B
    } else if i == 3 {
        Piece::R
    } else if i == 4 {
        Piece::Q
    } else {
        Piece::K
    }
}

/// Returns the kind of piece at an index below 6.
pub fn piece_of_index(i: usize) -> (r: Piece)
    requires
        i < 6,
    ensures
        r == piece_at_index(i as int),
        r.spec_index() == i,
{
    if i == 0 {
        Piece::P
    } else if i == 1 {
        Piece::N
    } else if i == 2 {
        Piece::B
    } else if i == 3 {
        Piece::R
    } else if i == 4 {
        Piece::Q
    } else {
        Piece::K
    }
}

/// The side of the board on which to castle.
#[derive(Copy, Clone, Debug, PartialEq, Eq, Structural)]
pub enum CastleType {
    KingSide,
    QueenSide,
}

/// Which moves to generate.
#[derive(Copy, Clone, Debug, PartialEq, Eq, Structural)]
pub enum GenTypes {
    /// Every move: evasions when in check, non-evasions otherwise.
    All,
    /// Moves that capture.
    Captures,
    /// Moves that do not capture.
    Quiets,
    /// Moves that do not capture and give check.
    QuietChecks,
    /// Moves out of check.
    Evasions,
    /// Every move when not in check.
    NonEvasions,
}

} // verus!
