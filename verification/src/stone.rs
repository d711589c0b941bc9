//! Players, cell states and the symbols that stand for them in a rendering.

use vstd::prelude::*;

verus! {

/// One of the two players.
#[derive(Clone, Copy, Debug, PartialEq, Eq, Structural)]
pub enum Player {
    White,
    Black,
}

/// What a point of the board holds.
#[derive(Clone, Copy, Debug, PartialEq, Eq, Structural)]
pub enum Cell {
    Empty,
    Black,
    White,
}

impl Player {
    /// The symbol of this player's stones: `x` for Black, `o` for White.
    pub open spec fn symbol_spec(&self) -> char {
        match *self {
            Player::White => 'o',
            Player::Black => 'x',
        }
    }

    /// The cell state that a stone of this player leaves on the board.
    pub open spec fn stone_spec(self) -> Cell {
        match self {
            Player::White => Cell::White,
            Player::Black => Cell::Black,
        }
    }

    /// The player who moves after this one.
    pub open spec fn opponent_spec(self) -> Player {
        match self {
            Player::White => Player::Black,
            Player::Black => Player::White,
        }
    }

    #[verifier::when_used_as_spec(symbol_spec)]
    pub fn symbol(&self) -> (c: char)
        ensures
            c == self.symbol_spec(),
    {
        match *self {
            Player::White => 'o',
            Player::Black => 'x',
        }
    }

    #[verifier::when_used_as_spec(stone_spec)]
    pub fn stone(self) -> (cell: Cell)
        ensures
            cell == self.stone_spec(),
    {
        match self {
            Player::White => Cell::White,
            Player::Black => Cell::Black,
        }
    }

    #[verifier::when_used_as_spec(opponent_spec)]
    pub fn opponent(self) -> (other: Player)
        ensures
            other == self.opponent_spec(),
    {
        match self {
            Player::White => Player::Black,
            Player::Black => Player::White,
        }
    }
}

impl Cell {
    /// The symbol that a rendering shows for this cell: a dot for an empty
    /// point, otherwise the symbol of the stone's owner.
    pub open spec fn symbol_spec(self) -> char {
        match self {
            Cell::Empty => '.',
            Cell::Black => Player::Black.symbol_spec(),
            Cell::White => Player::White.symbol_spec(),
        }
    }

    #[verifier::when_used_as_spec(symbol_spec)]
    pub fn symbol(self) -> (c: char)
        ensures
            c == self.symbol_spec(),
    {
        match self {
            Cell::Empty => '.',
            Cell::Black => Player::Black.symbol(),
            Cell::White => Player::White.symbol(),
        }
    }

    /// The state with the two colours exchanged.
    pub open spec fn swapped(self) -> Cell {
        match self {
            Cell::Empty => Cell::Empty,
            Cell::Black => Cell::White,
            Cell::White => Cell::Black,
        }
    }
}

} // verus!
