//! Cell occupants and turns. A cell is empty or owned by one of the two
//! players; a turn is always one of the two players.

use vstd::prelude::*;

verus! {

/// What occupies a cell: nothing, or one of the two players' discs.
#[derive(Debug, PartialEq, Eq, Structural, Hash, Clone, Copy)]
pub enum Player {
    Empty,
    Black,
    White,
}

impl Player {
    /// The opposing player; the empty occupant has no opponent and maps to
    /// itself.
    pub open spec fn spec_next(&self) -> Player {
        match self {
            Player::Black => Player::White,
            Player::White => Player::Black,
            Player::Empty => Player::Empty,
        }
    }

    /// The opposing player.
    #[verifier::when_used_as_spec(spec_next)]
    pub fn next(&self) -> (r: Player)
        ensures
            r == self.spec_next(),
    {
        match self {
            Player::Black => Player::White,
            Player::White => Player::Black,
            Player::Empty => Player::Empty,
        }
    }
}

/// Whose move it is.
#[derive(Debug, PartialEq, Eq, Structural, Hash, Clone, Copy)]
pub enum Turn {
    Black,
    White,
}

impl Turn {
    /// The turn that follows this one.
    pub open spec fn spec_next(&self) -> Turn {
        match self {
            Turn::Black => Turn::White,
            Turn::White => Turn::Black,
        }
    }

    /// The turn that follows this one.
    #[verifier::when_used_as_spec(spec_next)]
    pub fn next(&self) -> (r: Turn)
        ensures
            r == self.spec_next(),
    {
        match self {
            Turn::Black => Turn::White,
            Turn::White => Turn::Black,
        }
    }

    /// Advances this turn in place.
    pub fn next_mut(&mut self)
        ensures
            *final(self) == old(self).spec_next(),
    {
        *self = self.next();
    }

    /// The player whose discs this turn stamps.
    pub open spec fn spec_player(&self) -> Player {
        match self {
            Turn::Black => Player::Black,
            Turn::White => Player::White,
        }
    }

    /// The player whose discs this turn stamps.
    #[verifier::when_used_as_spec(spec_player)]
    pub fn player(&self) -> (p: Player)
        ensures
            p == self.spec_player(),
    {
        match self {
            Turn::Black => Player::Black,
            Turn::White => Player::White,
        }
    }
}

} // verus!
