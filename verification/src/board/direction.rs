//! The two board axes and the eight compass directions a ray can walk in.

use vstd::prelude::*;

verus! {

/// One of the two coordinate axes of a board.
#[derive(Debug, PartialEq, Eq, Structural, Clone, Copy)]
pub enum Axis {
    X,
    Y,
}

/// One of the eight compass directions, mapping to a unit `(dx, dy)` step.
#[derive(Debug, PartialEq, Eq, Structural, Clone, Copy)]
pub enum Direction {
    Left,
    Right,
    Up,
    Down,
    UpLeft,
    UpRight,
    DownLeft,
    DownRight,
}

impl Direction {
    /// The unit step of this direction along the x axis.
    pub open spec fn dx(self) -> int {
        match self {
            Direction::Left => -1,
            Direction::Right => 1,
            Direction::Up => 0,
            Direction::Down => 0,
            Direction::UpLeft => -1,
            Direction::UpRight => 1,
            Direction::DownLeft => -1,
            Direction::DownRight => 1,
        }
    }

    /// The unit step of this direction along the y axis.
    pub open spec fn dy(self) -> int {
        match self {
            Direction::Left => 0,
            Direction::Right => 0,
            Direction::Up => 1,
            Direction::Down => -1,
            Direction::UpLeft => 1,
            Direction::UpRight => 1,
            Direction::DownLeft => -1,
            Direction::DownRight => -1,
        }
    }
}

/// Every direction moves along at least one axis.
pub proof fn lemma_direction_moves(d: Direction)
    ensures
        d.dx() != 0 || d.dy() != 0,
        -1 <= d.dx() <= 1,
        -1 <= d.dy() <= 1,
{
}

/// The eight directions, each exactly once.
pub fn all_directions() -> (dirs: Vec<Direction>)
    ensures
        dirs@ =~= seq![
            Direction::Left,
            Direction::Right,
            Direction::Up,
            Direction::Down,
            Direction::UpLeft,
            Direction::UpRight,
            Direction::DownLeft,
            Direction::DownRight,
        ],
        forall|d: Direction| dirs@.contains(d),
        forall|i: int, j: int| 0 <= i < j < dirs@.len() ==> dirs@[i] != dirs@[j],
{
    let mut dirs: Vec<Direction> = Vec::new();
    dirs.push(Direction::Left);
    dirs.push(Direction::Right);
    dirs.push(Direction::Up);
    dirs.push(Direction::Down);
    dirs.push(Direction::UpLeft);
    dirs.push(Direction::UpRight);
    dirs.push(Direction::DownLeft);
    dirs.push(Direction::DownRight);
    proof {
        assert(dirs@[0] == Direction::Left);
        assert(dirs@[1] == Direction::Right);
        assert(dirs@[2] == Direction::Up);
        assert(dirs@[3] == Direction::Down);
        assert(dirs@[4] == Direction::UpLeft);
        assert(dirs@[5] == Direction::UpRight);
        assert(dirs@[6] == Direction::DownLeft);
        assert(dirs@[7] == Direction::DownRight);
        assert forall|d: Direction| dirs@.contains(d) by {
            match d {
                Direction::Left => assert(dirs@[0] == d),
                Direction::Right => assert(dirs@[1] == d),
                Direction::Up => assert(dirs@[2] == d),
                Direction::Down => assert(dirs@[3] == d),
                Direction::UpLeft => assert(dirs@[4] == d),
                Direction::UpRight => assert(dirs@[5] == d),
                Direction::DownLeft => assert(dirs@[6] == d),
                Direction::DownRight => assert(dirs@[7] == d),
            }
        }
    }
    dirs
}

} // verus!
