//! Signed board coordinates. Positions may go off the grid transiently while
//! a ray walks outward, so they are wide signed integers.

use vstd::prelude::*;

use crate::board::direction::Direction;
use crate::board::size::SizeUnit;

verus! {

/// The signed integer type a coordinate is measured in.
pub type PositionUnit = i64;

/// How many cells a single scanner step covers.
pub type Magnitude = u8;

/// A (possibly off-grid) cell coordinate.
#[derive(Debug, PartialEq, Eq, Structural, Hash, Clone, Copy)]
pub struct BoardPosition {
    pub x: PositionUnit,
    pub y: PositionUnit,
}

impl BoardPosition {
    /// The coordinates reached from this position after `k` unit steps in
    /// direction `d`, as unbounded integers.
    pub open spec fn stepped(self, d: Direction, k: int) -> (int, int) {
        (self.x + k * d.dx(), self.y + k * d.dy())
    }

    /// Moves this position `magnitude` cells in `direction`.
    pub fn apply_direction(&mut self, direction: &Direction, magnitude: Magnitude)
        requires
            i64::MIN <= old(self).stepped(*direction, magnitude as int).0 <= i64::MAX,
            i64::MIN <= old(self).stepped(*direction, magnitude as int).1 <= i64::MAX,
        ensures
            final(self).x == old(self).stepped(*direction, magnitude as int).0,
            final(self).y == old(self).stepped(*direction, magnitude as int).1,
    {
        let m = magnitude as PositionUnit;
        match direction {
            Direction::Left => self.x -= m,
            Direction::Right => self.x += m,
            Direction::Up => self.y += m,
            Direction::Down => self.y -= m,
            Direction::UpLeft => {
                self.y += m;
                self.x -= m;
            },
            Direction::UpRight => {
                self.y += m;
                self.x += m;
            },
            Direction::DownLeft => {
                self.y -= m;
                self.x -= m;
            },
            Direction::DownRight => {
                self.y -= m;
                self.x += m;
            },
        }
    }
}

/// All coordinate pairs of a `board_size_x` by `board_size_y` board, row by
/// row: entry `i` is `(i % board_size_x, i / board_size_x)`.
pub fn position_pairs(board_size_x: SizeUnit, board_size_y: SizeUnit) -> (r: Vec<
    (PositionUnit, PositionUnit),
>)
    ensures
        r@.len() == board_size_x * board_size_y,
        forall|i: int|
            0 <= i < r@.len() ==> #[trigger] r@[i] == (
                (i % (board_size_x as int)) as PositionUnit,
                (i / (board_size_x as int)) as PositionUnit,
            ),
{
    let mut r: Vec<(PositionUnit, PositionUnit)> = Vec::new();
    let mut y: SizeUnit = 0;
    while y < board_size_y
        invariant
            y <= board_size_y,
            r@.len() == board_size_x * y,
            forall|i: int|
                0 <= i < r@.len() ==> #[trigger] r@[i] == (
                    (i % (board_size_x as int)) as PositionUnit,
                    (i / (board_size_x as int)) as PositionUnit,
                ),
        decreases board_size_y - y,
    {
        let mut x: SizeUnit = 0;
        while x < board_size_x
            invariant
                y < board_size_y,
                x <= board_size_x,
                r@.len() == board_size_x * y + x,
                forall|i: int|
                    0 <= i < r@.len() ==> #[trigger] r@[i] == (
                        (i % (board_size_x as int)) as PositionUnit,
                        (i / (board_size_x as int)) as PositionUnit,
                    ),
            decreases board_size_x - x,
        {
            proof {
                assert(board_size_x * y + x == (y as int) * (board_size_x as int) + x)
                    by (nonlinear_arith);
                vstd::arithmetic::div_mod::lemma_fundamental_div_mod_converse(
                    board_size_x * y + x,
                    board_size_x as int,
                    y as int,
                    x as int,
                );
                assert(board_size_x * y + x < 0x1_0000_0000) by (nonlinear_arith)
                    requires
                        board_size_x < 0x1_0000,
                        y < 0x1_0000,
                        x < 0x1_0000,
                ;
            }
            r.push((x as PositionUnit, y as PositionUnit));
            x += 1;
        }
        proof {
            assert(board_size_x * y + board_size_x == board_size_x * (y + 1)) by (nonlinear_arith);
        }
        y += 1;
    }
    r
}

} // verus!
