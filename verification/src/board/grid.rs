//! A fixed-size two-dimensional grid of cells, stored as a flat arena indexed
//! by computed position, one cell per coordinate pair in range.

use vstd::prelude::*;

use crate::board::position::BoardPosition;
use crate::board::size::Size;

verus! {

/// A `size.x()` by `size.y()` grid holding one `Cell` per position.
///
/// The cell at coordinates `(x, y)` lives at flat index `x * size.y() + y`;
/// the arena always holds exactly `size.x() * size.y()` cells.
#[derive(Debug, PartialEq, Eq)]
pub struct Board<Cell> {
    size: Size,
    cells: Vec<Cell>,
}

/// `0 <= x * sy + y < sx * sy` whenever `(x, y)` is in an `sx` by `sy` range.
proof fn lemma_flat_index(x: int, y: int, sx: int, sy: int)
    requires
        0 <= x < sx,
        0 <= y < sy,
    ensures
        0 <= x * sy + y < sx * sy,
{
    assert(x * sy + y < sx * sy) by (nonlinear_arith)
        requires
            0 <= x < sx,
            0 <= y < sy,
    ;
    assert(0 <= x * sy) by (nonlinear_arith)
        requires
            0 <= x,
            0 <= y < sy,
    ;
}

/// Distinct in-range coordinate pairs map to distinct flat indices.
proof fn lemma_flat_index_injective(x1: int, y1: int, x2: int, y2: int, sy: int)
    requires
        0 <= y1 < sy,
        0 <= y2 < sy,
        x1 * sy + y1 == x2 * sy + y2,
    ensures
        x1 == x2 && y1 == y2,
{
    vstd::arithmetic::div_mod::lemma_fundamental_div_mod_converse(
        x1 * sy + y1,
        sy,
        x1,
        y1,
    );
    vstd::arithmetic::div_mod::lemma_fundamental_div_mod_converse(
        x2 * sy + y2,
        sy,
        x2,
        y2,
    );
}

impl<Cell> Board<Cell> {
    /// The dimensions of this grid, for use in specifications.
    pub closed spec fn spec_size(&self) -> Size {
        self.size
    }

    /// The arena holds exactly one cell per in-range position.
    pub closed spec fn wf(&self) -> bool {
        self.cells@.len() == self.size.spec_x() * self.size.spec_y()
    }

    /// The cell at coordinates `(x, y)`; meaningful only in range.
    pub closed spec fn spec_at(&self, x: int, y: int) -> Cell {
        self.cells@[x * self.size.spec_y() + y]
    }

    /// Whether `(x, y)` lies on this grid.
    pub open spec fn in_range(&self, x: int, y: int) -> bool {
        0 <= x < self.spec_size().spec_x() && 0 <= y < self.spec_size().spec_y()
    }

    /// Whether a position lies on this grid.
    pub open spec fn in_range_pos(&self, p: BoardPosition) -> bool {
        self.in_range(p.x as int, p.y as int)
    }

    /// The dimensions of this grid.
    #[verifier::when_used_as_spec(spec_size)]
    pub fn size(&self) -> (s: Size)
        ensures
            s == self.spec_size(),
    {
        self.size
    }
}

impl<Cell: Copy> Board<Cell> {
    /// Builds a grid of the given size with every cell set to `default`.
    pub fn new(size: Size, default: Cell) -> (r: Board<Cell>)
        ensures
            r.wf(),
            r.spec_size() == size,
            forall|x: int, y: int| r.in_range(x, y) ==> r.spec_at(x, y) == default,
    {
        let sx = size.x();
        let sy = size.y();
        proof {
            assert((sx as usize) * (sy as usize) == sx * sy && sx * sy < 0x1_0000_0000)
                by (nonlinear_arith)
                requires
                    sx < 0x1_0000,
                    sy < 0x1_0000,
            ;
        }
        let total: usize = (sx as usize) * (sy as usize);
        let mut cells: Vec<Cell> = Vec::new();
        let mut i: usize = 0;
        while i < total
            invariant
                i <= total,
                cells@.len() == i,
                forall|j: int| 0 <= j < i ==> cells@[j] == default,
            decreases total - i,
        {
            cells.push(default);
            i += 1;
        }
        let r = Board { size, cells };
        proof {
            assert forall|x: int, y: int| r.in_range(x, y) implies r.spec_at(x, y) == default by {
                lemma_flat_index(x, y, sx as int, sy as int);
            }
        }
        r
    }

    /// The cell at position `p`, or nothing when `p` is off the grid.
    pub fn cell_ref(&self, p: &BoardPosition) -> (r: Option<&Cell>)
        requires
            self.wf(),
        ensures
            self.in_range_pos(*p) ==> (r matches Some(c) && *c == self.spec_at(
                p.x as int,
                p.y as int,
            )),
            !self.in_range_pos(*p) ==> r is None,
    {
        let sx = self.size.x();
        let sy = self.size.y();
        if p.x >= 0 && p.y >= 0 && p.x < sx as i64 && p.y < sy as i64 {
            proof {
                lemma_flat_index(p.x as int, p.y as int, sx as int, sy as int);
                assert(sx * sy < 0x1_0000_0000) by (nonlinear_arith)
                    requires
                        sx < 0x1_0000,
                        sy < 0x1_0000,
                ;
            }
            let idx: usize = (p.x as usize) * (sy as usize) + (p.y as usize);
            Some(&self.cells[idx])
        } else {
            None
        }
    }

    /// Writes `value` at position `p`. Off-grid positions are rejected and
    /// leave the grid untouched; the result says whether the write happened.
    pub fn set_cell(&mut self, p: &BoardPosition, value: Cell) -> (updated: bool)
        requires
            old(self).wf(),
        ensures
            final(self).wf(),
            final(self).spec_size() == old(self).spec_size(),
            updated == old(self).in_range_pos(*p),
            updated ==> final(self).spec_at(p.x as int, p.y as int) == value,
            updated ==> forall|x: int, y: int|
                old(self).in_range(x, y) && !(x == p.x as int && y == p.y as int)
                    ==> final(self).spec_at(x, y) == old(self).spec_at(x, y),
            !updated ==> *final(self) == *old(self),
    {
        let sx = self.size.x();
        let sy = self.size.y();
        if p.x >= 0 && p.y >= 0 && p.x < sx as i64 && p.y < sy as i64 {
            proof {
                lemma_flat_index(p.x as int, p.y as int, sx as int, sy as int);
                assert(sx * sy < 0x1_0000_0000) by (nonlinear_arith)
                    requires
                        sx < 0x1_0000,
                        sy < 0x1_0000,
                ;
            }
            let idx: usize = (p.x as usize) * (sy as usize) + (p.y as usize);
            self.cells[idx] = value;
            proof {
                assert forall|x: int, y: int|
                    old(self).in_range(x, y) && !(x == p.x as int && y == p.y as int)
                        implies final(self).spec_at(x, y) == old(self).spec_at(x, y) by {
                    lemma_flat_index(x, y, sx as int, sy as int);
                    if x * (sy as int) + y == (p.x as int) * (sy as int) + (p.y as int) {
                        lemma_flat_index_injective(x, y, p.x as int, p.y as int, sy as int);
                    }
                }
            }
            true
        } else {
            false
        }
    }
}

} // verus!
