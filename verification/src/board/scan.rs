//! A directional ray scanner: a cursor that walks the grid one step at a
//! time along a compass direction from a starting position, yielding
//! (position, cell) pairs until it first walks off the grid, after which it
//! yields nothing ever again.
//!
//! The scan yields positions as plain values. A caller that wants to write
//! along the ray hands each yielded position to `Board::set_cell`; since no
//! references escape, no two writes can alias by construction.

use vstd::prelude::*;

use crate::board::direction::Direction;
use crate::board::direction::lemma_direction_moves;
use crate::board::grid::Board;
use crate::board::position::BoardPosition;
use crate::board::position::Magnitude;
use crate::board::size::Size;

verus! {

/// Whether the coordinate pair `q` lies on a grid of dimensions `size`.
pub open spec fn on_grid(size: Size, q: (int, int)) -> bool {
    0 <= q.0 < size.spec_x() && 0 <= q.1 < size.spec_y()
}

/// A single-pass, non-restartable scan along one direction.
///
/// The scanner remembers the grid dimensions it was created against, the
/// start position, the direction and step magnitude, how many cells it has
/// yielded, and whether it has walked off the grid.
#[derive(Debug)]
pub struct Iter {
    size: Size,
    start: BoardPosition,
    direction: Direction,
    step: Magnitude,
    count: usize,
    done: bool,
}

impl Iter {
    /// The grid dimensions the scan was created against.
    pub closed spec fn spec_size(&self) -> Size {
        self.size
    }

    /// The position the scan started from; never yielded itself.
    pub closed spec fn spec_start(&self) -> BoardPosition {
        self.start
    }

    /// The direction the scan walks in.
    pub closed spec fn spec_direction(&self) -> Direction {
        self.direction
    }

    /// The step magnitude, in cells per step.
    pub closed spec fn spec_step(&self) -> int {
        self.step as int
    }

    /// How many cells the scan has yielded so far.
    pub closed spec fn spec_count(&self) -> int {
        self.count as int
    }

    /// Whether the scan has walked off the grid and ended.
    pub closed spec fn spec_done(&self) -> bool {
        self.done
    }

    /// A live scanner has yielded only on-grid cells, in step order.
    pub open spec fn wf(&self) -> bool {
        &&& 1 <= self.spec_step()
        &&& -0x4000_0000_0000_0000 <= self.spec_start().x <= 0x4000_0000_0000_0000
        &&& -0x4000_0000_0000_0000 <= self.spec_start().y <= 0x4000_0000_0000_0000
        &&& !self.spec_done() ==> forall|j: int|
            1 <= j <= self.spec_count() ==> on_grid(
                self.spec_size(),
                #[trigger] self.spec_start().stepped(self.spec_direction(), j * self.spec_step()),
            )
    }

    /// Starts a scan over `board` from `pos` in `direction`, advancing
    /// `step` cells at a time. The first yielded cell is one step away from
    /// `pos`, not `pos` itself.
    pub fn new<Cell: Copy>(
        board: &Board<Cell>,
        pos: BoardPosition,
        direction: Direction,
        step: Magnitude,
    ) -> (it: Iter)
        requires
            1 <= step,
            -0x4000_0000_0000_0000 <= pos.x <= 0x4000_0000_0000_0000,
            -0x4000_0000_0000_0000 <= pos.y <= 0x4000_0000_0000_0000,
        ensures
            it.wf(),
            it.spec_size() == board.spec_size(),
            it.spec_start() == pos,
            it.spec_direction() == direction,
            it.spec_step() == step as int,
            it.spec_count() == 0,
            !it.spec_done(),
    {
        Iter { size: board.size(), start: pos, direction, step, count: 0, done: false }
    }

    /// Advances the cursor one step and yields the cell there, or nothing —
    /// permanently — once the stepped position leaves the grid.
    pub fn next<Cell: Copy>(&mut self, board: &Board<Cell>) -> (r: Option<(BoardPosition, Cell)>)
        requires
            old(self).wf(),
            board.wf(),
            board.spec_size() == old(self).spec_size(),
        ensures
            final(self).wf(),
            final(self).spec_size() == old(self).spec_size(),
            final(self).spec_start() == old(self).spec_start(),
            final(self).spec_direction() == old(self).spec_direction(),
            final(self).spec_step() == old(self).spec_step(),
            old(self).spec_done() ==> r is None && *final(self) == *old(self),
            !old(self).spec_done() ==> ({
                let q = old(self).spec_start().stepped(
                    old(self).spec_direction(),
                    (old(self).spec_count() + 1) * old(self).spec_step(),
                );
                &&& on_grid(old(self).spec_size(), q) ==> (r matches Some(pc) && pc.0.x == q.0
                    && pc.0.y == q.1 && pc.1 == board.spec_at(q.0, q.1)
                    && final(self).spec_count() == old(self).spec_count() + 1
                    && !final(self).spec_done())
                &&& !on_grid(old(self).spec_size(), q) ==> (r is None && final(self).spec_done()
                    && final(self).spec_count() == old(self).spec_count())
            }),
    {
        if self.done {
            return None;
        }
        proof {
            lemma_count_bound(*self);
        }
        let k: usize = self.count + 1;
        proof {
            assert(k * self.step == self.count * self.step + self.step) by (nonlinear_arith)
                requires
                    k == self.count + 1,
            ;
        }
        let off: i64 = (k as i64) * (self.step as i64);
        let qx: i64;
        let qy: i64;
        match self.direction {
            Direction::Left => {
                qx = self.start.x - off;
                qy = self.start.y;
            },
            Direction::Right => {
                qx = self.start.x + off;
                qy = self.start.y;
            },
            Direction::Up => {
                qx = self.start.x;
                qy = self.start.y + off;
            },
            Direction::Down => {
                qx = self.start.x;
                qy = self.start.y - off;
            },
            Direction::UpLeft => {
                qx = self.start.x - off;
                qy = self.start.y + off;
            },
            Direction::UpRight => {
                qx = self.start.x + off;
                qy = self.start.y + off;
            },
            Direction::DownLeft => {
                qx = self.start.x - off;
                qy = self.start.y - off;
            },
            Direction::DownRight => {
                qx = self.start.x + off;
                qy = self.start.y - off;
            },
        }
        let ghost q = self.start.stepped(self.direction, (k as int) * (self.step as int));
        proof {
            assert(qx == q.0 && qy == q.1);
        }
        let sx = self.size.x();
        let sy = self.size.y();
        if qx >= 0 && qy >= 0 && qx < sx as i64 && qy < sy as i64 {
            self.count = k;
            proof {
                assert forall|j: int|
                    1 <= j <= self.spec_count() implies on_grid(
                    self.spec_size(),
                    #[trigger] self.spec_start().stepped(self.spec_direction(), j * self.spec_step()),
                ) by {
                    if j <= old(self).spec_count() {
                        assert(old(self).wf());
                    } else {
                        assert(j == k as int);
                    }
                }
            }
            let p = BoardPosition { x: qx, y: qy };
            match board.cell_ref(&p) {
                Some(c) => Some((p, *c)),
                None => None,
            }
        } else {
            self.done = true;
            None
        }
    }
}

/// One on-grid coordinate bounds how often a scan can have stepped: from the
/// first and the latest yielded position on one moving axis, the product of
/// count and step is bounded by the axis size.
proof fn lemma_axis_bound(x0: int, delta: int, c: int, s: int, limit: int)
    requires
        1 <= c,
        1 <= s <= 0xFF,
        delta == 1 || delta == -1,
        limit <= 0xFFFF,
        0 <= x0 + (1 * s) * delta < limit,
        0 <= x0 + (c * s) * delta < limit,
    ensures
        c * s <= limit - 1 + s,
        c <= c * s,
{
    assert(c * s <= limit - 1 + s && c <= c * s) by (nonlinear_arith)
        requires
            1 <= c,
            1 <= s <= 0xFF,
            delta == 1 || delta == -1,
            limit <= 0xFFFF,
            0 <= x0 + (1 * s) * delta < limit,
            0 <= x0 + (c * s) * delta < limit,
    ;
}

/// A live scanner's yield count, scaled by its step, is bounded by the grid
/// dimension along an axis the scan moves on.
pub proof fn lemma_count_bound(it: Iter)
    requires
        it.wf(),
        !it.spec_done(),
    ensures
        it.spec_count() * it.spec_step() <= 0xFFFE + it.spec_step(),
        it.spec_count() <= 0xFFFE + it.spec_step(),
        it.spec_count() == 0 || it.spec_count() <= it.spec_count() * it.spec_step(),
{
    let c = it.spec_count();
    let s = it.spec_step();
    let d = it.spec_direction();
    let p = it.spec_start();
    if c == 0 {
        assert(c * s == 0) by (nonlinear_arith)
            requires
                c == 0,
        ;
    } else {
        lemma_direction_moves(d);
        assert(on_grid(it.spec_size(), p.stepped(d, 1 * s)));
        assert(on_grid(it.spec_size(), p.stepped(d, c * s)));
        if d.dx() != 0 {
            lemma_axis_bound(p.x as int, d.dx(), c, s, it.spec_size().spec_x() as int);
        } else {
            lemma_axis_bound(p.y as int, d.dy(), c, s, it.spec_size().spec_y() as int);
        }
    }
}

/// How many cells lie strictly between `start` and the edge of the grid in
/// direction `d`: the number of cells a unit-step scan will yield.
pub open spec fn edge_distance(size: Size, start: BoardPosition, d: Direction) -> int {
    let ax = if d.dx() > 0 {
        size.spec_x() - 1 - start.x
    } else {
        start.x as int
    };
    let ay = if d.dy() > 0 {
        size.spec_y() - 1 - start.y
    } else {
        start.y as int
    };
    if d.dx() == 0 {
        ay
    } else if d.dy() == 0 {
        ax
    } else if ax <= ay {
        ax
    } else {
        ay
    }
}

/// A unit-step ray from an on-grid start yields exactly the cells between
/// the start and the edge it walks toward: the positions one through
/// `edge_distance` steps out are on the grid, the next one is not, and no
/// stepped position is ever the start itself.
pub proof fn lemma_ray_scan_length(size: Size, start: BoardPosition, d: Direction)
    requires
        on_grid(size, (start.x as int, start.y as int)),
    ensures
        0 <= edge_distance(size, start, d),
        forall|j: int|
            1 <= j <= edge_distance(size, start, d) ==> on_grid(
                size,
                #[trigger] start.stepped(d, j),
            ),
        !on_grid(size, start.stepped(d, edge_distance(size, start, d) + 1)),
        forall|j: int| 1 <= j ==> #[trigger] start.stepped(d, j) != (start.x as int, start.y as int),
{
    lemma_direction_moves(d);
    let n = edge_distance(size, start, d);
    assert forall|j: int| 1 <= j <= n implies on_grid(size, #[trigger] start.stepped(d, j)) by {
        let dx = d.dx();
        let dy = d.dy();
        assert(j * dx == (if dx == 1 { j } else if dx == -1 { -j } else { 0 })) by (nonlinear_arith)
            requires
                dx == -1 || dx == 0 || dx == 1,
        ;
        assert(j * dy == (if dy == 1 { j } else if dy == -1 { -j } else { 0 })) by (nonlinear_arith)
            requires
                dy == -1 || dy == 0 || dy == 1,
        ;
        assert(start.stepped(d, j).0 == start.x + j * dx);
        assert(start.stepped(d, j).1 == start.y + j * dy);
    }
    let m = n + 1;
    assert(start.stepped(d, m).0 == start.x + m * d.dx());
    assert(start.stepped(d, m).1 == start.y + m * d.dy());
    if d.dx() > 0 && m > size.spec_x() - 1 - start.x {
        assert(m * d.dx() == m);
        assert(start.stepped(d, m).0 >= size.spec_x());
    } else if d.dx() < 0 && m > start.x {
        assert(m * d.dx() == -m);
        assert(start.stepped(d, m).0 < 0);
    } else if d.dy() > 0 {
        assert(m * d.dy() == m);
        assert(start.stepped(d, m).1 >= size.spec_y());
    } else {
        assert(d.dy() < 0 && m > start.y);
        assert(m * d.dy() == -m);
        assert(start.stepped(d, m).1 < 0);
    }
    assert forall|j: int|
        1 <= j implies #[trigger] start.stepped(d, j) != (start.x as int, start.y as int) by {
        if d.dx() != 0 {
            assert(start.stepped(d, j).0 != start.x);
        } else {
            assert(start.stepped(d, j).1 != start.y);
        }
    }
}

} // verus!
