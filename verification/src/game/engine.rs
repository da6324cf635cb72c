//! The Reversi rule engine: a board of cell owners, the active turn, the
//! forced-pass log, legal-move computation, disc flipping, turn advancement,
//! stalemate detection and scoring.

use vstd::pervasive::unreached;
use vstd::prelude::*;

use crate::board::direction::Direction;
use crate::board::grid::Board;
use crate::board::position::BoardPosition;
use crate::board::size::Size;
use crate::game::player::Player;
use crate::game::player::Turn;

verus! {

/// A board dimension in cells; this game plays on even dimensions only.
#[derive(Debug, PartialEq, Eq, Structural, Clone, Copy)]
pub struct BoardSize(u16);

/// Why a board dimension was rejected.
#[derive(Debug, PartialEq, Eq, Structural, Clone, Copy)]
pub enum BoardSizeError {
    /// The dimension was odd.
    Odd,
}

impl BoardSize {
    /// The dimension in cells, for use in specifications.
    pub closed spec fn spec_size(&self) -> u16 {
        self.0
    }

    /// Validates a dimension; odd values are rejected.
    pub fn new(value: u16) -> (r: Result<BoardSize, BoardSizeError>)
        ensures
            value % 2 == 0 ==> (r matches Ok(s) && s.spec_size() == value),
            value % 2 != 0 ==> r == Result::<BoardSize, BoardSizeError>::Err(BoardSizeError::Odd),
    {
        if value % 2 == 0 {
            Ok(BoardSize(value))
        } else {
            Err(BoardSizeError::Odd)
        }
    }

    /// The dimension in cells.
    #[verifier::when_used_as_spec(spec_size)]
    pub fn size(&self) -> (r: u16)
        ensures
            r == self.spec_size(),
    {
        self.0
    }
}

/// One forced pass: who had to pass, and at which turn count.
#[derive(Debug, Clone, Copy)]
pub struct TurnStuckInfo {
    pub turn: Turn,
    pub turn_count: u16,
}

/// Whether the cell `j` steps out from `p` in direction `d` is on the board.
pub open spec fn ray_on(b: Board<Player>, p: BoardPosition, d: Direction, j: int) -> bool {
    b.in_range(p.stepped(d, j).0, p.stepped(d, j).1)
}

/// The cell `j` steps out from `p` in direction `d`.
pub open spec fn ray_cell(b: Board<Player>, p: BoardPosition, d: Direction, j: int) -> Player {
    b.spec_at(p.stepped(d, j).0, p.stepped(d, j).1)
}

/// The `n` cells directly after `p` in direction `d` are all on the board
/// and all hold the opponent's discs.
pub open spec fn opp_run(
    b: Board<Player>,
    mover: Player,
    p: BoardPosition,
    d: Direction,
    n: int,
) -> bool {
    forall|j: int|
        1 <= j <= n ==> #[trigger] ray_on(b, p, d, j) && ray_cell(b, p, d, j) == mover.spec_next()
}

/// An opposing run of `n` cells is on the board at each step.
proof fn lemma_opp_run_at(
    b: Board<Player>,
    mover: Player,
    p: BoardPosition,
    d: Direction,
    n: int,
    j: int,
)
    requires
        opp_run(b, mover, p, d, n),
        1 <= j <= n,
    ensures
        ray_on(b, p, d, j),
        ray_cell(b, p, d, j) == mover.spec_next(),
{
}

/// An opposing run grows by one cell when the next cell out also holds an
/// opposing disc.
proof fn lemma_opp_run_extend(b: Board<Player>, mover: Player, p: BoardPosition, d: Direction, n: int)
    requires
        0 <= n,
        opp_run(b, mover, p, d, n),
        ray_on(b, p, d, n + 1),
        ray_cell(b, p, d, n + 1) == mover.spec_next(),
    ensures
        opp_run(b, mover, p, d, n + 1),
{
    assert forall|j: int|
        1 <= j <= n + 1 implies #[trigger] ray_on(b, p, d, j) && ray_cell(b, p, d, j)
            == mover.spec_next() by {
        if j <= n {
            lemma_opp_run_at(b, mover, p, d, n, j);
        } else {
            assert(j == n + 1);
        }
        assert(ray_on(b, p, d, j));
        assert(ray_cell(b, p, d, j) == mover.spec_next());
    }
}

/// A closed flanking run for `mover` from `p` in direction `d`: the `n`
/// cells after `p` all hold the opponent's discs, and the cell after the run
/// is on the board and holds the mover's own disc.
pub open spec fn run_closed(
    b: Board<Player>,
    mover: Player,
    p: BoardPosition,
    d: Direction,
    n: int,
) -> bool {
    &&& 1 <= n
    &&& opp_run(b, mover, p, d, n)
    &&& ray_on(b, p, d, n + 1)
    &&& ray_cell(b, p, d, n + 1) == mover
}

/// Whether some closed flanking run for `mover` leaves `p` in direction `d`.
pub open spec fn flanks(b: Board<Player>, mover: Player, p: BoardPosition, d: Direction) -> bool {
    exists|n: int| #[trigger] run_closed(b, mover, p, d, n)
}

/// Whether placing `mover`'s disc at `p` is a legal move on `b`: `p` is an
/// empty cell on the board and at least one direction holds a closed
/// flanking run.
pub open spec fn is_legal(b: Board<Player>, mover: Player, p: BoardPosition) -> bool {
    &&& mover == Player::Black || mover == Player::White
    &&& b.in_range_pos(p)
    &&& b.spec_at(p.x as int, p.y as int) == Player::Empty
    &&& exists|d: Direction| #[trigger] flanks(b, mover, p, d)
}

/// Whether the cell at coordinates `q` is flipped when `mover` places at
/// `p`: it lies inside some closed flanking run from `p`.
pub open spec fn flips(b: Board<Player>, mover: Player, p: BoardPosition, q: (int, int)) -> bool {
    exists|d: Direction, n: int, j: int|
        #![trigger run_closed(b, mover, p, d, n), p.stepped(d, j)]
        run_closed(b, mover, p, d, n) && 1 <= j <= n && q == p.stepped(d, j)
}

/// Whether `mover` has at least one legal move anywhere on `b`.
pub open spec fn has_any_move(b: Board<Player>, mover: Player) -> bool {
    exists|p: BoardPosition| #[trigger] is_legal(b, mover, p)
}

/// The disc seeded at `(x, y)` on a fresh board of the given size: the four
/// canonical center cells hold the opening checkerboard, all others are
/// empty.
pub open spec fn seed_player(size: Size, x: int, y: int) -> Player {
    let cx = size.spec_x() / 2 - 1;
    let cy = size.spec_y() / 2 - 1;
    if x == cx && y == cy {
        Player::Black
    } else if x == cx + 1 && y == cy {
        Player::White
    } else if x == cx && y == cy + 1 {
        Player::White
    } else if x == cx + 1 && y == cy + 1 {
        Player::Black
    } else {
        Player::Empty
    }
}

/// Whether `b` holds exactly the opening position for its size.
pub open spec fn seeded(b: Board<Player>) -> bool {
    forall|x: int, y: int|
        b.in_range(x, y) ==> #[trigger] b.spec_at(x, y) == seed_player(b.spec_size(), x, y)
}

/// Builds the opening board for a validated size.
fn fresh_board(size: Size) -> (b: Board<Player>)
    requires
        2 <= size.spec_x(),
        2 <= size.spec_y(),
    ensures
        b.wf(),
        b.spec_size() == size,
        seeded(b),
{
    let mut b = Board::new(size, Player::Empty);
    let cx: i64 = (size.x() / 2 - 1) as i64;
    let cy: i64 = (size.y() / 2 - 1) as i64;
    let _ = b.set_cell(&BoardPosition { x: cx, y: cy }, Player::Black);
    let _ = b.set_cell(&BoardPosition { x: cx + 1, y: cy }, Player::White);
    let _ = b.set_cell(&BoardPosition { x: cx, y: cy + 1 }, Player::White);
    let _ = b.set_cell(&BoardPosition { x: cx + 1, y: cy + 1 }, Player::Black);
    b
}

/// Walks outward from `p` in direction `d` and measures `mover`'s closed
/// flanking run there: the number of consecutive opposing discs directly
/// after `p`, provided the cell after them holds the mover's own disc.
fn flank_run_length(
    board: &Board<Player>,
    mover: Player,
    p: BoardPosition,
    d: Direction,
) -> (r: Option<u16>)
    requires
        board.wf(),
        mover == Player::Black || mover == Player::White,
        -0x4000_0000_0000_0000 <= p.x <= 0x4000_0000_0000_0000,
        -0x4000_0000_0000_0000 <= p.y <= 0x4000_0000_0000_0000,
    ensures
        r matches Some(n) ==> run_closed(*board, mover, p, d, n as int),
        r is None ==> !flanks(*board, mover, p, d),
{
    let opponent = mover.next();
    let mut it = crate::board::scan::Iter::new(board, p, d, 1);
    let mut n: u16 = 0;
    loop
        invariant
            board.wf(),
            mover == Player::Black || mover == Player::White,
            opponent == mover.spec_next(),
            it.wf(),
            !it.spec_done(),
            it.spec_size() == board.spec_size(),
            it.spec_start() == p,
            it.spec_direction() == d,
            it.spec_step() == 1,
            it.spec_count() == n,
            opp_run(*board, mover, p, d, n as int),
        decreases 0x1_0000 - n,
    {
        let ghost m = (n + 1) as int;
        proof {
            assert(m * 1 == m) by (nonlinear_arith);
        }
        match it.next(board) {
            Some((_q, c)) => {
                proof {
                    crate::board::scan::lemma_count_bound(it);
                    assert(it.spec_count() * 1 == it.spec_count()) by (nonlinear_arith);
                    assert(n + 1 <= 0xFFFF);
                    assert(ray_on(*board, p, d, m));
                    assert(c == ray_cell(*board, p, d, m));
                }
                if c == opponent {
                    proof {
                        lemma_opp_run_extend(*board, mover, p, d, n as int);
                    }
                    n = n + 1;
                } else if c == mover {
                    if n >= 1 {
                        proof {
                            assert(run_closed(*board, mover, p, d, n as int));
                        }
                        return Some(n);
                    } else {
                        proof {
                            assert forall|k: int| !run_closed(*board, mover, p, d, k) by {
                                if run_closed(*board, mover, p, d, k) {
                                    lemma_opp_run_at(*board, mover, p, d, k, 1);
                                }
                            }
                        }
                        return None;
                    }
                } else {
                    proof {
                        assert forall|k: int| !run_closed(*board, mover, p, d, k) by {
                            if run_closed(*board, mover, p, d, k) {
                                if k + 1 <= n {
                                    lemma_opp_run_at(*board, mover, p, d, n as int, k + 1);
                                } else if k == n {
                                    assert(ray_cell(*board, p, d, m) == mover);
                                } else {
                                    lemma_opp_run_at(*board, mover, p, d, k, m);
                                }
                            }
                        }
                    }
                    return None;
                }
            },
            None => {
                proof {
                    assert forall|k: int| !run_closed(*board, mover, p, d, k) by {
                        if run_closed(*board, mover, p, d, k) {
                            if k + 1 <= n {
                                lemma_opp_run_at(*board, mover, p, d, n as int, k + 1);
                            } else if k == n {
                                assert(ray_on(*board, p, d, m));
                            } else {
                                lemma_opp_run_at(*board, mover, p, d, k, m);
                            }
                        }
                    }
                }
                return None;
            },
        }
    }
}

/// Decides whether placing `mover`'s disc at `p` is a legal move on
/// `board`.
pub fn is_legal_move(board: &Board<Player>, mover: Player, p: BoardPosition) -> (r: bool)
    requires
        board.wf(),
    ensures
        r == is_legal(*board, mover, p),
{
    if mover == Player::Empty {
        return false;
    }
    let sx = board.size().x();
    let sy = board.size().y();
    if !(p.x >= 0 && p.y >= 0 && p.x < sx as i64 && p.y < sy as i64) {
        return false;
    }
    match board.cell_ref(&p) {
        Some(c) => {
            if *c != Player::Empty {
                return false;
            }
        },
        None => {
            return false;
        },
    }
    let dirs = crate::board::direction::all_directions();
    let mut i: usize = 0;
    while i < dirs.len()
        invariant
            board.wf(),
            mover == Player::Black || mover == Player::White,
            board.in_range_pos(p),
            board.spec_at(p.x as int, p.y as int) == Player::Empty,
            i <= dirs@.len(),
            forall|d: Direction| dirs@.contains(d),
            forall|k: int| 0 <= k < i ==> !flanks(*board, mover, p, #[trigger] dirs@[k]),
        decreases dirs@.len() - i,
    {
        match flank_run_length(board, mover, p, dirs[i]) {
            Some(_n) => {
                proof {
                    assert(flanks(*board, mover, p, dirs@[i as int]));
                }
                return true;
            },
            None => {
                i += 1;
            },
        }
    }
    proof {
        assert forall|d: Direction| !flanks(*board, mover, p, d) by {
            assert(dirs@.contains(d));
            let k = choose|k: int| 0 <= k < dirs@.len() && dirs@[k] == d;
            assert(!flanks(*board, mover, p, dirs@[k]));
        }
    }
    false
}

/// Whether `q` comes strictly before column `x`, row `y` in row-major
/// order.
spec fn lex_before(q: BoardPosition, x: int, y: int) -> bool {
    q.x < x || (q.x == x && q.y < y)
}

/// Every legal position for `mover` on `board`, each exactly once.
pub fn legal_positions(board: &Board<Player>, mover: Player) -> (r: Vec<BoardPosition>)
    requires
        board.wf(),
    ensures
        forall|q: BoardPosition| r@.contains(q) <==> is_legal(*board, mover, q),
        forall|i: int, j: int| 0 <= i < j < r@.len() ==> r@[i] != r@[j],
{
    let sx = board.size().x();
    let sy = board.size().y();
    let mut r: Vec<BoardPosition> = Vec::new();
    let mut x: u16 = 0;
    while x < sx
        invariant
            board.wf(),
            sx == board.spec_size().spec_x(),
            sy == board.spec_size().spec_y(),
            x <= sx,
            forall|q: BoardPosition| r@.contains(q) ==> is_legal(*board, mover, q),
            forall|q: BoardPosition| r@.contains(q) ==> lex_before(q, x as int, 0),
            forall|q: BoardPosition|
                is_legal(*board, mover, q) && lex_before(q, x as int, 0) ==> r@.contains(q),
            forall|i: int, j: int| 0 <= i < j < r@.len() ==> r@[i] != r@[j],
        decreases sx - x,
    {
        let mut y: u16 = 0;
        while y < sy
            invariant
                board.wf(),
                sx == board.spec_size().spec_x(),
                sy == board.spec_size().spec_y(),
                x < sx,
                y <= sy,
                forall|q: BoardPosition| r@.contains(q) ==> is_legal(*board, mover, q),
                forall|q: BoardPosition| r@.contains(q) ==> lex_before(q, x as int, y as int),
                forall|q: BoardPosition|
                    is_legal(*board, mover, q) && lex_before(q, x as int, y as int)
                        ==> r@.contains(q),
                forall|i: int, j: int| 0 <= i < j < r@.len() ==> r@[i] != r@[j],
            decreases sy - y,
        {
            let pos = BoardPosition { x: x as i64, y: y as i64 };
            if is_legal_move(board, mover, pos) {
                let ghost r_old = r@;
                r.push(pos);
                proof {
                    assert forall|q: BoardPosition| r@.contains(q) implies is_legal(
                        *board,
                        mover,
                        q,
                    ) && lex_before(q, x as int, y as int + 1) by {
                        if r_old.contains(q) {
                        } else {
                            assert(q == pos);
                        }
                    }
                    assert forall|q: BoardPosition|
                        is_legal(*board, mover, q) && lex_before(q, x as int, y as int + 1)
                            implies r@.contains(q) by {
                        if lex_before(q, x as int, y as int) {
                            assert(r_old.contains(q));
                            let k = choose|k: int| 0 <= k < r_old.len() && r_old[k] == q;
                            assert(r@[k] == q);
                        } else {
                            assert(q == pos);
                            assert(r@[r@.len() - 1] == q);
                        }
                    }
                    assert forall|i: int, j: int|
                        0 <= i < j < r@.len() implies r@[i] != r@[j] by {
                        if j == r@.len() - 1 {
                            assert(r_old.contains(r_old[i]));
                            assert(lex_before(r@[i], x as int, y as int));
                        }
                    }
                }
            } else {
                proof {
                    assert forall|q: BoardPosition|
                        is_legal(*board, mover, q) && lex_before(q, x as int, y as int + 1)
                            implies r@.contains(q) by {
                        if !lex_before(q, x as int, y as int) {
                            assert(q == pos);
                        }
                    }
                }
            }
            y += 1;
        }
        proof {
            assert forall|q: BoardPosition|
                is_legal(*board, mover, q) && lex_before(q, x as int + 1, 0)
                    implies r@.contains(q) by {
                if !lex_before(q, x as int, sy as int) {
                    assert(q.x == x as int);
                    assert(board.in_range_pos(q));
                }
            }
        }
        x += 1;
    }
    proof {
        assert forall|q: BoardPosition| is_legal(*board, mover, q) implies r@.contains(q) by {
            assert(board.in_range_pos(q));
            assert(lex_before(q, sx as int, 0));
        }
    }
    r
}

/// The position with the given coordinates.
pub open spec fn pos_of(q: (int, int)) -> BoardPosition {
    BoardPosition { x: q.0 as i64, y: q.1 as i64 }
}

/// A direction holds at most one closed flanking run.
proof fn lemma_run_unique(
    b: Board<Player>,
    mover: Player,
    p: BoardPosition,
    d: Direction,
    n1: int,
    n2: int,
)
    requires
        mover == Player::Black || mover == Player::White,
        run_closed(b, mover, p, d, n1),
        run_closed(b, mover, p, d, n2),
    ensures
        n1 == n2,
{
    if n1 < n2 {
        lemma_opp_run_at(b, mover, p, d, n2, n1 + 1);
        assert(ray_cell(b, p, d, n1 + 1) == mover);
    }
    if n2 < n1 {
        lemma_opp_run_at(b, mover, p, d, n1, n2 + 1);
        assert(ray_cell(b, p, d, n2 + 1) == mover);
    }
}

/// A cell reached by walking out from `p` determines the walk: distinct
/// directions or distinct step counts land on distinct cells.
proof fn lemma_step_injective(p: BoardPosition, d1: Direction, j1: int, d2: Direction, j2: int)
    requires
        1 <= j1,
        1 <= j2,
        p.stepped(d1, j1) == p.stepped(d2, j2),
    ensures
        d1 == d2,
        j1 == j2,
{
    crate::board::direction::lemma_direction_moves(d1);
    crate::board::direction::lemma_direction_moves(d2);
    assert(j1 * d1.dx() == (if d1.dx() == 1 { j1 } else if d1.dx() == -1 { -j1 } else { 0 }))
        by (nonlinear_arith)
        requires
            d1.dx() == 1 || d1.dx() == -1 || d1.dx() == 0,
    ;
    assert(j1 * d1.dy() == (if d1.dy() == 1 { j1 } else if d1.dy() == -1 { -j1 } else { 0 }))
        by (nonlinear_arith)
        requires
            d1.dy() == 1 || d1.dy() == -1 || d1.dy() == 0,
    ;
    assert(j2 * d2.dx() == (if d2.dx() == 1 { j2 } else if d2.dx() == -1 { -j2 } else { 0 }))
        by (nonlinear_arith)
        requires
            d2.dx() == 1 || d2.dx() == -1 || d2.dx() == 0,
    ;
    assert(j2 * d2.dy() == (if d2.dy() == 1 { j2 } else if d2.dy() == -1 { -j2 } else { 0 }))
        by (nonlinear_arith)
        requires
            d2.dy() == 1 || d2.dy() == -1 || d2.dy() == 0,
    ;
    assert(j1 * d1.dx() == j2 * d2.dx());
    assert(j1 * d1.dy() == j2 * d2.dy());
    assert(d1.dx() == d2.dx() && d1.dy() == d2.dy() && j1 == j2);
    assert(d1 == d2);
}

/// Stepping at least once always leaves the starting coordinates.
proof fn lemma_step_off_start(p: BoardPosition, d: Direction, j: int)
    requires
        1 <= j,
    ensures
        p.stepped(d, j) != (p.x as int, p.y as int),
{
    crate::board::direction::lemma_direction_moves(d);
    if d.dx() != 0 {
        assert(j * d.dx() != 0) by (nonlinear_arith)
            requires
                1 <= j,
                d.dx() == 1 || d.dx() == -1,
        ;
    } else {
        assert(j * d.dy() != 0) by (nonlinear_arith)
            requires
                1 <= j,
                d.dy() == 1 || d.dy() == -1,
        ;
    }
}

/// A flipped cell is on the board and is not the placed cell itself.
proof fn lemma_flips_props(b: Board<Player>, mover: Player, p: BoardPosition, q: (int, int))
    requires
        flips(b, mover, p, q),
    ensures
        b.in_range(q.0, q.1),
        q != (p.x as int, p.y as int),
{
    let (d, n, j) = choose|d: Direction, n: int, j: int|
        #![trigger run_closed(b, mover, p, d, n), p.stepped(d, j)]
        run_closed(b, mover, p, d, n) && 1 <= j <= n && q == p.stepped(d, j);
    lemma_opp_run_at(b, mover, p, d, n, j);
    lemma_step_off_start(p, d, j);
}

/// Every cell of `d`'s closed run, if any, already stands in `flipped`.
spec fn dir_flips_covered(
    b0: Board<Player>,
    player: Player,
    pos: BoardPosition,
    d: Direction,
    flipped: Seq<BoardPosition>,
) -> bool {
    forall|n: int, j: int|
        #![trigger run_closed(b0, player, pos, d, n), pos.stepped(d, j)]
        run_closed(b0, player, pos, d, n) && 1 <= j <= n ==> flipped.contains(
            pos_of(pos.stepped(d, j)),
        )
}

/// Growing the collected list never uncovers a direction.
proof fn lemma_covered_push(
    b0: Board<Player>,
    player: Player,
    pos: BoardPosition,
    d: Direction,
    s: Seq<BoardPosition>,
    q: BoardPosition,
)
    requires
        dir_flips_covered(b0, player, pos, d, s),
    ensures
        dir_flips_covered(b0, player, pos, d, s.push(q)),
{
    assert forall|n: int, j: int|
        #![trigger run_closed(b0, player, pos, d, n), pos.stepped(d, j)]
        run_closed(b0, player, pos, d, n) && 1 <= j <= n implies s.push(q).contains(
        pos_of(pos.stepped(d, j)),
    ) by {
        assert(s.contains(pos_of(pos.stepped(d, j))));
        let idx = choose|idx: int| 0 <= idx < s.len() && s[idx] == pos_of(pos.stepped(d, j));
        assert(s.push(q)[idx] == pos_of(pos.stepped(d, j)));
    }
}

/// The provenance of one collected flip: it is the cell `jj` steps out
/// along direction `k` of the direction list, within the portion of the
/// walk already collected — a finished direction, or the current one up to
/// the current step.
spec fn from_run(
    b0: Board<Player>,
    pos: BoardPosition,
    dirs: Seq<Direction>,
    di: int,
    jcur: int,
    q: BoardPosition,
) -> bool {
    exists|k: int, jj: int|
        #![trigger pos.stepped(dirs[k], jj)]
        0 <= k < dirs.len() && 1 <= jj && (k < di || (k == di && jj <= jcur)) && ray_on(
            b0,
            pos,
            dirs[k],
            jj,
        ) && q == pos_of(pos.stepped(dirs[k], jj))
}

/// Provenance within a smaller collected portion also holds within any
/// larger one.
proof fn lemma_from_run_weaken(
    b0: Board<Player>,
    pos: BoardPosition,
    dirs: Seq<Direction>,
    di1: int,
    j1: int,
    di2: int,
    j2: int,
    q: BoardPosition,
)
    requires
        from_run(b0, pos, dirs, di1, j1, q),
        di1 < di2 || (di1 == di2 && j1 <= j2),
    ensures
        from_run(b0, pos, dirs, di2, j2, q),
{
    let (k, jj) = choose|k: int, jj: int|
        #![trigger pos.stepped(dirs[k], jj)]
        0 <= k < dirs.len() && 1 <= jj && (k < di1 || (k == di1 && jj <= j1)) && ray_on(
            b0,
            pos,
            dirs[k],
            jj,
        ) && q == pos_of(pos.stepped(dirs[k], jj));
    assert(0 <= k < dirs.len() && 1 <= jj && (k < di2 || (k == di2 && jj <= j2)) && ray_on(
        b0,
        pos,
        dirs[k],
        jj,
    ) && q == pos_of(pos.stepped(dirs[k], jj)));
}

/// Whether `mover` can place a disc anywhere on `board`.
pub fn has_legal_move(board: &Board<Player>, mover: Player) -> (r: bool)
    requires
        board.wf(),
    ensures
        r == has_any_move(*board, mover),
{
    let moves = legal_positions(board, mover);
    if moves.len() > 0 {
        proof {
            assert(moves@.contains(moves@[0]));
            assert(is_legal(*board, mover, moves@[0]));
        }
        true
    } else {
        proof {
            assert forall|q: BoardPosition| !is_legal(*board, mover, q) by {
                if is_legal(*board, mover, q) {
                    assert(moves@.contains(q));
                }
            }
        }
        false
    }
}

/// Why a placement request was rejected.
#[derive(Debug, PartialEq, Eq, Structural, Clone, Copy)]
pub enum PlaceError {
    /// The request was out of turn, off the board, on an occupied cell, or
    /// flanked no opposing run.
    IllegalMove,
}

/// Two consecutive forced passes by alternating turns: the game is over.
pub open spec fn stuck_pair(last: TurnStuckInfo, prev: TurnStuckInfo) -> bool {
    last.turn_count == prev.turn_count + 1 && last.turn.spec_next() == prev.turn
}

/// The whole state of one running game.
#[derive(Debug)]
pub struct GameData {
    first_turn: Turn,
    turn: Turn,
    turn_count: u16,
    board: Board<Player>,
    turn_stuck_info_list: Vec<TurnStuckInfo>,
}

impl GameData {
    /// The turn the game started with, for use in specifications.
    pub closed spec fn spec_first_turn(&self) -> Turn {
        self.first_turn
    }

    /// The active turn, for use in specifications.
    pub closed spec fn spec_turn(&self) -> Turn {
        self.turn
    }

    /// How many turns have been taken, for use in specifications.
    pub closed spec fn spec_turn_count(&self) -> u16 {
        self.turn_count
    }

    /// The board, for use in specifications.
    pub closed spec fn spec_board(&self) -> Board<Player> {
        self.board
    }

    /// The forced-pass log, for use in specifications.
    pub closed spec fn spec_stuck_list(&self) -> Seq<TurnStuckInfo> {
        self.turn_stuck_info_list@
    }

    /// The board is consistent and large enough to hold the opening seed.
    pub open spec fn wf(&self) -> bool {
        &&& self.spec_board().wf()
        &&& 2 <= self.spec_board().spec_size().spec_x()
        &&& 2 <= self.spec_board().spec_size().spec_y()
    }

    /// Whether the two most recent forced passes were back to back, one per
    /// player: the terminal condition.
    pub open spec fn spec_game_over(&self) -> bool {
        let l = self.spec_stuck_list();
        l.len() >= 2 && stuck_pair(l[l.len() - 1], l[l.len() - 2])
    }

    /// Starts a game: `first_turn` moves first on a board seeded with the
    /// four canonical center discs.
    pub fn new(first_turn: Turn, board_size_x: BoardSize, board_size_y: BoardSize) -> (g: GameData)
        requires
            2 <= board_size_x.spec_size(),
            2 <= board_size_y.spec_size(),
        ensures
            g.wf(),
            g.spec_first_turn() == first_turn,
            g.spec_turn() == first_turn,
            g.spec_turn_count() == 0,
            g.spec_stuck_list().len() == 0,
            g.spec_board().spec_size().spec_x() == board_size_x.spec_size(),
            g.spec_board().spec_size().spec_y() == board_size_y.spec_size(),
            seeded(g.spec_board()),
    {
        let size = match Size::new(board_size_x.size(), board_size_y.size()) {
            Ok(s) => s,
            Err(_) => unreached(),
        };
        GameData {
            first_turn,
            turn: first_turn,
            turn_count: 0,
            board: fresh_board(size),
            turn_stuck_info_list: Vec::new(),
        }
    }

    /// The active turn.
    pub fn turn(&self) -> (t: &Turn)
        ensures
            *t == self.spec_turn(),
    {
        &self.turn
    }

    /// How many turns have been taken so far.
    pub fn turn_count(&self) -> (c: u16)
        ensures
            c == self.spec_turn_count(),
    {
        self.turn_count
    }

    /// The player whose disc a placement would stamp now.
    pub fn current_player(&self) -> (p: Player)
        ensures
            p == self.spec_turn().spec_player(),
    {
        self.turn.player()
    }

    /// The opponent of the active player.
    pub fn opposite_player(&self) -> (p: Player)
        ensures
            p == self.spec_turn().spec_player().spec_next(),
    {
        self.current_player().next()
    }

    /// Hands the turn to the other player and counts it.
    pub fn next_turn(&mut self)
        requires
            old(self).spec_turn_count() < u16::MAX,
        ensures
            final(self).spec_turn() == old(self).spec_turn().spec_next(),
            final(self).spec_turn_count() == old(self).spec_turn_count() + 1,
            final(self).spec_first_turn() == old(self).spec_first_turn(),
            final(self).spec_board() == old(self).spec_board(),
            final(self).spec_stuck_list() == old(self).spec_stuck_list(),
    {
        self.turn.next_mut();
        self.turn_count = self.turn_count + 1;
    }

    /// A read-only view of the board, for rendering and queries.
    pub fn board(&self) -> (b: &Board<Player>)
        ensures
            *b == self.spec_board(),
    {
        &self.board
    }

    /// Exclusive access to the board, for callers that stamp cells
    /// directly; the rest of the game state is untouched.
    pub fn board_mut(&mut self) -> (b: &mut Board<Player>)
        ensures
            *b == old(self).spec_board(),
            final(self).spec_board() == *final(b),
            final(self).spec_turn() == old(self).spec_turn(),
            final(self).spec_turn_count() == old(self).spec_turn_count(),
            final(self).spec_first_turn() == old(self).spec_first_turn(),
            final(self).spec_stuck_list() == old(self).spec_stuck_list(),
    {
        &mut self.board
    }

    /// Records that the active player had no legal move and passed.
    pub fn notify_turn_stuck(&mut self)
        ensures
            final(self).spec_stuck_list() == old(self).spec_stuck_list().push(
                TurnStuckInfo { turn: old(self).spec_turn(), turn_count: old(self).spec_turn_count() },
            ),
            final(self).spec_turn() == old(self).spec_turn(),
            final(self).spec_turn_count() == old(self).spec_turn_count(),
            final(self).spec_first_turn() == old(self).spec_first_turn(),
            final(self).spec_board() == old(self).spec_board(),
    {
        let new_info = TurnStuckInfo { turn: self.turn, turn_count: self.turn_count };
        self.turn_stuck_info_list.push(new_info);
    }

    /// Whether the two most recent forced passes were for alternating turns
    /// at consecutive turn counts — the game has reached full stalemate.
    pub fn is_turn_stuck(&self) -> (r: bool)
        ensures
            r == self.spec_game_over(),
    {
        let len = self.turn_stuck_info_list.len();
        if len < 2 {
            return false;
        }
        let last = self.turn_stuck_info_list[len - 1];
        let prev = self.turn_stuck_info_list[len - 2];
        let is_consecutive = last.turn_count as u32 == prev.turn_count as u32 + 1;
        let both_stuck = last.turn.next() == prev.turn;
        is_consecutive && both_stuck
    }

    /// Whether the game is over; scores are final once this holds.
    pub fn is_game_over(&self) -> (r: bool)
        ensures
            r == self.spec_game_over(),
    {
        self.is_turn_stuck()
    }

    /// Every position where the given player may currently place a disc,
    /// each exactly once. Callers must not rely on the order of the
    /// positions.
    pub fn legal_moves_for(&self, player: Player) -> (r: Vec<BoardPosition>)
        requires
            self.wf(),
        ensures
            forall|q: BoardPosition| r@.contains(q) <==> is_legal(self.spec_board(), player, q),
            forall|i: int, j: int| 0 <= i < j < r@.len() ==> r@[i] != r@[j],
    {
        legal_positions(&self.board, player)
    }

    /// Places `player`'s disc at `pos`: stamps the cell and flips every
    /// opposing run the placement closes, returning the flipped positions.
    /// An illegal request — out of turn, off the board, an occupied cell,
    /// or no flanked run — is rejected and changes nothing.
    pub fn place(&mut self, player: Player, pos: BoardPosition) -> (r: Result<
        Vec<BoardPosition>,
        PlaceError,
    >)
        requires
            old(self).wf(),
        ensures
            final(self).wf(),
            r is Ok <==> (player == old(self).spec_turn().spec_player() && is_legal(
                old(self).spec_board(),
                player,
                pos,
            )),
            r is Err ==> *final(self) == *old(self) && r == Result::<
                Vec<BoardPosition>,
                PlaceError,
            >::Err(PlaceError::IllegalMove),
            r matches Ok(flipped) ==> ({
                let b0 = old(self).spec_board();
                let b1 = final(self).spec_board();
                &&& b1.spec_size() == b0.spec_size()
                &&& b1.spec_at(pos.x as int, pos.y as int) == player
                &&& forall|x: int, y: int|
                    b0.in_range(x, y) && !(x == pos.x as int && y == pos.y as int)
                        ==> #[trigger] b1.spec_at(x, y) == (if flips(b0, player, pos, (x, y)) {
                        player
                    } else {
                        b0.spec_at(x, y)
                    })
                &&& forall|q: BoardPosition|
                    flipped@.contains(q) <==> flips(b0, player, pos, (q.x as int, q.y as int))
                &&& forall|i: int, j: int| 0 <= i < j < flipped@.len() ==> flipped@[i] != flipped@[j]
                &&& final(self).spec_turn() == old(self).spec_turn()
                &&& final(self).spec_turn_count() == old(self).spec_turn_count()
                &&& final(self).spec_first_turn() == old(self).spec_first_turn()
                &&& final(self).spec_stuck_list() == old(self).spec_stuck_list()
            }),
    {
        let current = self.current_player();
        if player != current {
            return Err(PlaceError::IllegalMove);
        }
        if !is_legal_move(&self.board, player, pos) {
            return Err(PlaceError::IllegalMove);
        }
        let ghost g0 = *self;
        let ghost b0 = g0.spec_board();

        // Collect every cell the placement flips, direction by direction,
        // against the still-unchanged board.
        let dirs = crate::board::direction::all_directions();
        let mut flipped: Vec<BoardPosition> = Vec::new();
        let mut di: usize = 0;
        while di < dirs.len()
            invariant
                *self == g0,
                g0.wf(),
                b0 == g0.spec_board(),
                player == Player::Black || player == Player::White,
                is_legal(b0, player, pos),
                b0.in_range_pos(pos),
                di <= dirs@.len(),
                forall|d: Direction| dirs@.contains(d),
                forall|k1: int, k2: int| 0 <= k1 < k2 < dirs@.len() ==> dirs@[k1] != dirs@[k2],
                forall|qq: BoardPosition| #[trigger]
                    flipped@.contains(qq) ==> flips(b0, player, pos, (qq.x as int, qq.y as int)),
                forall|k: int|
                    0 <= k < di ==> dir_flips_covered(b0, player, pos, #[trigger] dirs@[k], flipped@),
                forall|idx: int|
                    0 <= idx < flipped@.len() ==> from_run(
                        b0,
                        pos,
                        dirs@,
                        di as int,
                        0,
                        #[trigger] flipped@[idx],
                    ),
                forall|i1: int, i2: int| 0 <= i1 < i2 < flipped@.len() ==> flipped@[i1] != flipped@[i2],
            decreases dirs@.len() - di,
        {
            let d = dirs[di];
            match flank_run_length(&self.board, player, pos, d) {
                Some(n) => {
                    let mut cursor = pos;
                    let mut j: u16 = 0;
                    proof {
                        assert(0 * d.dx() == 0 && 0 * d.dy() == 0) by (nonlinear_arith);
                    }
                    while j < n
                        invariant
                            *self == g0,
                            g0.wf(),
                            b0 == g0.spec_board(),
                            player == Player::Black || player == Player::White,
                            b0.in_range_pos(pos),
                            run_closed(b0, player, pos, d, n as int),
                            d == dirs@[di as int],
                            di < dirs@.len(),
                            j <= n,
                            cursor.x == pos.stepped(d, j as int).0,
                            cursor.y == pos.stepped(d, j as int).1,
                            forall|qq: BoardPosition| #[trigger]
                                flipped@.contains(qq) ==> flips(
                                    b0,
                                    player,
                                    pos,
                                    (qq.x as int, qq.y as int),
                                ),
                            forall|k: int|
                                0 <= k < di ==> dir_flips_covered(
                                    b0,
                                    player,
                                    pos,
                                    #[trigger] dirs@[k],
                                    flipped@,
                                ),
                            forall|jj: int|
                                1 <= jj <= j ==> flipped@.contains(
                                    pos_of(#[trigger] pos.stepped(d, jj)),
                                ),
                            forall|k1: int, k2: int|
                                0 <= k1 < k2 < dirs@.len() ==> dirs@[k1] != dirs@[k2],
                            forall|idx: int|
                                0 <= idx < flipped@.len() ==> from_run(
                                    b0,
                                    pos,
                                    dirs@,
                                    di as int,
                                    j as int,
                                    #[trigger] flipped@[idx],
                                ),
                            forall|i1: int, i2: int|
                                0 <= i1 < i2 < flipped@.len() ==> flipped@[i1] != flipped@[i2],
                        decreases n - j,
                    {
                        proof {
                            crate::board::direction::lemma_direction_moves(d);
                            if j >= 1 {
                                lemma_opp_run_at(b0, player, pos, d, n as int, j as int);
                            }
                            lemma_opp_run_at(b0, player, pos, d, n as int, j as int + 1);
                            assert((j + 1) * d.dx() == j * d.dx() + 1 * d.dx())
                                by (nonlinear_arith);
                            assert((j + 1) * d.dy() == j * d.dy() + 1 * d.dy())
                                by (nonlinear_arith);
                        }
                        cursor.apply_direction(&d, 1);
                        j += 1;
                        proof {
                            assert(cursor.x == pos.stepped(d, j as int).0);
                            assert(cursor.y == pos.stepped(d, j as int).1);
                        }
                        let ghost f_old = flipped@;
                        flipped.push(cursor);
                        proof {
                            assert(pos_of(pos.stepped(d, j as int)) == cursor);
                            assert(flips(b0, player, pos, (cursor.x as int, cursor.y as int)));
                            assert forall|qq: BoardPosition| #[trigger]
                                flipped@.contains(qq) implies flips(
                                b0,
                                player,
                                pos,
                                (qq.x as int, qq.y as int),
                            ) by {
                                let idx = choose|idx: int|
                                    0 <= idx < flipped@.len() && flipped@[idx] == qq;
                                if idx < f_old.len() {
                                    assert(f_old[idx] == qq);
                                    assert(f_old.contains(qq));
                                } else {
                                    assert(qq == cursor);
                                }
                            }
                            assert forall|k: int| 0 <= k < di implies dir_flips_covered(
                                b0,
                                player,
                                pos,
                                #[trigger] dirs@[k],
                                flipped@,
                            ) by {
                                lemma_covered_push(b0, player, pos, dirs@[k], f_old, cursor);
                            }
                            assert forall|jj: int| 1 <= jj <= j implies flipped@.contains(
                                pos_of(#[trigger] pos.stepped(d, jj)),
                            ) by {
                                if jj < j {
                                    assert(f_old.contains(pos_of(pos.stepped(d, jj))));
                                    let idx = choose|idx: int|
                                        0 <= idx < f_old.len() && f_old[idx] == pos_of(
                                            pos.stepped(d, jj),
                                        );
                                    assert(flipped@[idx] == pos_of(pos.stepped(d, jj)));
                                } else {
                                    assert(flipped@[flipped@.len() - 1] == cursor);
                                }
                            }
                            assert forall|idx: int| 0 <= idx < flipped@.len() implies from_run(
                                b0,
                                pos,
                                dirs@,
                                di as int,
                                j as int,
                                #[trigger] flipped@[idx],
                            ) by {
                                if idx < f_old.len() {
                                    assert(flipped@[idx] == f_old[idx]);
                                    lemma_from_run_weaken(
                                        b0,
                                        pos,
                                        dirs@,
                                        di as int,
                                        j as int - 1,
                                        di as int,
                                        j as int,
                                        f_old[idx],
                                    );
                                } else {
                                    assert(flipped@[idx] == cursor);
                                    assert(ray_on(b0, pos, dirs@[di as int], j as int));
                                    assert(cursor == pos_of(
                                        pos.stepped(dirs@[di as int], j as int),
                                    ));
                                }
                            }
                            assert forall|i1: int, i2: int|
                                0 <= i1 < i2 < flipped@.len() implies flipped@[i1]
                                    != flipped@[i2] by {
                                if i2 == flipped@.len() - 1 && flipped@[i1] == cursor {
                                    assert(from_run(
                                        b0,
                                        pos,
                                        dirs@,
                                        di as int,
                                        j as int - 1,
                                        f_old[i1],
                                    ));
                                    let (k, jj) = choose|k: int, jj: int|
                                        #![trigger pos.stepped(dirs@[k], jj)]
                                        0 <= k < dirs@.len() && 1 <= jj && (k < di || (k == di
                                            && jj <= j - 1)) && ray_on(b0, pos, dirs@[k], jj)
                                            && f_old[i1] == pos_of(pos.stepped(dirs@[k], jj));
                                    assert(pos_of(pos.stepped(dirs@[k], jj)) == pos_of(
                                        pos.stepped(d, j as int),
                                    ));
                                    assert(pos.stepped(dirs@[k], jj) == pos.stepped(
                                        d,
                                        j as int,
                                    ));
                                    lemma_step_injective(pos, dirs@[k], jj, d, j as int);
                                }
                            }
                        }
                    }
                    proof {
                        assert forall|nn: int, jj: int|
                            #![trigger run_closed(b0, player, pos, d, nn), pos.stepped(d, jj)]
                            run_closed(b0, player, pos, d, nn) && 1 <= jj <= nn implies flipped@
                            .contains(pos_of(pos.stepped(d, jj))) by {
                            lemma_run_unique(b0, player, pos, d, nn, n as int);
                        }
                        assert(dir_flips_covered(b0, player, pos, dirs@[di as int], flipped@));
                        assert forall|idx: int| 0 <= idx < flipped@.len() implies from_run(
                            b0,
                            pos,
                            dirs@,
                            di as int + 1,
                            0,
                            #[trigger] flipped@[idx],
                        ) by {
                            lemma_from_run_weaken(
                                b0,
                                pos,
                                dirs@,
                                di as int,
                                j as int,
                                di as int + 1,
                                0,
                                flipped@[idx],
                            );
                        }
                    }
                },
                None => {
                    proof {
                        assert forall|nn: int, jj: int|
                            #![trigger run_closed(b0, player, pos, d, nn), pos.stepped(d, jj)]
                            run_closed(b0, player, pos, d, nn) && 1 <= jj <= nn implies flipped@
                            .contains(pos_of(pos.stepped(d, jj))) by {
                            assert(flanks(b0, player, pos, d));
                        }
                        assert(dir_flips_covered(b0, player, pos, dirs@[di as int], flipped@));
                        assert forall|idx: int| 0 <= idx < flipped@.len() implies from_run(
                            b0,
                            pos,
                            dirs@,
                            di as int + 1,
                            0,
                            #[trigger] flipped@[idx],
                        ) by {
                            lemma_from_run_weaken(
                                b0,
                                pos,
                                dirs@,
                                di as int,
                                0,
                                di as int + 1,
                                0,
                                flipped@[idx],
                            );
                        }
                    }
                },
            }
            di += 1;
        }
        proof {
            assert forall|qq: BoardPosition|
                flips(b0, player, pos, (qq.x as int, qq.y as int)) implies flipped@.contains(
                qq,
            ) by {
                let (d, nn, jj) = choose|d: Direction, nn: int, jj: int|
                    #![trigger run_closed(b0, player, pos, d, nn), pos.stepped(d, jj)]
                    run_closed(b0, player, pos, d, nn) && 1 <= jj <= nn && (
                    qq.x as int,
                    qq.y as int,
                ) == pos.stepped(d, jj);
                assert(dirs@.contains(d));
                let k = choose|k: int| 0 <= k < dirs@.len() && dirs@[k] == d;
                assert(dir_flips_covered(b0, player, pos, dirs@[k], flipped@));
                assert(flipped@.contains(pos_of(pos.stepped(d, jj))));
                lemma_opp_run_at(b0, player, pos, d, nn, jj);
                assert(pos_of(pos.stepped(d, jj)) == qq);
            }
        }

        // Stamp the placed disc, then turn over every collected cell.
        let _ = self.board.set_cell(&pos, player);
        let mut i: usize = 0;
        while i < flipped.len()
            invariant
                self.spec_board().wf(),
                self.spec_board().spec_size() == b0.spec_size(),
                self.spec_turn() == g0.spec_turn(),
                self.spec_turn_count() == g0.spec_turn_count(),
                self.spec_first_turn() == g0.spec_first_turn(),
                self.spec_stuck_list() == g0.spec_stuck_list(),
                g0.wf(),
                b0 == g0.spec_board(),
                player == Player::Black || player == Player::White,
                b0.in_range_pos(pos),
                i <= flipped@.len(),
                forall|qq: BoardPosition| #[trigger]
                    flipped@.contains(qq) ==> flips(b0, player, pos, (qq.x as int, qq.y as int)),
                forall|qq: BoardPosition|
                    flips(b0, player, pos, (qq.x as int, qq.y as int)) ==> #[trigger] flipped@
                        .contains(qq),
                self.spec_board().spec_at(pos.x as int, pos.y as int) == player,
                forall|i1: int, i2: int| 0 <= i1 < i2 < flipped@.len() ==> flipped@[i1] != flipped@[i2],
                forall|x: int, y: int|
                    b0.in_range(x, y) && !(x == pos.x as int && y == pos.y as int)
                        ==> #[trigger] self.spec_board().spec_at(x, y) == (if exists|kk: int|
                        0 <= kk < i && (#[trigger] flipped@[kk]).x == x && flipped@[kk].y == y {
                        player
                    } else {
                        b0.spec_at(x, y)
                    }),
            decreases flipped@.len() - i,
        {
            let q = flipped[i];
            let ghost bprev = self.spec_board();
            proof {
                assert(flipped@[i as int] == q);
                assert(flipped@.contains(q));
                lemma_flips_props(b0, player, pos, (q.x as int, q.y as int));
            }
            let _ = self.board.set_cell(&q, player);
            i += 1;
            proof {
                assert forall|x: int, y: int|
                    b0.in_range(x, y) && !(x == pos.x as int && y == pos.y as int)
                        implies #[trigger] self.spec_board().spec_at(x, y) == (if exists|kk: int|
                        0 <= kk < i && (#[trigger] flipped@[kk]).x == x && flipped@[kk].y == y {
                        player
                    } else {
                        b0.spec_at(x, y)
                    }) by {
                    if x == q.x as int && y == q.y as int {
                        assert(self.spec_board().spec_at(x, y) == player);
                        assert(0 <= i - 1 < i && flipped@[i - 1].x == x && flipped@[i - 1].y == y);
                    } else {
                        assert(self.spec_board().spec_at(x, y) == bprev.spec_at(x, y));
                        if exists|kk: int|
                            0 <= kk < i && (#[trigger] flipped@[kk]).x == x && flipped@[kk].y
                                == y {
                            let kk = choose|kk: int|
                                0 <= kk < i && (#[trigger] flipped@[kk]).x == x && flipped@[kk].y
                                    == y;
                            assert(kk != i - 1);
                            assert(0 <= kk < i - 1 && flipped@[kk].x == x && flipped@[kk].y == y);
                        }
                    }
                }
            }
        }
        proof {
            assert forall|x: int, y: int|
                b0.in_range(x, y) && !(x == pos.x as int && y == pos.y as int)
                    implies #[trigger] self.spec_board().spec_at(x, y) == (if flips(
                b0,
                player,
                pos,
                (x, y),
            ) {
                player
            } else {
                b0.spec_at(x, y)
            }) by {
                let qq = pos_of((x, y));
                assert(qq.x as int == x && qq.y as int == y);
                if flips(b0, player, pos, (x, y)) {
                    assert(flipped@.contains(qq));
                    let kk = choose|kk: int| 0 <= kk < flipped@.len() && flipped@[kk] == qq;
                    assert(0 <= kk < flipped@.len() && flipped@[kk].x == x && flipped@[kk].y == y);
                } else {
                    if exists|kk: int|
                        0 <= kk < flipped@.len() && (#[trigger] flipped@[kk]).x == x
                            && flipped@[kk].y == y {
                        let kk = choose|kk: int|
                            0 <= kk < flipped@.len() && (#[trigger] flipped@[kk]).x == x
                                && flipped@[kk].y == y;
                        assert(flipped@[kk] == qq);
                        assert(flipped@.contains(qq));
                    }
                }
            }
        }
        Ok(flipped)
    }

    /// Hands the turn to the opponent. If the player now at turn has no
    /// legal move they silently pass: the pass is recorded and the turn
    /// moves on again without requiring a placement; if the player who just
    /// moved has no move either, that second forced pass is recorded too
    /// and the game is over.
    pub fn advance_turn(&mut self)
        requires
            old(self).wf(),
            old(self).spec_turn_count() + 2 <= u16::MAX,
        ensures
            final(self).wf(),
            final(self).spec_board() == old(self).spec_board(),
            final(self).spec_first_turn() == old(self).spec_first_turn(),
            ({
                let b = old(self).spec_board();
                let t1 = old(self).spec_turn().spec_next();
                let t2 = old(self).spec_turn();
                let c = old(self).spec_turn_count();
                let l = old(self).spec_stuck_list();
                let pass1 = (TurnStuckInfo { turn: t1, turn_count: (c + 1) as u16 });
                let pass2 = (TurnStuckInfo { turn: t2, turn_count: (c + 2) as u16 });
                &&& has_any_move(b, t1.spec_player()) ==> {
                    &&& final(self).spec_turn() == t1
                    &&& final(self).spec_turn_count() == c + 1
                    &&& final(self).spec_stuck_list() == l
                }
                &&& !has_any_move(b, t1.spec_player()) && has_any_move(b, t2.spec_player()) ==> {
                    &&& final(self).spec_turn() == t2
                    &&& final(self).spec_turn_count() == c + 2
                    &&& final(self).spec_stuck_list() == l.push(pass1)
                }
                &&& !has_any_move(b, t1.spec_player()) && !has_any_move(b, t2.spec_player()) ==> {
                    &&& final(self).spec_turn() == t2
                    &&& final(self).spec_turn_count() == c + 2
                    &&& final(self).spec_stuck_list() == l.push(pass1).push(pass2)
                    &&& final(self).spec_game_over()
                }
            }),
    {
        self.next_turn();
        let active = self.current_player();
        if !has_legal_move(&self.board, active) {
            self.notify_turn_stuck();
            self.next_turn();
            let active2 = self.current_player();
            if !has_legal_move(&self.board, active2) {
                self.notify_turn_stuck();
            }
        }
    }

    /// Counts the discs on the board: black's total first, white's second.
    pub fn scores(&self) -> (r: (u32, u32))
        requires
            self.wf(),
        ensures
            r.0 == count_of(self.spec_board(), Player::Black),
            r.1 == count_of(self.spec_board(), Player::White),
    {
        let sx = self.board.size().x();
        let sy = self.board.size().y();
        let ghost b = self.spec_board();
        let mut black: u32 = 0;
        let mut white: u32 = 0;
        let mut x: u16 = 0;
        proof {
            assert(0 * sy == 0) by (nonlinear_arith);
        }
        while x < sx
            invariant
                self.wf(),
                b == self.spec_board(),
                sx == b.spec_size().spec_x(),
                sy == b.spec_size().spec_y(),
                x <= sx,
                black == count_upto(b, Player::Black, x * sy),
                white == count_upto(b, Player::White, x * sy),
            decreases sx - x,
        {
            let mut y: u16 = 0;
            while y < sy
                invariant
                    self.wf(),
                    b == self.spec_board(),
                    sx == b.spec_size().spec_x(),
                    sy == b.spec_size().spec_y(),
                    x < sx,
                    y <= sy,
                    black == count_upto(b, Player::Black, x * sy + y),
                    white == count_upto(b, Player::White, x * sy + y),
                decreases sy - y,
            {
                let ghost k = x * sy + y;
                proof {
                    assert(k == (x as int) * (sy as int) + y) by (nonlinear_arith)
                        requires
                            k == x * sy + y,
                    ;
                    vstd::arithmetic::div_mod::lemma_fundamental_div_mod_converse(
                        k,
                        sy as int,
                        x as int,
                        y as int,
                    );
                    assert(cell_linear(b, k) == b.spec_at(x as int, y as int));
                    lemma_count_upto_bounds(b, Player::Black, k);
                    lemma_count_upto_bounds(b, Player::White, k);
                    assert(k < 0xFFFF_FFFF) by (nonlinear_arith)
                        requires
                            x < 0x1_0000,
                            y < 0x1_0000,
                            sy < 0x1_0000,
                            k == x * sy + y,
                    ;
                }
                let pos = BoardPosition { x: x as i64, y: y as i64 };
                match self.board.cell_ref(&pos) {
                    Some(c) => {
                        if *c == Player::Black {
                            black = black + 1;
                        } else if *c == Player::White {
                            white = white + 1;
                        }
                    },
                    None => {},
                }
                y += 1;
            }
            proof {
                assert(x * sy + sy == (x + 1) * sy) by (nonlinear_arith);
            }
            x += 1;
        }
        proof {
            assert(sx * sy == (sx as int) * (sy as int)) by (nonlinear_arith);
        }
        (black, white)
    }

    /// Restores the opening state: the first player to move, a zero turn
    /// count, an empty pass log and a freshly seeded board of the same size.
    pub fn reset(&mut self)
        requires
            old(self).wf(),
        ensures
            final(self).wf(),
            final(self).spec_first_turn() == old(self).spec_first_turn(),
            final(self).spec_turn() == old(self).spec_first_turn(),
            final(self).spec_turn_count() == 0,
            final(self).spec_stuck_list().len() == 0,
            final(self).spec_board().spec_size() == old(self).spec_board().spec_size(),
            seeded(final(self).spec_board()),
    {
        self.turn = self.first_turn;
        self.turn_count = 0;
        self.board = fresh_board(self.board.size());
        self.turn_stuck_info_list = Vec::new();
    }
}

/// The cell at row-major index `i` of `b`.
pub open spec fn cell_linear(b: Board<Player>, i: int) -> Player {
    b.spec_at(i / (b.spec_size().spec_y() as int), i % (b.spec_size().spec_y() as int))
}

/// How many of the first `k` cells of `b`, in row-major order, hold `who`.
pub open spec fn count_upto(b: Board<Player>, who: Player, k: int) -> int
    decreases k,
{
    if k <= 0 {
        0
    } else {
        count_upto(b, who, k - 1) + (if cell_linear(b, k - 1) == who {
            1int
        } else {
            0int
        })
    }
}

/// How many cells of `b` hold `who`.
pub open spec fn count_of(b: Board<Player>, who: Player) -> int {
    count_upto(b, who, b.spec_size().spec_x() * b.spec_size().spec_y())
}

/// A count over `k` cells lies between zero and `k`.
proof fn lemma_count_upto_bounds(b: Board<Player>, who: Player, k: int)
    requires
        0 <= k,
    ensures
        0 <= count_upto(b, who, k) <= k,
    decreases k,
{
    if k > 0 {
        lemma_count_upto_bounds(b, who, k - 1);
    }
}

/// Over any prefix, the three possible cell owners partition the cells.
proof fn lemma_count_partition_upto(b: Board<Player>, k: int)
    requires
        0 <= k,
    ensures
        count_upto(b, Player::Black, k) + count_upto(b, Player::White, k) + count_upto(
            b,
            Player::Empty,
            k,
        ) == k,
    decreases k,
{
    if k > 0 {
        lemma_count_partition_upto(b, k - 1);
    }
}

/// Scores partition the board: black's discs, white's discs and the empty
/// cells together account for every cell, so the two scores always sum to
/// the cell count minus the remaining empty cells.
pub proof fn lemma_scores_partition(b: Board<Player>)
    ensures
        count_of(b, Player::Black) + count_of(b, Player::White) + count_of(b, Player::Empty)
            == b.spec_size().spec_x() * b.spec_size().spec_y(),
{
    assert(0 <= b.spec_size().spec_x() * b.spec_size().spec_y()) by (nonlinear_arith);
    lemma_count_partition_upto(b, b.spec_size().spec_x() * b.spec_size().spec_y());
}

/// A closed run carries over to any board with the same size and cells.
proof fn lemma_run_transfer(
    ba: Board<Player>,
    bb: Board<Player>,
    mover: Player,
    p: BoardPosition,
    d: Direction,
    n: int,
)
    requires
        ba.spec_size() == bb.spec_size(),
        forall|x: int, y: int| ba.in_range(x, y) ==> #[trigger] ba.spec_at(x, y) == bb.spec_at(x, y),
        run_closed(ba, mover, p, d, n),
    ensures
        run_closed(bb, mover, p, d, n),
{
    assert forall|j: int|
        1 <= j <= n implies #[trigger] ray_on(bb, p, d, j) && ray_cell(bb, p, d, j)
            == mover.spec_next() by {
        lemma_opp_run_at(ba, mover, p, d, n, j);
        assert(ba.spec_at(p.stepped(d, j).0, p.stepped(d, j).1) == bb.spec_at(
            p.stepped(d, j).0,
            p.stepped(d, j).1,
        ));
        assert(ray_on(bb, p, d, j));
        assert(ray_cell(bb, p, d, j) == mover.spec_next());
    }
    assert(opp_run(bb, mover, p, d, n));
    assert(ray_on(ba, p, d, n + 1));
    assert(ba.spec_at(p.stepped(d, n + 1).0, p.stepped(d, n + 1).1) == bb.spec_at(
        p.stepped(d, n + 1).0,
        p.stepped(d, n + 1).1,
    ));
    assert(ray_on(bb, p, d, n + 1));
    assert(ray_cell(bb, p, d, n + 1) == mover);
}

/// The rule predicates read nothing but the board's size and cells: two
/// boards that agree cell for cell admit the same runs, the same legal
/// moves and the same flips.
pub proof fn lemma_rules_congruence(
    b1: Board<Player>,
    b2: Board<Player>,
    mover: Player,
    p: BoardPosition,
)
    requires
        b1.spec_size() == b2.spec_size(),
        forall|x: int, y: int| b1.in_range(x, y) ==> #[trigger] b1.spec_at(x, y) == b2.spec_at(x, y),
    ensures
        forall|d: Direction, n: int|
            #![trigger run_closed(b1, mover, p, d, n)]
            #![trigger run_closed(b2, mover, p, d, n)]
            run_closed(b1, mover, p, d, n) == run_closed(b2, mover, p, d, n),
        is_legal(b1, mover, p) == is_legal(b2, mover, p),
        forall|q: (int, int)|
            #![trigger flips(b1, mover, p, q)]
            #![trigger flips(b2, mover, p, q)]
            flips(b1, mover, p, q) == flips(b2, mover, p, q),
{
    assert forall|x: int, y: int|
        b2.in_range(x, y) implies #[trigger] b2.spec_at(x, y) == b1.spec_at(x, y) by {
        assert(b1.spec_at(x, y) == b2.spec_at(x, y));
    }
    assert forall|d: Direction, n: int|
        #![trigger run_closed(b1, mover, p, d, n)]
        #![trigger run_closed(b2, mover, p, d, n)]
        run_closed(b1, mover, p, d, n) == run_closed(b2, mover, p, d, n) by {
        if run_closed(b1, mover, p, d, n) {
            lemma_run_transfer(b1, b2, mover, p, d, n);
        }
        if run_closed(b2, mover, p, d, n) {
            lemma_run_transfer(b2, b1, mover, p, d, n);
        }
    }
    assert(is_legal(b1, mover, p) == is_legal(b2, mover, p)) by {
        if b1.in_range_pos(p) {
            assert(b1.spec_at(p.x as int, p.y as int) == b2.spec_at(p.x as int, p.y as int));
        }
        if is_legal(b1, mover, p) {
            let d = choose|d: Direction| #[trigger] flanks(b1, mover, p, d);
            let n = choose|n: int| #[trigger] run_closed(b1, mover, p, d, n);
            assert(run_closed(b2, mover, p, d, n));
            assert(flanks(b2, mover, p, d));
        }
        if is_legal(b2, mover, p) {
            let d = choose|d: Direction| #[trigger] flanks(b2, mover, p, d);
            let n = choose|n: int| #[trigger] run_closed(b2, mover, p, d, n);
            assert(run_closed(b1, mover, p, d, n));
            assert(flanks(b1, mover, p, d));
        }
    }
    assert forall|q: (int, int)|
        #![trigger flips(b1, mover, p, q)]
        #![trigger flips(b2, mover, p, q)]
        flips(b1, mover, p, q) == flips(b2, mover, p, q) by {
        if flips(b1, mover, p, q) {
            let (d, n, j) = choose|d: Direction, n: int, j: int|
                #![trigger run_closed(b1, mover, p, d, n), p.stepped(d, j)]
                run_closed(b1, mover, p, d, n) && 1 <= j <= n && q == p.stepped(d, j);
            assert(run_closed(b2, mover, p, d, n));
            assert(flips(b2, mover, p, q));
        }
        if flips(b2, mover, p, q) {
            let (d, n, j) = choose|d: Direction, n: int, j: int|
                #![trigger run_closed(b2, mover, p, d, n), p.stepped(d, j)]
                run_closed(b2, mover, p, d, n) && 1 <= j <= n && q == p.stepped(d, j);
            assert(run_closed(b1, mover, p, d, n));
            assert(flips(b1, mover, p, q));
        }
    }
}

/// Determinism of placement: the same placement, made on two boards whose
/// cells agree everywhere, leaves two boards whose cells again agree
/// everywhere. Replaying a sequence of legal placements from a fresh game
/// therefore reproduces the same final board, cell for cell.
pub proof fn lemma_place_deterministic(
    b1: Board<Player>,
    b1_after: Board<Player>,
    b2: Board<Player>,
    b2_after: Board<Player>,
    mover: Player,
    pos: BoardPosition,
)
    requires
        b1.spec_size() == b2.spec_size(),
        forall|x: int, y: int| b1.in_range(x, y) ==> #[trigger] b1.spec_at(x, y) == b2.spec_at(x, y),
        b1_after.spec_size() == b1.spec_size(),
        b2_after.spec_size() == b2.spec_size(),
        b1.in_range_pos(pos),
        b1_after.spec_at(pos.x as int, pos.y as int) == mover,
        b2_after.spec_at(pos.x as int, pos.y as int) == mover,
        forall|x: int, y: int|
            b1.in_range(x, y) && !(x == pos.x as int && y == pos.y as int)
                ==> #[trigger] b1_after.spec_at(x, y) == (if flips(b1, mover, pos, (x, y)) {
                mover
            } else {
                b1.spec_at(x, y)
            }),
        forall|x: int, y: int|
            b2.in_range(x, y) && !(x == pos.x as int && y == pos.y as int)
                ==> #[trigger] b2_after.spec_at(x, y) == (if flips(b2, mover, pos, (x, y)) {
                mover
            } else {
                b2.spec_at(x, y)
            }),
    ensures
        forall|x: int, y: int|
            b1.in_range(x, y) ==> #[trigger] b1_after.spec_at(x, y) == b2_after.spec_at(x, y),
{
    lemma_rules_congruence(b1, b2, mover, pos);
    assert forall|x: int, y: int|
        b1.in_range(x, y) implies #[trigger] b1_after.spec_at(x, y) == b2_after.spec_at(
        x,
        y,
    ) by {
        if !(x == pos.x as int && y == pos.y as int) {
            assert(flips(b1, mover, pos, (x, y)) == flips(b2, mover, pos, (x, y)));
        }
    }
}

} // verus!
