//! Minesweeper: board geometry, a safe first reveal, flood reveal, flags,
//! chords and the invariant of every saved game.
use crate::rng::shuffle;
use rand::rngs::StdRng;
use vstd::prelude::*;

verus! {

#[derive(Clone, Copy, Debug, PartialEq, Eq, Structural)]
pub enum Difficulty {
    Beginner,
    Intermediate,
    Expert,
}

pub open spec fn width(d: Difficulty) -> int {
    match d {
        Difficulty::Beginner => 9,
        Difficulty::Intermediate => 16,
        Difficulty::Expert => 30,
    }
}

pub open spec fn height(d: Difficulty) -> int {
    match d {
        Difficulty::Beginner => 9,
        Difficulty::Intermediate => 16,
        Difficulty::Expert => 16,
    }
}

/// The number of squares, `width * height`.
pub open spec fn area(d: Difficulty) -> int {
    match d {
        Difficulty::Beginner => 81,
        Difficulty::Intermediate => 256,
        Difficulty::Expert => 480,
    }
}

pub open spec fn mine_total(d: Difficulty) -> int {
    match d {
        Difficulty::Beginner => 10,
        Difficulty::Intermediate => 40,
        Difficulty::Expert => 99,
    }
}

impl Default for Difficulty {
    fn default() -> (r: Self)
        ensures
            r == Difficulty::Beginner,
    {
        Difficulty::Beginner
    }
}

impl Difficulty {
    pub const ALL: [Difficulty; 3] = [Difficulty::Beginner, Difficulty::Intermediate, Difficulty::Expert];

    /// Width, height and number of mines.
    pub fn dimensions(self) -> (r: (usize, usize, usize))
        ensures
            r.0 == width(self),
            r.1 == height(self),
            r.2 == mine_total(self),
            r.0 * r.1 == area(self),
    {
        match self {
            Self::Beginner => (9, 9, 10),
            Self::Intermediate => (16, 16, 40),
            Self::Expert => (30, 16, 99),
        }
    }

    /// The position in `ALL`, and of this difficulty's record.
    pub fn index(self) -> (r: usize)
        ensures
            r == match self {
                Difficulty::Beginner => 0usize,
                Difficulty::Intermediate => 1usize,
                Difficulty::Expert => 2usize,
            },
    {
        match self {
            Self::Beginner => 0,
            Self::Intermediate => 1,
            Self::Expert => 2,
        }
    }

    pub fn name(self) -> (r: &'static str)
        ensures
            r@ == match self {
                Difficulty::Beginner => "Beginner"@,
                Difficulty::Intermediate => "Intermediate"@,
                Difficulty::Expert => "Expert"@,
            },
    {
        match self {
            Self::Beginner => "Beginner",
            Self::Intermediate => "Intermediate",
            Self::Expert => "Expert",
        }
    }
}

#[derive(Clone, Copy, Debug, PartialEq, Eq, Structural)]
pub struct Cell {
    pub mine: bool,
    pub revealed: bool,
    pub flagged: bool,
}

impl Default for Cell {
    fn default() -> (r: Self)
        ensures
            r == (Cell { mine: false, revealed: false, flagged: false }),
    {
        Cell { mine: false, revealed: false, flagged: false }
    }
}

/// A cursor key on the board.
#[derive(Clone, Copy, Debug, PartialEq, Eq, Structural)]
pub enum Arrow {
    Left,
    Right,
    Up,
    Down,
}

/// Where the cursor goes on an arrow key: one square over, staying put at the
/// board's edge.
pub open spec fn cursor_step(d: Difficulty, cursor: int, arrow: Arrow) -> int {
    let w = width(d);
    match arrow {
        Arrow::Left => if cursor % w != 0 {
            cursor - 1
        } else {
            cursor
        },
        Arrow::Right => if cursor % w + 1 < w {
            cursor + 1
        } else {
            cursor
        },
        Arrow::Up => if cursor >= w {
            cursor - w
        } else {
            cursor
        },
        Arrow::Down => if cursor + w < area(d) {
            cursor + w
        } else {
            cursor
        },
    }
}

impl Difficulty {
    /// The cursor after an arrow key; a cursor on the board stays on it.
    pub fn cursor_after(self, cursor: usize, arrow: Arrow) -> (r: usize)
        requires
            cursor + width(self) <= usize::MAX,
        ensures
            r == cursor_step(self, cursor as int, arrow),
            cursor < area(self) ==> r < area(self),
    {
        let (w, h, _) = self.dimensions();
        proof {
            lemma_split(self, cursor as int);
            let q = cursor as int / width(self);
            let r = cursor as int % width(self);
            assert(q * width(self) >= 0) by (nonlinear_arith)
                requires
                    q >= 0,
                    width(self) > 0,
            ;
            if cursor < area(self) {
                assert(q + 1 <= height(self)) by (nonlinear_arith)
                    requires
                        q * width(self) + r < height(self) * width(self),
                        0 <= r,
                        width(self) > 0,
                ;
                assert((q + 1) * width(self) <= height(self) * width(self)) by (nonlinear_arith)
                    requires
                        q + 1 <= height(self),
                        width(self) > 0,
                ;
                assert((q + 1) * width(self) == q * width(self) + width(self)) by (nonlinear_arith);
            }
        }
        match arrow {
            Arrow::Left => if cursor % w != 0 {
                cursor - 1
            } else {
                cursor
            },
            Arrow::Right => if cursor % w + 1 < w {
                cursor + 1
            } else {
                cursor
            },
            Arrow::Up => if cursor >= w {
                cursor - w
            } else {
                cursor
            },
            Arrow::Down => if cursor + w < w * h {
                cursor + w
            } else {
                cursor
            },
        }
    }
}

#[derive(Clone, Copy, Debug, PartialEq, Eq, Structural)]
pub enum Status {
    Ready,
    Playing,
    Won,
    Lost,
}

#[derive(Clone, Debug, PartialEq, Eq)]
pub struct Game {
    pub difficulty: Difficulty,
    pub cells: Vec<Cell>,
    pub status: Status,
    pub elapsed_ms: u64,
    pub opening: Option<usize>,
    pub exploded: Option<usize>,
}

/// Squares `i` and `j` are distinct squares of the board that touch, side by
/// side or diagonally.
pub open spec fn adjacent(d: Difficulty, i: int, j: int) -> bool {
    let w = width(d);
    &&& 0 <= i < area(d)
    &&& 0 <= j < area(d)
    &&& i != j
    &&& -1 <= j % w - i % w <= 1
    &&& -1 <= j / w - i / w <= 1
}

/// The squares below `n` that touch `i`, in increasing order.
pub open spec fn adjacent_upto(d: Difficulty, i: int, n: int) -> Seq<usize>
    decreases n,
{
    if n <= 0 {
        seq![]
    } else {
        let s = adjacent_upto(d, i, n - 1);
        if adjacent(d, i, n - 1) {
            s.push((n - 1) as usize)
        } else {
            s
        }
    }
}

/// The neighbours of `i`, in increasing order (row by row).
pub open spec fn neighbours_of(d: Difficulty, i: int) -> Seq<usize> {
    adjacent_upto(d, i, area(d))
}

proof fn lemma_adjacent_same(d: Difficulty, i: int, from: int, to: int)
    requires
        0 <= from <= to,
        forall|n: int| from <= n < to ==> !#[trigger] adjacent(d, i, n),
    ensures
        adjacent_upto(d, i, to) == adjacent_upto(d, i, from),
    decreases to - from,
{
    if from < to {
        lemma_adjacent_same(d, i, from, to - 1);
    }
}

proof fn lemma_adjacent_upto_props(d: Difficulty, i: int, n: int)
    requires
        0 <= n,
    ensures
        forall|k: int|
            0 <= k < adjacent_upto(d, i, n).len() ==> adjacent(d, i, #[trigger] adjacent_upto(d, i, n)[k] as int)
                && adjacent_upto(d, i, n)[k] < n,
        forall|a: int, b: int|
            0 <= a < b < adjacent_upto(d, i, n).len() ==> #[trigger] adjacent_upto(d, i, n)[a]
                < #[trigger] adjacent_upto(d, i, n)[b],
        forall|j: int| 0 <= j < n && adjacent(d, i, j) ==> adjacent_upto(d, i, n).contains(j as usize),
        adjacent_upto(d, i, n).len() <= n,
    decreases n,
{
    if n > 0 {
        lemma_adjacent_upto_props(d, i, n - 1);
        let s = adjacent_upto(d, i, n - 1);
        assert forall|j: int| 0 <= j < n && adjacent(d, i, j) implies adjacent_upto(d, i, n).contains(
            j as usize,
        ) by {
            if j < n - 1 {
                let k = choose|k: int| 0 <= k < s.len() && s[k] == j as usize;
                if adjacent(d, i, n - 1) {
                    assert(adjacent_upto(d, i, n)[k] == j as usize);
                }
            } else {
                assert(adjacent_upto(d, i, n)[s.len() as int] == j as usize);
            }
        }
    }
}

/// The neighbour list of a square: empty off the board; otherwise strictly
/// increasing, and holding exactly the distinct board squares whose row and
/// column each differ by at most one. So `j` is a neighbour of `i` exactly
/// when `i` is a neighbour of `j`.
pub proof fn lemma_neighbours_exact(d: Difficulty, i: usize)
    ensures
        i >= area(d) ==> neighbours_of(d, i as int).len() == 0,
        forall|a: int, b: int|
            0 <= a < b < neighbours_of(d, i as int).len() ==> #[trigger] neighbours_of(d, i as int)[a]
                < #[trigger] neighbours_of(d, i as int)[b],
        forall|j: usize|
            neighbours_of(d, i as int).contains(j) <==> #[trigger] adjacent(d, i as int, j as int),
        forall|j: usize|
            neighbours_of(d, i as int).contains(j) <==> #[trigger] neighbours_of(d, j as int).contains(i),
{
    let ii = i as int;
    lemma_adjacent_upto_props(d, ii, area(d));
    if i >= area(d) {
        lemma_adjacent_same(d, ii, 0, area(d));
    }
    assert forall|j: usize| neighbours_of(d, ii).contains(j) <==> #[trigger] adjacent(d, ii, j as int) by {
        if neighbours_of(d, ii).contains(j) {
            let k = choose|k: int| 0 <= k < neighbours_of(d, ii).len() && neighbours_of(d, ii)[k] == j;
            assert(adjacent(d, ii, neighbours_of(d, ii)[k] as int));
        }
    }
    assert forall|j: usize| neighbours_of(d, ii).contains(j) <==> #[trigger] neighbours_of(d, j as int).contains(i) by {
        let jj = j as int;
        lemma_adjacent_upto_props(d, jj, area(d));
        assert(adjacent(d, ii, jj) == adjacent(d, jj, ii));
        if neighbours_of(d, jj).contains(i) {
            let k = choose|k: int| 0 <= k < neighbours_of(d, jj).len() && neighbours_of(d, jj)[k] == i;
            assert(adjacent(d, jj, neighbours_of(d, jj)[k] as int));
        }
        if neighbours_of(d, ii).contains(j) {
            let k = choose|k: int| 0 <= k < neighbours_of(d, ii).len() && neighbours_of(d, ii)[k] == j;
            assert(adjacent(d, ii, neighbours_of(d, ii)[k] as int));
        }
    }
}

/// Square `q * w + r` lies in row `q` and column `r`.
proof fn lemma_coords(d: Difficulty, q: int, r: int)
    requires
        0 <= r < width(d),
    ensures
        (q * width(d) + r) / width(d) == q,
        (q * width(d) + r) % width(d) == r,
{
    vstd::arithmetic::div_mod::lemma_fundamental_div_mod_converse(q * width(d) + r, width(d), q, r);
}

/// Every square's row and column.
proof fn lemma_split(d: Difficulty, n: int)
    requires
        0 <= n,
    ensures
        n == (n / width(d)) * width(d) + n % width(d),
        0 <= n % width(d) < width(d),
        0 <= n / width(d),
{
    vstd::arithmetic::div_mod::lemma_fundamental_div_mod(n, width(d));
    vstd::arithmetic::div_mod::lemma_mod_pos_bound(n, width(d));
    vstd::arithmetic::div_mod::lemma_div_pos_is_pos(n, width(d));
}

proof fn lemma_rows_order(w: int, q1: int, r1: int, q2: int, r2: int)
    requires
        w > 0,
        0 <= r1 < w,
        0 <= r2 < w,
        q1 * w + r1 < q2 * w + r2,
    ensures
        q1 <= q2,
        q1 == q2 ==> r1 < r2,
{
    if q1 > q2 {
        assert(q1 * w >= (q2 + 1) * w) by (nonlinear_arith)
            requires
                q1 >= q2 + 1,
                w > 0,
        ;
        assert((q2 + 1) * w == q2 * w + w) by (nonlinear_arith);
    }
    if q1 == q2 {
    }
}

/// How many of the first `n` squares carry a flag.
pub open spec fn flags_upto(cells: Seq<Cell>, n: int) -> int
    decreases n,
{
    if n <= 0 {
        0
    } else {
        flags_upto(cells, n - 1) + if cells[n - 1].flagged {
            1int
        } else {
            0
        }
    }
}

/// How many of the squares `ns` hold a mine.
pub open spec fn mines_among(cells: Seq<Cell>, ns: Seq<usize>) -> int
    decreases ns.len(),
{
    if ns.len() == 0 {
        0
    } else {
        mines_among(cells, ns.drop_last()) + if cells[ns.last() as int].mine {
            1int
        } else {
            0
        }
    }
}

/// The number shown on square `i`: how many of its neighbours hold a mine.
pub open spec fn mine_count(cells: Seq<Cell>, d: Difficulty, i: int) -> int {
    mines_among(cells, neighbours_of(d, i))
}

/// A square that a reveal may open: on the board, neither flagged nor revealed.
pub open spec fn eligible(cells: Seq<Cell>, n: int) -> bool {
    0 <= n < cells.len() && !cells[n].flagged && !cells[n].revealed
}

/// A square whose reveal spreads to its neighbours: no mine on it or next to it.
pub open spec fn opens(cells: Seq<Cell>, d: Difficulty, n: int) -> bool {
    !cells[n].mine && mine_count(cells, d, n) == 0
}

/// A flood path from `start`: every square on it is eligible, each square but
/// the last opens, and consecutive squares touch.
pub open spec fn flood_path(cells: Seq<Cell>, d: Difficulty, start: int, path: Seq<int>) -> bool {
    &&& path.len() > 0
    &&& path[0] == start
    &&& forall|j: int| 0 <= j < path.len() ==> eligible(cells, #[trigger] path[j])
    &&& forall|j: int|
        0 <= j < path.len() - 1 ==> opens(cells, d, #[trigger] path[j]) && adjacent(d, path[j], path[j + 1])
}

/// A flood reveal from `start` reaches square `n`.
pub open spec fn flood_reaches(cells: Seq<Cell>, d: Difficulty, start: int, n: int) -> bool {
    exists|path: Seq<int>| #[trigger] flood_path(cells, d, start, path) && path.last() == n
}

/// The board after a flood reveal from `start`: every reached square is revealed.
pub open spec fn flooded(cells: Seq<Cell>, d: Difficulty, start: int) -> Seq<Cell> {
    Seq::new(
        cells.len(),
        |n: int|
            Cell {
                mine: cells[n].mine,
                revealed: cells[n].revealed || flood_reaches(cells, d, start, n),
                flagged: cells[n].flagged,
            },
    )
}

pub open spec fn unrevealed_upto(cells: Seq<Cell>, n: int) -> int
    decreases n,
{
    if n <= 0 {
        0
    } else {
        unrevealed_upto(cells, n - 1) + if cells[n - 1].revealed {
            0int
        } else {
            1
        }
    }
}

pub open spec fn unrevealed(cells: Seq<Cell>) -> int {
    unrevealed_upto(cells, cells.len() as int)
}

/// Only the revealed marks may differ, and only from hidden to revealed.
pub open spec fn reveals_only(before: Seq<Cell>, after: Seq<Cell>) -> bool {
    &&& after.len() == before.len()
    &&& forall|k: int|
        #![trigger after[k]]
        #![trigger before[k]]
        0 <= k < before.len() ==> after[k].mine == before[k].mine && after[k].flagged
            == before[k].flagged && (before[k].revealed ==> after[k].revealed)
}

proof fn lemma_mines_among_same(a: Seq<Cell>, b: Seq<Cell>, ns: Seq<usize>)
    requires
        a.len() == b.len(),
        forall|k: int| 0 <= k < ns.len() ==> (#[trigger] ns[k]) < a.len(),
        forall|k: int| 0 <= k < a.len() ==> #[trigger] a[k].mine == b[k].mine,
    ensures
        mines_among(a, ns) == mines_among(b, ns),
    decreases ns.len(),
{
    if ns.len() > 0 {
        lemma_mines_among_same(a, b, ns.drop_last());
        assert(ns.last() == ns[ns.len() - 1]);
    }
}

proof fn lemma_mines_among_zero(cells: Seq<Cell>, ns: Seq<usize>, k: int)
    requires
        mines_among(cells, ns) == 0,
        0 <= k < ns.len(),
    ensures
        !cells[ns[k] as int].mine,
    decreases ns.len(),
{
    lemma_mines_among_nonneg(cells, ns.drop_last());
    if k < ns.len() - 1 {
        lemma_mines_among_zero(cells, ns.drop_last(), k);
    }
}

proof fn lemma_mines_among_nonneg(cells: Seq<Cell>, ns: Seq<usize>)
    ensures
        0 <= mines_among(cells, ns) <= ns.len(),
    decreases ns.len(),
{
    if ns.len() > 0 {
        lemma_mines_among_nonneg(cells, ns.drop_last());
    }
}

/// No neighbour of an opening square holds a mine.
proof fn lemma_opens_no_mine(cells: Seq<Cell>, d: Difficulty, p: int, m: int)
    requires
        opens(cells, d, p),
        adjacent(d, p, m),
    ensures
        !cells[m].mine,
{
    lemma_adjacent_upto_props(d, p, area(d));
    let ns = neighbours_of(d, p);
    assert(ns.contains(m as usize));
    let k = choose|k: int| 0 <= k < ns.len() && ns[k] == m as usize;
    lemma_mines_among_zero(cells, ns, k);
}

/// A flood from a square that does not open reaches only that square.
proof fn lemma_closed_start(cells: Seq<Cell>, d: Difficulty, start: int, n: int)
    requires
        !opens(cells, d, start),
    ensures
        flood_reaches(cells, d, start, n) == (n == start && eligible(cells, start)),
{
    if flood_reaches(cells, d, start, n) {
        let path = choose|path: Seq<int>| #[trigger] flood_path(cells, d, start, path) && path.last() == n;
        if path.len() > 1 {
            assert(opens(cells, d, path[0]));
        }
    }
    if n == start && eligible(cells, start) {
        assert(flood_path(cells, d, start, seq![start]));
    }
}

proof fn lemma_unrevealed_bounds(cells: Seq<Cell>, n: int)
    requires
        0 <= n <= cells.len(),
    ensures
        0 <= unrevealed_upto(cells, n) <= n,
    decreases n,
{
    if n > 0 {
        lemma_unrevealed_bounds(cells, n - 1);
    }
}

proof fn lemma_unrevealed_reveal(cells: Seq<Cell>, k: int, c: Cell, n: int)
    requires
        0 <= k < cells.len(),
        0 <= n <= cells.len(),
        !cells[k].revealed,
        c.revealed,
    ensures
        unrevealed_upto(cells.update(k, c), n) == unrevealed_upto(cells, n) - if k < n {
            1int
        } else {
            0
        },
    decreases n,
{
    if n > 0 {
        lemma_unrevealed_reveal(cells, k, c, n - 1);
    }
}

impl Game {
    /// A fresh, mine-free board waiting for its first reveal.
    pub fn new(difficulty: Difficulty) -> (g: Self)
        ensures
            g.difficulty == difficulty,
            g.cells@.len() == area(difficulty),
            forall|k: int|
                0 <= k < g.cells@.len() ==> #[trigger] g.cells@[k] == (Cell {
                    mine: false,
                    revealed: false,
                    flagged: false,
                }),
            g.status == Status::Ready,
            g.elapsed_ms == 0,
            g.opening.is_none(),
            g.exploded.is_none(),
    {
        let (w, h, _) = difficulty.dimensions();
        let n = w * h;
        let mut cells: Vec<Cell> = Vec::new();
        while cells.len() < n
            invariant
                n == area(difficulty),
                cells@.len() <= n,
                forall|k: int|
                    0 <= k < cells@.len() ==> #[trigger] cells@[k] == (Cell {
                        mine: false,
                        revealed: false,
                        flagged: false,
                    }),
            decreases n - cells@.len(),
        {
            cells.push(Cell::default());
        }
        Self {
            difficulty,
            cells,
            status: Status::Ready,
            elapsed_ms: 0,
            opening: None,
            exploded: None,
        }
    }

    /// The squares touching `i`, row by row; empty when `i` is off the board.
    pub fn neighbours(&self, i: usize) -> (r: Vec<usize>)
        ensures
            r@ == neighbours_of(self.difficulty, i as int),
            r@.len() <= 9,
    {
        let ghost d = self.difficulty;
        let (w, h, _) = self.difficulty.dimensions();
        if i >= w * h {
            proof {
                lemma_adjacent_same(d, i as int, 0, area(d));
            }
            return Vec::new();
        }
        let x = i % w;
        let y = i / w;
        proof {
            lemma_split(d, i as int);
            assert(y < height(d)) by {
                if y >= height(d) {
                    assert(y * width(d) >= height(d) * width(d)) by (nonlinear_arith)
                        requires
                            y >= height(d),
                            width(d) > 0,
                    ;
                }
            }
        }
        let y_lo = if y > 0 {
            y - 1
        } else {
            0
        };
        let y_hi = if y + 1 < h - 1 {
            y + 1
        } else {
            h - 1
        };
        let x_lo = if x > 0 {
            x - 1
        } else {
            0
        };
        let x_hi = if x + 1 < w - 1 {
            x + 1
        } else {
            w - 1
        };
        let mut out: Vec<usize> = Vec::new();
        proof {
            assert forall|n: int| 0 <= n < y_lo * w + x_lo implies !#[trigger] adjacent(d, i as int, n) by {
                lemma_split(d, n);
                lemma_rows_order(w as int, n / w as int, n % w as int, y_lo as int, x_lo as int);
            }
            lemma_adjacent_same(d, i as int, 0, y_lo * w + x_lo);
        }
        let mut yy = y_lo;
        while yy <= y_hi
            invariant
                d == self.difficulty,
                w == width(d),
                h == height(d),
                (i as int) == y * w + x,
                x < w,
                y < h,
                x_lo == (if x > 0 { x - 1 } else { 0 }),
                x_hi == (if x + 1 < w - 1 { x + 1 } else { w - 1 }),
                y_lo == (if y > 0 { y - 1 } else { 0 }),
                y_hi == (if y + 1 < h - 1 { y + 1 } else { h - 1 }),
                y_lo <= yy <= y_hi + 1,
                out@ == adjacent_upto(d, i as int, yy * w + x_lo),
                out@.len() <= 3 * (yy - y_lo),
                y_hi <= y_lo + 2,
                x_hi <= x_lo + 2,
            decreases y_hi + 1 - yy,
        {
            let mut xx = x_lo;
            while xx <= x_hi
                invariant
                    d == self.difficulty,
                    w == width(d),
                    h == height(d),
                    (i as int) == y * w + x,
                    x < w,
                    y < h,
                    x_lo == (if x > 0 { x - 1 } else { 0 }),
                    x_hi == (if x + 1 < w - 1 { x + 1 } else { w - 1 }),
                    y_lo == (if y > 0 { y - 1 } else { 0 }),
                    y_hi == (if y + 1 < h - 1 { y + 1 } else { h - 1 }),
                    y_lo <= yy <= y_hi,
                    x_lo <= xx <= x_hi + 1,
                    out@ == adjacent_upto(d, i as int, yy * w + xx),
                    out@.len() <= 3 * (yy - y_lo) + (xx - x_lo),
                    y_hi <= y_lo + 2,
                    x_hi <= x_lo + 2,
                decreases x_hi + 1 - xx,
            {
                proof {
                    assert(yy * w + xx < h * w) by (nonlinear_arith)
                        requires
                            yy < h,
                            xx < w,
                    ;
                    lemma_coords(d, yy as int, xx as int);
                    lemma_coords(d, y as int, x as int);
                }
                let n = yy * w + xx;
                if n != i {
                    out.push(n);
                }
                xx = xx + 1;
            }
            proof {
                let from = yy * w + x_hi + 1;
                let to = (yy + 1) * w + x_lo;
                assert((yy + 1) * w == yy * w + w) by (nonlinear_arith);
                assert forall|n: int| from <= n < to implies !#[trigger] adjacent(d, i as int, n) by {
                    lemma_split(d, n);
                    lemma_coords(d, y as int, x as int);
                    lemma_rows_order(w as int, yy as int, x_hi as int, n / w as int, n % w as int);
                    if x_lo < w {
                        lemma_rows_order(w as int, n / w as int, n % w as int, (yy + 1) as int, x_lo as int);
                    }
                }
                lemma_adjacent_same(d, i as int, from, to);
            }
            yy = yy + 1;
        }
        proof {
            let end = (y_hi + 1) * w + x_lo;
            assert((y_hi + 1) * w == y_hi * w + w) by (nonlinear_arith);
            assert(h * w == area(d));
            if end <= area(d) {
                assert forall|n: int| end <= n < area(d) implies !#[trigger] adjacent(d, i as int, n) by {
                    lemma_split(d, n);
                    lemma_coords(d, y as int, x as int);
                    lemma_rows_order(w as int, y_hi as int, (w - 1) as int, n / w as int, n % w as int);
                }
                lemma_adjacent_same(d, i as int, end, area(d));
            } else {
                lemma_adjacent_same(d, i as int, area(d), end);
            }
        }
        out
    }
}


/// Square `k` was hidden before and is revealed now.
pub open spec fn newly(before: Seq<Cell>, now: Seq<Cell>, k: int) -> bool {
    0 <= k < before.len() && now[k].revealed && !before[k].revealed
}

/// A newly revealed opening square touches `q`.
pub open spec fn has_parent(before: Seq<Cell>, now: Seq<Cell>, d: Difficulty, q: int) -> bool {
    exists|p: int| #[trigger] newly(before, now, p) && opens(before, d, p) && adjacent(d, p, q)
}

proof fn lemma_path_revealed(
    before: Seq<Cell>,
    now: Seq<Cell>,
    d: Difficulty,
    start: int,
    path: Seq<int>,
    j: int,
)
    requires
        flood_path(before, d, start, path),
        0 <= j < path.len(),
        now[start].revealed,
        reveals_only(before, now),
        forall|k: int, m: int|
            newly(before, now, k) && opens(before, d, k) && #[trigger] adjacent(d, k, m) ==> now[m].revealed
                || now[m].flagged,
    ensures
        now[path[j]].revealed,
    decreases j,
{
    if j == 0 {
        assert(path[0] == start);
    } else {
        lemma_path_revealed(before, now, d, start, path, j - 1);
        assert(eligible(before, path[j - 1]));
        assert(opens(before, d, path[j - 1]) && adjacent(d, path[j - 1], path[j]));
        assert(newly(before, now, path[j - 1]));
        assert(eligible(before, path[j]));
        assert(now[path[j]].flagged == before[path[j]].flagged);
    }
}

/// Every square is a mine or revealed: the game is won.
pub open spec fn cleared(cells: Seq<Cell>) -> bool {
    forall|k: int| 0 <= k < cells.len() ==> #[trigger] cells[k].mine || cells[k].revealed
}

/// Squares that may receive a mine on the first reveal at `i`: every square of
/// the board except `i` and its neighbours, in increasing order.
pub open spec fn candidates_upto(d: Difficulty, i: int, n: int) -> Seq<usize>
    decreases n,
{
    if n <= 0 {
        seq![]
    } else {
        let s = candidates_upto(d, i, n - 1);
        if n - 1 != i && !adjacent(d, i, n - 1) {
            s.push((n - 1) as usize)
        } else {
            s
        }
    }
}

/// How many squares receive a mine: the mine total, or every candidate if fewer.
pub open spec fn seeded_count(d: Difficulty, candidates: Seq<usize>) -> int {
    if mine_total(d) < candidates.len() {
        mine_total(d)
    } else {
        candidates.len() as int
    }
}

/// `after` is `before` with mines added on the first `seeded_count` squares of
/// some ordering of the candidates for a first reveal at `i`.
pub open spec fn seeded(before: Seq<Cell>, d: Difficulty, i: int, after: Seq<Cell>) -> bool {
    let cands = candidates_upto(d, i, before.len() as int);
    exists|order: Seq<usize>|
        #![trigger order.to_multiset()]
        order.to_multiset() == cands.to_multiset() && {
            let chosen = order.take(seeded_count(d, cands));
            &&& after.len() == before.len()
            &&& forall|k: int|
                #![trigger after[k]]
                0 <= k < before.len() ==> after[k].revealed == before[k].revealed && after[k].flagged
                    == before[k].flagged && after[k].mine == (before[k].mine || chosen.contains(
                    k as usize,
                ))
        }
}

/// How many of the first `n` squares hold a mine.
pub open spec fn mines_upto(cells: Seq<Cell>, n: int) -> int
    decreases n,
{
    if n <= 0 {
        0
    } else {
        mines_upto(cells, n - 1) + if cells[n - 1].mine {
            1int
        } else {
            0
        }
    }
}

/// The outcome of a chord over `ns`: flood from each in turn, stopping at the
/// first mine revealed. Returns the board and the exploded square, if any.
pub open spec fn chord_run(cells: Seq<Cell>, d: Difficulty, ns: Seq<usize>) -> (Seq<Cell>, Option<usize>)
    decreases ns.len(),
{
    if ns.len() == 0 {
        (cells, None)
    } else {
        let n = ns[0] as int;
        let next = flooded(cells, d, n);
        if eligible(cells, n) && cells[n].mine {
            (next, Some(ns[0]))
        } else {
            chord_run(next, d, ns.skip(1))
        }
    }
}

/// How many of the squares `ns` carry a flag.
pub open spec fn flags_among(cells: Seq<Cell>, ns: Seq<usize>) -> int
    decreases ns.len(),
{
    if ns.len() == 0 {
        0
    } else {
        flags_among(cells, ns.drop_last()) + if cells[ns.last() as int].flagged {
            1int
        } else {
            0
        }
    }
}

/// The bookkeeping of a flood reveal from `s` in progress: `c` is the board so
/// far and `pending` the squares still to visit.
pub open spec fn flood_state(c0: Seq<Cell>, c: Seq<Cell>, pending: Seq<usize>, d: Difficulty, s: int) -> bool {
    &&& c0.len() >= area(d)
    &&& 0 <= s < c0.len()
    &&& s <= usize::MAX
    &&& reveals_only(c0, c)
    &&& forall|j: int| 0 <= j < pending.len() ==> (#[trigger] pending[j]) < c0.len()
    &&& forall|j: int|
        0 <= j < pending.len() ==> (#[trigger] pending[j]) == s || has_parent(c0, c, d, pending[j] as int)
    &&& forall|k: int| #[trigger] newly(c0, c, k) ==> flood_reaches(c0, d, s, k) && !c0[k].mine
    &&& forall|k: int, m: int|
        newly(c0, c, k) && opens(c0, d, k) && #[trigger] adjacent(d, k, m) ==> c[m].revealed
            || c[m].flagged || pending.contains(m as usize)
    &&& eligible(c0, s) ==> c[s].revealed || pending.contains(s as usize)
    &&& !newly(c0, c, s) ==> (forall|k: int| !#[trigger] newly(c0, c, k)) && (pending == seq![s as usize]
        || pending.len() == 0)
}

pub open spec fn revealed_cell(c: Cell) -> Cell {
    Cell { mine: c.mine, revealed: true, flagged: c.flagged }
}

proof fn lemma_flood_start(c0: Seq<Cell>, d: Difficulty, s: int)
    requires
        c0.len() >= area(d),
        0 <= s < c0.len(),
        s <= usize::MAX,
    ensures
        flood_state(c0, c0, seq![s as usize], d, s),
{
    let p = seq![s as usize];
    assert(p[0] == s as usize);
    assert(p.contains(s as usize));
    assert forall|k: int| !#[trigger] newly(c0, c0, k) by {}
}

proof fn lemma_pop_contains(p: Seq<usize>, m: usize)
    requires
        p.len() > 0,
        p.contains(m),
        m != p.last(),
    ensures
        p.drop_last().contains(m),
{
    let j = choose|j: int| 0 <= j < p.len() && p[j] == m;
    assert(p.drop_last()[j] == m);
}

proof fn lemma_flood_skip(c0: Seq<Cell>, c: Seq<Cell>, pending: Seq<usize>, d: Difficulty, s: int)
    requires
        flood_state(c0, c, pending, d, s),
        pending.len() > 0,
        c[pending.last() as int].flagged || c[pending.last() as int].revealed,
    ensures
        flood_state(c0, c, pending.drop_last(), d, s),
{
    let n = pending.last();
    let rest = pending.drop_last();
    assert forall|k: int, m: int|
        newly(c0, c, k) && opens(c0, d, k) && #[trigger] adjacent(d, k, m) implies c[m].revealed
            || c[m].flagged || rest.contains(m as usize) by {
        if pending.contains(m as usize) && m as usize != n {
            lemma_pop_contains(pending, m as usize);
        }
    }
    if eligible(c0, s) && !c[s].revealed {
        assert(c[s].flagged == c0[s].flagged);
        if n == s as usize {
            assert(false);
        }
        lemma_pop_contains(pending, s as usize);
    }
    assert forall|j: int| 0 <= j < rest.len() implies (#[trigger] rest[j]) < c0.len() && (rest[j] == s
        || has_parent(c0, c, d, rest[j] as int)) by {
        assert(rest[j] == pending[j]);
    }
    if !newly(c0, c, s) {
        if pending == seq![s as usize] {
            assert(rest =~= Seq::<usize>::empty());
        }
    }
}

/// The next square to visit is hidden: a flood path reaches it, and it holds a
/// mine only if it is the start, with nothing revealed yet.
proof fn lemma_flood_target(c0: Seq<Cell>, c: Seq<Cell>, pending: Seq<usize>, d: Difficulty, s: int)
    requires
        flood_state(c0, c, pending, d, s),
        pending.len() > 0,
        !c[pending.last() as int].flagged,
        !c[pending.last() as int].revealed,
    ensures
        eligible(c0, pending.last() as int),
        flood_reaches(c0, d, s, pending.last() as int),
        c0[pending.last() as int].mine ==> pending.last() as int == s && forall|k: int|
            !#[trigger] newly(c0, c, k),
{
    let n = pending.last() as int;
    assert(pending[pending.len() - 1] == pending.last());
    assert(c[n] == c[n]);
    assert(c0[n] == c0[n]);
    if n == s {
        let sp = seq![s];
        assert(sp[0] == s);
        assert(flood_path(c0, d, s, sp));
    } else {
        let p = choose|p: int| #[trigger] newly(c0, c, p) && opens(c0, d, p) && adjacent(d, p, n);
        let path = choose|path: Seq<int>| #[trigger] flood_path(c0, d, s, path) && path.last() == p;
        let longer = path.push(n);
        assert(longer.last() == n);
        assert(flood_path(c0, d, s, longer)) by {
            assert forall|j: int| 0 <= j < longer.len() implies eligible(c0, #[trigger] longer[j]) by {
                if j < path.len() {
                    assert(longer[j] == path[j]);
                }
            }
            assert forall|j: int| 0 <= j < longer.len() - 1 implies opens(c0, d, #[trigger] longer[j])
                && adjacent(d, longer[j], longer[j + 1]) by {
                assert(longer[j] == path[j]);
                if j < path.len() - 1 {
                    assert(longer[j + 1] == path[j + 1]);
                } else {
                    assert(path[j] == path.last());
                }
            }
        }
        lemma_opens_no_mine(c0, d, p, n);
    }
}

/// Revealing a safe hidden square, and queueing its neighbours when it opens,
/// keeps the bookkeeping.
proof fn lemma_flood_reveal(
    c0: Seq<Cell>,
    c: Seq<Cell>,
    pending: Seq<usize>,
    d: Difficulty,
    s: int,
    extra: Seq<usize>,
)
    requires
        flood_state(c0, c, pending, d, s),
        pending.len() > 0,
        !c[pending.last() as int].flagged,
        !c[pending.last() as int].revealed,
        !c0[pending.last() as int].mine,
        extra == if opens(c0, d, pending.last() as int) {
            neighbours_of(d, pending.last() as int)
        } else {
            Seq::<usize>::empty()
        },
    ensures
        flood_state(
            c0,
            c.update(pending.last() as int, revealed_cell(c[pending.last() as int])),
            pending.drop_last() + extra,
            d,
            s,
        ),
{
    let n = pending.last() as int;
    let c2 = c.update(n, revealed_cell(c[n]));
    let rest = pending.drop_last();
    let p2 = rest + extra;
    lemma_flood_target(c0, c, pending, d, s);
    lemma_adjacent_upto_props(d, n, area(d));
    assert forall|k: int| #[trigger] newly(c0, c, k) implies newly(c0, c2, k) by {}
    assert forall|q: int| #[trigger] has_parent(c0, c, d, q) implies has_parent(c0, c2, d, q) by {
        let p = choose|p: int| #[trigger] newly(c0, c, p) && opens(c0, d, p) && adjacent(d, p, q);
        assert(newly(c0, c2, p));
    }
    assert(reveals_only(c0, c2)) by {
        assert forall|k: int| 0 <= k < c0.len() implies c2[k].mine == c0[k].mine && c2[k].flagged
            == c0[k].flagged && (c0[k].revealed ==> c2[k].revealed) by {
            assert(c[k] == c[k]);
        }
    }
    assert forall|j: int| 0 <= j < p2.len() implies (#[trigger] p2[j]) < c0.len() && (p2[j] == s
        || has_parent(c0, c2, d, p2[j] as int)) by {
        if j < rest.len() {
            assert(p2[j] == pending[j]);
        } else {
            assert(p2[j] == extra[j - rest.len()]);
            assert(newly(c0, c2, n));
        }
    }
    assert forall|k: int| #[trigger] newly(c0, c2, k) implies flood_reaches(c0, d, s, k) && !c0[k].mine by {
        if k != n {
            assert(newly(c0, c, k));
        }
    }
    assert forall|k: int, m: int|
        newly(c0, c2, k) && opens(c0, d, k) && #[trigger] adjacent(d, k, m) implies c2[m].revealed
            || c2[m].flagged || p2.contains(m as usize) by {
        if k == n {
            assert(neighbours_of(d, n).contains(m as usize));
            let j = choose|j: int| 0 <= j < extra.len() && extra[j] == m as usize;
            assert(p2[rest.len() + j] == m as usize);
        } else {
            assert(newly(c0, c, k));
            if m != n {
                assert(c2[m] == c[m]);
                if pending.contains(m as usize) {
                    lemma_pop_contains(pending, m as usize);
                    let j = choose|j: int| 0 <= j < rest.len() && rest[j] == m as usize;
                    assert(p2[j] == m as usize);
                }
            }
        }
    }
    if eligible(c0, s) && !c2[s].revealed {
        assert(s != n);
        assert(c2[s] == c[s]);
        assert(c[s].flagged == c0[s].flagged);
        lemma_pop_contains(pending, s as usize);
        let j = choose|j: int| 0 <= j < rest.len() && rest[j] == s as usize;
        assert(p2[j] == s as usize);
    }
    if !newly(c0, c2, s) {
        assert(n != s);
        assert(!newly(c0, c, s));
        assert(newly(c0, c2, n));
        assert(false);
    }
}

/// Revealing a mine can only happen at the start of the flood, and ends it.
proof fn lemma_flood_loss(c0: Seq<Cell>, c: Seq<Cell>, pending: Seq<usize>, d: Difficulty, s: int)
    requires
        flood_state(c0, c, pending, d, s),
        pending.len() > 0,
        !c[pending.last() as int].flagged,
        !c[pending.last() as int].revealed,
        c0[pending.last() as int].mine,
    ensures
        pending.last() as int == s,
        eligible(c0, s),
        c.update(s, revealed_cell(c[s])) == flooded(c0, d, s),
{
    lemma_flood_target(c0, c, pending, d, s);
    let c2 = c.update(s, revealed_cell(c[s]));
    assert(!opens(c0, d, s));
    assert forall|k: int| 0 <= k < c0.len() implies #[trigger] c2[k] == flooded(c0, d, s)[k] by {
        lemma_closed_start(c0, d, s, k);
        assert(c[k] == c[k]);
        assert(c0[k] == c0[k]);
        if k != s {
            assert(!newly(c0, c, k));
        }
    }
    assert(c2 =~= flooded(c0, d, s));
}

/// With nothing left to visit, the board is exactly the flood of `c0` from `s`.
proof fn lemma_flood_done(c0: Seq<Cell>, c: Seq<Cell>, d: Difficulty, s: int)
    requires
        flood_state(c0, c, Seq::<usize>::empty(), d, s),
    ensures
        c == flooded(c0, d, s),
        eligible(c0, s) ==> !c0[s].mine,
{
    assert forall|k: int, m: int|
        newly(c0, c, k) && opens(c0, d, k) && #[trigger] adjacent(d, k, m) implies c[m].revealed
            || c[m].flagged by {
        assert(!Seq::<usize>::empty().contains(m as usize));
    }
    if eligible(c0, s) {
        assert(!Seq::<usize>::empty().contains(s as usize));
        assert(newly(c0, c, s));
    }
    assert forall|k: int| 0 <= k < c0.len() implies #[trigger] c[k] == flooded(c0, d, s)[k] by {
        assert(c[k] == c[k]);
        assert(c0[k] == c0[k]);
        if flood_reaches(c0, d, s, k) {
            let path = choose|path: Seq<int>| #[trigger] flood_path(c0, d, s, path) && path.last() == k;
            assert(!Seq::<usize>::empty().contains(s as usize));
            lemma_path_revealed(c0, c, d, s, path, path.len() - 1);
        }
        if newly(c0, c, k) {
        }
    }
    assert(c =~= flooded(c0, d, s));
}

impl Game {
    /// Flood reveal from `start`: reveal it and, while the revealed square has no
    /// mine nearby, its hidden unflagged neighbours in turn. Revealing a mine
    /// loses the game.
    fn uncover(&mut self, start: usize)
        requires
            old(self).cells@.len() >= area(old(self).difficulty),
            start < old(self).cells@.len(),
        ensures
            final(self).difficulty == old(self).difficulty,
            final(self).elapsed_ms == old(self).elapsed_ms,
            final(self).opening == old(self).opening,
            final(self).cells@ == flooded(old(self).cells@, old(self).difficulty, start as int),
            eligible(old(self).cells@, start as int) && old(self).cells@[start as int].mine
                ==> final(self).status == Status::Lost && final(self).exploded == Some(start),
            !(eligible(old(self).cells@, start as int) && old(self).cells@[start as int].mine)
                ==> final(self).status == old(self).status && final(self).exploded == old(self).exploded,
    {
        let ghost c0 = self.cells@;
        let ghost d = self.difficulty;
        let ghost s = start as int;
        let mut pending: Vec<usize> = Vec::new();
        pending.push(start);
        proof {
            lemma_flood_start(c0, d, s);
            assert(pending@ == seq![start]);
            lemma_unrevealed_bounds(c0, c0.len() as int);
        }
        while pending.len() > 0
            invariant
                self.difficulty == d,
                d == old(self).difficulty,
                self.elapsed_ms == old(self).elapsed_ms,
                self.opening == old(self).opening,
                self.status == old(self).status,
                self.exploded == old(self).exploded,
                c0 == old(self).cells@,
                s == start as int,
                flood_state(c0, self.cells@, pending@, d, s),
                0 <= unrevealed(self.cells@),
            decreases unrevealed(self.cells@), pending@.len(),
        {
            let ghost before_pop = pending@;
            let ghost cur = self.cells@;
            let n = pending.pop().unwrap();
            proof {
                assert(pending@ == before_pop.drop_last());
                assert(n == before_pop.last());
            }
            if self.cells[n].flagged || self.cells[n].revealed {
                proof {
                    lemma_flood_skip(c0, cur, before_pop, d, s);
                }
                continue;
            }
            let mut c = self.cells[n];
            c.revealed = true;
            self.cells[n] = c;
            proof {
                assert(c == revealed_cell(cur[n as int]));
                assert(self.cells@ == cur.update(n as int, c));
                lemma_unrevealed_reveal(cur, n as int, c, cur.len() as int);
                lemma_unrevealed_bounds(self.cells@, self.cells@.len() as int);
                assert(self.cells@.len() == cur.len());
                assert(unrevealed(self.cells@) == unrevealed(cur) - 1);
            }
            if c.mine {
                self.exploded = Some(n);
                self.status = Status::Lost;
                proof {
                    lemma_flood_loss(c0, cur, before_pop, d, s);
                }
                return;
            }
            proof {
                lemma_adjacent_upto_props(d, n as int, area(d));
            }
            let count = self.adjacent(n);
            proof {
                lemma_adjacent_upto_props(d, n as int, area(d));
                lemma_mines_among_same(c0, self.cells@, neighbours_of(d, n as int));
            }
            if count == 0 {
                let mut ns = self.neighbours(n);
                pending.append(&mut ns);
                proof {
                    lemma_flood_reveal(c0, cur, before_pop, d, s, neighbours_of(d, n as int));
                }
            } else {
                proof {
                    lemma_flood_reveal(c0, cur, before_pop, d, s, Seq::<usize>::empty());
                    assert(pending@ =~= before_pop.drop_last() + Seq::<usize>::empty());
                }
            }
        }
        proof {
            assert(pending@ =~= Seq::<usize>::empty());
            lemma_flood_done(c0, self.cells@, d, s);
        }
    }

    /// How many neighbours of `i` hold a mine.
    pub fn adjacent(&self, i: usize) -> (r: usize)
        requires
            forall|k: int|
                0 <= k < neighbours_of(self.difficulty, i as int).len() ==> (#[trigger] neighbours_of(
                    self.difficulty,
                    i as int,
                )[k]) < self.cells@.len(),
        ensures
            r == mine_count(self.cells@, self.difficulty, i as int),
    {
        let ns = self.neighbours(i);
        proof {
            lemma_adjacent_upto_props(self.difficulty, i as int, area(self.difficulty));
        }
        let mut count: usize = 0;
        let mut k: usize = 0;
        while k < ns.len()
            invariant
                ns@ == neighbours_of(self.difficulty, i as int),
                forall|j: int| 0 <= j < ns@.len() ==> (#[trigger] ns@[j]) < self.cells@.len(),
                0 <= k <= ns@.len(),
                count == mines_among(self.cells@, ns@.take(k as int)),
                count <= k,
            decreases ns@.len() - k,
        {
            assert(ns@.take(k + 1).drop_last() =~= ns@.take(k as int));
            if self.cells[ns[k]].mine {
                count = count + 1;
            }
            k = k + 1;
        }
        assert(ns@.take(ns@.len() as int) =~= ns@);
        count
    }

    /// Mines left to find: the mine total minus the flags placed (may go negative).
    pub fn remaining(&self) -> (r: isize)
        requires
            self.cells@.len() <= isize::MAX,
        ensures
            r == mine_total(self.difficulty) - flags_upto(self.cells@, self.cells@.len() as int),
    {
        let mut flags: usize = 0;
        let mut k: usize = 0;
        while k < self.cells.len()
            invariant
                self.cells@.len() <= isize::MAX,
                0 <= k <= self.cells@.len(),
                flags == flags_upto(self.cells@, k as int),
                flags <= k,
            decreases self.cells@.len() - k,
        {
            if self.cells[k].flagged {
                flags = flags + 1;
            }
            k = k + 1;
        }
        let (_, _, mines) = self.difficulty.dimensions();
        mines as isize - flags as isize
    }

    pub open spec fn active_spec(self) -> bool {
        self.status == Status::Ready || self.status == Status::Playing
    }

    /// Whether the game still accepts moves.
    pub fn active(&self) -> (r: bool)
        ensures
            r == self.active_spec(),
    {
        self.status == Status::Ready || self.status == Status::Playing
    }

    /// Toggle the flag on a hidden square of an active game; otherwise nothing.
    pub fn flag(&mut self, i: usize)
        ensures
            final(self).difficulty == old(self).difficulty,
            final(self).status == old(self).status,
            final(self).elapsed_ms == old(self).elapsed_ms,
            final(self).opening == old(self).opening,
            final(self).exploded == old(self).exploded,
            final(self).cells@ == if old(self).active_spec() && i < old(self).cells@.len()
                && !old(self).cells@[i as int].revealed {
                old(self).cells@.update(
                    i as int,
                    Cell {
                        mine: old(self).cells@[i as int].mine,
                        revealed: false,
                        flagged: !old(self).cells@[i as int].flagged,
                    },
                )
            } else {
                old(self).cells@
            },
            old(self).valid_spec() ==> final(self).valid_spec(),
    {
        let ghost before = *self;
        if self.active() && i < self.cells.len() && !self.cells[i].revealed {
            let mut c = self.cells[i];
            c.flagged = !c.flagged;
            self.cells[i] = c;
        }
        proof {
            if before.valid_spec() {
                lemma_flag_keeps_valid(before, i, *self);
            }
        }
    }
}


impl Game {
    /// The game is won once every safe square is revealed.
    fn check_win(&mut self)
        ensures
            final(self).cells@ == old(self).cells@,
            final(self).difficulty == old(self).difficulty,
            final(self).elapsed_ms == old(self).elapsed_ms,
            final(self).opening == old(self).opening,
            final(self).exploded == old(self).exploded,
            final(self).status == if old(self).status == Status::Playing && cleared(old(self).cells@) {
                Status::Won
            } else {
                old(self).status
            },
    {
        if self.status == Status::Playing {
            let mut all = true;
            let mut k: usize = 0;
            while k < self.cells.len()
                invariant
                    0 <= k <= self.cells@.len(),
                    all == forall|j: int| 0 <= j < k ==> #[trigger] self.cells@[j].mine || self.cells@[j].revealed,
                decreases self.cells@.len() - k,
            {
                if !(self.cells[k].mine || self.cells[k].revealed) {
                    all = false;
                }
                k = k + 1;
            }
            if all {
                self.status = Status::Won;
            }
        }
    }
}

fn contains_index(v: &Vec<usize>, x: usize) -> (r: bool)
    ensures
        r == v@.contains(x),
{
    let mut k: usize = 0;
    while k < v.len()
        invariant
            0 <= k <= v@.len(),
            forall|j: int| 0 <= j < k ==> v@[j] != x,
        decreases v@.len() - k,
    {
        if v[k] == x {
            return true;
        }
        k = k + 1;
    }
    false
}

impl Game {
    /// Place the mines for a first reveal at `i`: never on `i` or its neighbours.
    fn seed(&mut self, i: usize, rng: &mut StdRng)
        requires
            old(self).cells@.len() >= area(old(self).difficulty),
            i < old(self).cells@.len(),
        ensures
            seeded(old(self).cells@, old(self).difficulty, i as int, final(self).cells@),
            final(self).difficulty == old(self).difficulty,
            final(self).status == old(self).status,
            final(self).elapsed_ms == old(self).elapsed_ms,
            final(self).opening == old(self).opening,
            final(self).exploded == old(self).exploded,
            (forall|k: int| 0 <= k < old(self).cells@.len() ==> !#[trigger] old(self).cells@[k].mine)
                ==> mines_upto(final(self).cells@, final(self).cells@.len() as int) == seeded_count(
                old(self).difficulty,
                candidates_upto(old(self).difficulty, i as int, old(self).cells@.len() as int),
            ),
            seeded_count(
                old(self).difficulty,
                candidates_upto(old(self).difficulty, i as int, old(self).cells@.len() as int),
            ) == mine_total(old(self).difficulty),
    {
        let ghost c0 = self.cells@;
        let ghost d = self.difficulty;
        let excluded = self.neighbours(i);
        let mut candidates: Vec<usize> = Vec::new();
        let mut n: usize = 0;
        proof {
            lemma_adjacent_upto_props(d, i as int, area(d));
        }
        while n < self.cells.len()
            invariant
                self.cells@ == c0,
                self.difficulty == d,
                self.status == old(self).status,
                self.elapsed_ms == old(self).elapsed_ms,
                self.opening == old(self).opening,
                self.exploded == old(self).exploded,
                c0 == old(self).cells@,
                c0.len() >= area(d),
                excluded@ == neighbours_of(d, i as int),
                forall|j: int| 0 <= j < area(d) && adjacent(d, i as int, j) ==> excluded@.contains(j as usize),
                forall|k: int| 0 <= k < excluded@.len() ==> adjacent(d, i as int, #[trigger] excluded@[k] as int),
                0 <= n <= c0.len(),
                candidates@ == candidates_upto(d, i as int, n as int),
            decreases c0.len() - n,
        {
            if n != i && !contains_index(&excluded, n) {
                candidates.push(n);
            }
            proof {
                if n as int != i as int && adjacent(d, i as int, n as int) {
                    assert(excluded@.contains(n));
                }
                if excluded@.contains(n) {
                    let k = choose|k: int| 0 <= k < excluded@.len() && excluded@[k] == n;
                    assert(adjacent(d, i as int, excluded@[k] as int));
                }
            }
            n = n + 1;
        }
        let ghost cands = candidates@;
        proof {
            lemma_partition(d, i as int, c0.len() as int);
            lemma_adjacent_same(d, i as int, area(d), c0.len() as int);
            assert(self.cells@.len() <= usize::MAX);
            lemma_candidates_props(d, i as int, c0.len() as int);
        }
        shuffle(&mut candidates, rng);
        let ghost order = candidates@;
        proof {
            cands.lemma_multiset_has_no_duplicates();
            order.lemma_multiset_has_no_duplicates_conv();
            order.to_multiset_ensures();
            cands.to_multiset_ensures();
            assert forall|k: int| 0 <= k < order.len() implies (#[trigger] order[k]) < c0.len() by {
                assert(order.contains(order[k]));
                assert(order.to_multiset().count(order[k]) > 0);
                assert(cands.contains(order[k]));
            }
        }
        self.plant(&candidates);
        let ghost take = seeded_count(d, order);
        proof {
            let after = self.cells@;
            assert forall|j: int| #![trigger after[j]] 0 <= j < c0.len() implies after[j].revealed == c0[j].revealed
                && after[j].flagged == c0[j].flagged && after[j].mine == (c0[j].mine || order.take(
                take,
            ).contains(j as usize)) by {
                assert(after[j] == planted(c0, order.take(take))[j]);
            }
        }
        proof {
            assert(order.to_multiset() == cands.to_multiset());
            assert(order.len() == cands.len());
            assert(take == seeded_count(d, cands));
        }
    }

    /// Mine the first `min(mine total, order.len())` squares of `order`: after
    /// the first reveal, `order` is the shuffled list of candidate squares.
    pub fn plant(&mut self, order: &Vec<usize>)
        requires
            forall|j: int| 0 <= j < order@.len() ==> (#[trigger] order@[j]) < old(self).cells@.len(),
        ensures
            final(self).cells@ == planted(
                old(self).cells@,
                order@.take(seeded_count(old(self).difficulty, order@)),
            ),
            final(self).difficulty == old(self).difficulty,
            final(self).status == old(self).status,
            final(self).elapsed_ms == old(self).elapsed_ms,
            final(self).opening == old(self).opening,
            final(self).exploded == old(self).exploded,
            order@.no_duplicates() && (forall|k: int|
                0 <= k < old(self).cells@.len() ==> !#[trigger] old(self).cells@[k].mine) ==> mines_upto(
                final(self).cells@,
                final(self).cells@.len() as int,
            ) == seeded_count(old(self).difficulty, order@),
    {
        let ghost c0 = self.cells@;
        let ghost d = self.difficulty;
        let ghost ord = order@;
        let (_, _, mines) = self.difficulty.dimensions();
        let take = if mines < order.len() {
            mines
        } else {
            order.len()
        };
        let n_cells = self.cells.len();
        proof {
            lemma_mines_none(c0, c0.len() as int);
            assert(c0.len() == n_cells);
        }
        let mut k: usize = 0;
        while k < take
            invariant
                self.difficulty == d,
                self.status == old(self).status,
                self.elapsed_ms == old(self).elapsed_ms,
                self.opening == old(self).opening,
                self.exploded == old(self).exploded,
                c0 == old(self).cells@,
                c0.len() <= usize::MAX,
                self.cells@.len() == c0.len(),
                order@ == ord,
                forall|j: int| 0 <= j < ord.len() ==> (#[trigger] ord[j]) < c0.len(),
                take <= ord.len(),
                take == seeded_count(d, ord),
                0 <= k <= take,
                forall|j: int|
                    #![trigger self.cells@[j]]
                    0 <= j < c0.len() ==> self.cells@[j].revealed == c0[j].revealed && self.cells@[j].flagged
                        == c0[j].flagged && self.cells@[j].mine == (c0[j].mine || ord.take(
                        k as int,
                    ).contains(j as usize)),
                ord.no_duplicates() && (forall|j: int| 0 <= j < c0.len() ==> !#[trigger] c0[j].mine) ==> mines_upto(
                    self.cells@,
                    c0.len() as int,
                ) == k,
            decreases take - k,
        {
            let at = order[k];
            let ghost before = self.cells@;
            let mut c = self.cells[at];
            c.mine = true;
            self.cells.set(at, c);
            proof {
                assert(ord.take(k + 1) =~= ord.take(k as int).push(at));
                if ord.no_duplicates() && forall|j: int| 0 <= j < c0.len() ==> !#[trigger] c0[j].mine {
                    assert(!ord.take(k as int).contains(at)) by {
                        if ord.take(k as int).contains(at) {
                            let j = choose|j: int| 0 <= j < k && #[trigger] ord.take(k as int)[j] == at;
                            assert(ord[j] == ord[k as int]);
                        }
                    }
                    assert(!before[at as int].mine);
                    lemma_mines_set(before, at as int, c, c0.len() as int);
                }
                assert forall|j: int| 0 <= j < c0.len() implies #[trigger] self.cells@[j].revealed == c0[j].revealed
                    && self.cells@[j].flagged == c0[j].flagged && self.cells@[j].mine == (c0[j].mine
                    || ord.take(k + 1).contains(j as usize)) by {
                    assert(before[j] == before[j]);
                    assert(j <= usize::MAX);
                    if j == at as int {
                        assert(ord.take(k + 1)[k as int] == at);
                    } else {
                        assert(self.cells@[j] == before[j]);
                        if ord.take(k + 1).contains(j as usize) {
                            let q = choose|q: int| 0 <= q < k + 1 && #[trigger] ord.take(k + 1)[q] == j as usize;
                            assert(q < k) by {
                                if q == k {
                                    assert(ord.take(k + 1)[q] == at);
                                }
                            }
                            assert(ord.take(k as int)[q] == j as usize);
                        }
                        if ord.take(k as int).contains(j as usize) {
                            let q = choose|q: int| 0 <= q < k && #[trigger] ord.take(k as int)[q] == j as usize;
                            assert(ord.take(k + 1)[q] == j as usize);
                        }
                    }
                }
            }
            k = k + 1;
        }
        proof {
            assert(self.cells@ =~= planted(c0, ord.take(take as int)));
        }
    }
}

/// The board with a mine added on each square of `chosen`.
pub open spec fn planted(cells: Seq<Cell>, chosen: Seq<usize>) -> Seq<Cell> {
    Seq::new(
        cells.len(),
        |k: int| Cell { mine: cells[k].mine || chosen.contains(k as usize), ..cells[k] },
    )
}

proof fn lemma_candidates_props(d: Difficulty, i: int, n: int)
    requires
        0 <= n <= usize::MAX,
    ensures
        candidates_upto(d, i, n).no_duplicates(),
        forall|k: int| 0 <= k < candidates_upto(d, i, n).len() ==> (#[trigger] candidates_upto(d, i, n)[k]) < n
            && candidates_upto(d, i, n)[k] != i && !adjacent(d, i, candidates_upto(d, i, n)[k] as int),
        forall|a: int, b: int|
            0 <= a < b < candidates_upto(d, i, n).len() ==> #[trigger] candidates_upto(d, i, n)[a]
                < #[trigger] candidates_upto(d, i, n)[b],
    decreases n,
{
    let c = candidates_upto(d, i, n);
    if n > 0 {
        lemma_candidates_props(d, i, n - 1);
        let prev = candidates_upto(d, i, n - 1);
        assert forall|a: int, b: int| 0 <= a < b < c.len() implies #[trigger] c[a] < #[trigger] c[b] by {
            assert(c[a] == prev[a]);
            if b < prev.len() {
                assert(c[b] == prev[b]);
            } else {
                assert(c[b] == (n - 1) as usize);
            }
        }
    }
    assert forall|a: int, b: int| 0 <= a < c.len() && 0 <= b < c.len() && a != b implies c[a] != c[b] by {
        if a < b {
            assert(c[a] < c[b]);
        } else {
            assert(c[b] < c[a]);
        }
    }
}

/// Every square below `n` is `i`, a neighbour of `i`, or a candidate for a mine.
proof fn lemma_partition(d: Difficulty, i: int, n: int)
    requires
        0 <= i,
        0 <= n,
    ensures
        candidates_upto(d, i, n).len() + adjacent_upto(d, i, n).len() + (if i < n {
            1int
        } else {
            0
        }) == n,
    decreases n,
{
    if n > 0 {
        lemma_partition(d, i, n - 1);
    }
}

proof fn lemma_mines_none(cells: Seq<Cell>, n: int)
    requires
        0 <= n <= cells.len(),
    ensures
        (forall|j: int| 0 <= j < cells.len() ==> !#[trigger] cells[j].mine) ==> mines_upto(cells, n) == 0,
    decreases n,
{
    if n > 0 {
        lemma_mines_none(cells, n - 1);
    }
}

proof fn lemma_mines_set(cells: Seq<Cell>, at: int, c: Cell, n: int)
    requires
        0 <= at < cells.len(),
        0 <= n <= cells.len(),
        !cells[at].mine,
        c.mine,
    ensures
        mines_upto(cells.update(at, c), n) == mines_upto(cells, n) + if at < n {
            1int
        } else {
            0
        },
    decreases n,
{
    if n > 0 {
        lemma_mines_set(cells, at, c, n - 1);
    }
}


/// Exactly square `e` is a revealed mine.
pub open spec fn exposed_only(cells: Seq<Cell>, e: int) -> bool {
    &&& 0 <= e < cells.len()
    &&& forall|k: int| 0 <= k < cells.len() ==> ((#[trigger] cells[k].mine && cells[k].revealed) <==> k == e)
}

/// No mine is revealed.
pub open spec fn none_exposed(cells: Seq<Cell>) -> bool {
    forall|k: int| 0 <= k < cells.len() ==> !(#[trigger] cells[k].mine && cells[k].revealed)
}

impl Game {
    /// The invariant of every game that is played or saved.
    pub open spec fn valid_spec(self) -> bool {
        let d = self.difficulty;
        let c = self.cells@;
        &&& c.len() == area(d)
        &&& forall|k: int| 0 <= k < c.len() ==> !(#[trigger] c[k].flagged && c[k].revealed)
        &&& if self.status == Status::Ready {
            &&& self.opening.is_none()
            &&& self.exploded.is_none()
            &&& self.elapsed_ms == 0
            &&& forall|k: int| 0 <= k < c.len() ==> !((#[trigger] c[k]).mine) && !c[k].revealed
        } else {
            &&& (self.opening matches Some(o) && {
                &&& o < area(d)
                &&& c[o as int].revealed
                &&& !c[o as int].mine
                &&& mine_count(c, d, o as int) == 0
            })
            &&& mines_upto(c, c.len() as int) == mine_total(d)
            &&& match self.status {
                Status::Playing => self.exploded.is_none() && none_exposed(c) && !cleared(c),
                Status::Won => self.exploded.is_none() && none_exposed(c) && cleared(c),
                Status::Lost => (self.exploded matches Some(e) && exposed_only(c, e as int)) && !cleared(c),
                Status::Ready => false,
            }
        }
    }

    /// What a reveal of hidden square `i` does to an active game: the first
    /// reveal seeds the mines away from `i` and its neighbours, then a flood
    /// reveal runs from `i`; a revealed mine loses, a cleared board wins.
    pub open spec fn revealed_to(self, i: int, next: Game) -> bool {
        let d = self.difficulty;
        exists|mid: Seq<Cell>|
            #![trigger flooded(mid, d, i)]
            (if self.status == Status::Ready {
                &&& seeded(self.cells@, d, i, mid)
                &&& (forall|k: int| 0 <= k < self.cells@.len() ==> !#[trigger] self.cells@[k].mine)
                    ==> mines_upto(mid, mid.len() as int) == mine_total(d)
            } else {
                mid == self.cells@
            }) && {
                &&& next.cells@ == flooded(mid, d, i)
                &&& next.difficulty == d
                &&& next.elapsed_ms == self.elapsed_ms
                &&& next.opening == if self.status == Status::Ready {
                    Some(i as usize)
                } else {
                    self.opening
                }
                &&& next.exploded == if mid[i].mine {
                    Some(i as usize)
                } else {
                    self.exploded
                }
                &&& next.status == if mid[i].mine {
                    Status::Lost
                } else if cleared(next.cells@) {
                    Status::Won
                } else {
                    Status::Playing
                }
            }
    }

    /// Whether a chord on `i` goes ahead: the game is under way, `i` is a
    /// revealed safe square and its flagged neighbours match its number.
    pub open spec fn chord_allowed(self, i: int) -> bool {
        &&& self.status == Status::Playing
        &&& 0 <= i < self.cells@.len()
        &&& self.cells@[i].revealed
        &&& !self.cells@[i].mine
        &&& flags_among(self.cells@, neighbours_of(self.difficulty, i)) == mine_count(
            self.cells@,
            self.difficulty,
            i,
        )
    }

    /// What an allowed chord on `i` does: the chord run over its neighbours.
    pub open spec fn chorded_to(self, i: int, next: Game) -> bool {
        let run = chord_run(self.cells@, self.difficulty, neighbours_of(self.difficulty, i));
        &&& next.cells@ == run.0
        &&& next.difficulty == self.difficulty
        &&& next.elapsed_ms == self.elapsed_ms
        &&& next.opening == self.opening
        &&& next.exploded == if run.1 is Some {
            run.1
        } else {
            self.exploded
        }
        &&& next.status == if run.1 is Some {
            Status::Lost
        } else if cleared(run.0) {
            Status::Won
        } else {
            Status::Playing
        }
    }

    /// Reveal square `i`. Ignored unless the game is active and `i` is a hidden,
    /// unflagged square of the board.
    pub fn reveal_cell(&mut self, i: usize, rng: &mut StdRng)
        requires
            old(self).active_spec() && eligible(old(self).cells@, i as int) ==> old(self).cells@.len()
                >= area(old(self).difficulty),
        ensures
            !(old(self).active_spec() && eligible(old(self).cells@, i as int)) ==> *final(self) == *old(
                self,
            ) && *final(rng) == *old(rng),
            old(self).active_spec() && eligible(old(self).cells@, i as int) ==> old(self).revealed_to(
                i as int,
                *final(self),
            ),
            old(self).valid_spec() ==> final(self).valid_spec(),
    {
        if !self.active() || i >= self.cells.len() || self.cells[i].flagged || self.cells[i].revealed {
            return;
        }
        let ghost before = *self;
        let ready = self.status == Status::Ready;
        if ready {
            self.seed(i, rng);
            self.opening = Some(i);
            self.status = Status::Playing;
        }
        let ghost mid = self.cells@;
        proof {
            assert(mid[i as int] == mid[i as int]);
            assert(before.cells@[i as int] == before.cells@[i as int]);
            assert(eligible(mid, i as int));
        }
        self.uncover(i);
        self.check_win();
        proof {
            assert(flooded(mid, before.difficulty, i as int) == self.cells@);
            if before.valid_spec() {
                lemma_reveal_keeps_valid(before, i, *self);
            }
        }
    }

    /// Chord on square `i`: when its flagged neighbours match its number, reveal
    /// every other neighbour (stopping at a mine).
    pub fn chord(&mut self, i: usize)
        requires
            ({
                let c = old(self).cells@;
                old(self).status == Status::Playing && 0 <= i < c.len() && c[i as int].revealed
                    && !c[i as int].mine ==> c.len() >= area(old(self).difficulty)
            }),
        ensures
            !old(self).chord_allowed(i as int) ==> *final(self) == *old(self),
            old(self).chord_allowed(i as int) ==> old(self).chorded_to(i as int, *final(self)),
            old(self).status != Status::Playing || !(0 <= i < old(self).cells@.len()) || flags_among(
                old(self).cells@,
                neighbours_of(old(self).difficulty, i as int),
            ) != mine_count(old(self).cells@, old(self).difficulty, i as int) ==> *final(self) == *old(
                self,
            ),
            old(self).valid_spec() ==> final(self).valid_spec(),
    {
        if self.status != Status::Playing || i >= self.cells.len() || !self.cells[i].revealed
            || self.cells[i].mine {
            return;
        }
        let ghost d = self.difficulty;
        let ghost c0 = self.cells@;
        let ns = self.neighbours(i);
        proof {
            lemma_adjacent_upto_props(d, i as int, area(d));
        }
        let mut flagged: usize = 0;
        let mut k: usize = 0;
        while k < ns.len()
            invariant
                ns@ == neighbours_of(d, i as int),
                self.cells@ == c0,
                c0.len() >= area(d),
                forall|j: int| 0 <= j < ns@.len() ==> (#[trigger] ns@[j]) < area(d),
                0 <= k <= ns@.len(),
                flagged == flags_among(c0, ns@.take(k as int)),
                flagged <= k,
            decreases ns@.len() - k,
        {
            assert(ns@.take(k + 1).drop_last() =~= ns@.take(k as int));
            if self.cells[ns[k]].flagged {
                flagged = flagged + 1;
            }
            k = k + 1;
        }
        assert(ns@.take(ns@.len() as int) =~= ns@);
        if flagged != self.adjacent(i) {
            return;
        }
        let ghost start = *self;
        proof {
            assert(start == *old(self));
            assert(old(self).chord_allowed(i as int));
        }
        let mut k: usize = 0;
        while k < ns.len()
            invariant
                c0 == old(self).cells@,
                d == old(self).difficulty,
                start == *old(self),
                old(self).chord_allowed(i as int),
                ns@ == neighbours_of(d, i as int),
                forall|j: int| 0 <= j < ns@.len() ==> (#[trigger] ns@[j]) < area(d),
                self.difficulty == d,
                self.cells@.len() == c0.len(),
                c0.len() >= area(d),
                self.status == Status::Playing,
                self.elapsed_ms == start.elapsed_ms,
                self.opening == start.opening,
                self.exploded == start.exploded,
                0 <= k <= ns@.len(),
                chord_run(c0, d, ns@) == chord_run(self.cells@, d, ns@.skip(k as int)),
            decreases ns@.len() - k,
        {
            let ghost cur = self.cells@;
            let n = ns[k];
            proof {
                assert(ns@.skip(k as int)[0] == n);
                assert(ns@.skip(k as int).skip(1) =~= ns@.skip(k + 1));
            }
            self.uncover(n);
            if self.status == Status::Lost {
                proof {
                    assert(eligible(cur, n as int) && cur[n as int].mine);
                    assert(chord_run(cur, d, ns@.skip(k as int)) == (flooded(cur, d, n as int), Some(n)));
                    if start.valid_spec() {
                        lemma_chord_keeps_valid(start, i, *self);
                    }
                }
                return;
            }
            k = k + 1;
        }
        proof {
            assert(ns@.skip(ns@.len() as int) =~= Seq::<usize>::empty());
        }
        self.check_win();
        proof {
            if start.valid_spec() {
                lemma_chord_keeps_valid(start, i, *self);
            }
        }
    }

    /// Check the invariant of every played or saved game.
    pub fn valid(&self) -> (r: bool)
        ensures
            r == self.valid_spec(),
    {
        let (w, h, mines) = self.difficulty.dimensions();
        let n = w * h;
        if self.cells.len() != n {
            return false;
        }
        let ghost c = self.cells@;
        let e: usize = match self.exploded {
            Some(e) => e,
            None => n,
        };
        let mut no_conflict = true;
        let mut untouched = true;
        let mut all_clear = true;
        let mut no_exposed = true;
        let mut only_e = true;
        let mut mine_cells: usize = 0;
        let mut k: usize = 0;
        while k < n
            invariant
                c == self.cells@,
                c.len() == n,
                n == area(self.difficulty),
                0 <= k <= n,
                no_conflict == forall|j: int| 0 <= j < k ==> !(#[trigger] c[j]).flagged || !c[j].revealed,
                untouched == forall|j: int| 0 <= j < k ==> !(#[trigger] c[j]).mine && !c[j].revealed,
                all_clear == forall|j: int| 0 <= j < k ==> (#[trigger] c[j]).mine || c[j].revealed,
                no_exposed == forall|j: int| 0 <= j < k ==> !(#[trigger] c[j]).mine || !c[j].revealed,
                only_e == forall|j: int| 0 <= j < k ==> (((#[trigger] c[j]).mine && c[j].revealed) <==> j == e),
                mine_cells == mines_upto(c, k as int),
                mine_cells <= k,
            decreases n - k,
        {
            let cell = self.cells[k];
            assert(cell == c[k as int]);
            if cell.flagged && cell.revealed {
                no_conflict = false;
            }
            if cell.mine || cell.revealed {
                untouched = false;
            }
            if !(cell.mine || cell.revealed) {
                all_clear = false;
            }
            let exposed = cell.mine && cell.revealed;
            if exposed {
                no_exposed = false;
            }
            if exposed != (k == e) {
                only_e = false;
            }
            if cell.mine {
                mine_cells = mine_cells + 1;
            }
            k = k + 1;
        }
        if !no_conflict {
            return false;
        }
        if self.status == Status::Ready {
            return self.opening.is_none() && self.exploded.is_none() && self.elapsed_ms == 0 && untouched;
        }
        let opening = match self.opening {
            Some(o) => o,
            None => return false,
        };
        proof {
            lemma_adjacent_upto_props(self.difficulty, opening as int, area(self.difficulty));
        }
        if opening >= n || !self.cells[opening].revealed || self.cells[opening].mine || self.adjacent(
            opening,
        ) != 0 || mine_cells != mines {
            return false;
        }
        match self.status {
            Status::Playing => self.exploded.is_none() && no_exposed && !all_clear,
            Status::Won => self.exploded.is_none() && no_exposed && all_clear,
            Status::Lost => self.exploded.is_some() && e < n && only_e && !all_clear,
            Status::Ready => false,
        }
    }
}


proof fn lemma_mines_upto_same(a: Seq<Cell>, b: Seq<Cell>, n: int)
    requires
        0 <= n <= a.len(),
        a.len() == b.len(),
        forall|k: int| 0 <= k < a.len() ==> #[trigger] a[k].mine == b[k].mine,
    ensures
        mines_upto(a, n) == mines_upto(b, n),
    decreases n,
{
    if n > 0 {
        lemma_mines_upto_same(a, b, n - 1);
    }
}

proof fn lemma_mines_among_none(cells: Seq<Cell>, ns: Seq<usize>)
    requires
        forall|k: int| 0 <= k < ns.len() ==> !cells[#[trigger] ns[k] as int].mine,
    ensures
        mines_among(cells, ns) == 0,
    decreases ns.len(),
{
    if ns.len() > 0 {
        lemma_mines_among_none(cells, ns.drop_last());
        assert(ns.last() == ns[ns.len() - 1]);
    }
}

/// What a flood reveal changes: only hidden, unflagged squares become
/// revealed; mines it reveals are at most the start.
proof fn lemma_flood_effect(c: Seq<Cell>, d: Difficulty, s: int)
    requires
        0 <= s < c.len(),
    ensures
        flooded(c, d, s).len() == c.len(),
        forall|k: int|
            #![trigger flooded(c, d, s)[k]]
            0 <= k < c.len() ==> flooded(c, d, s)[k].mine == c[k].mine && flooded(c, d, s)[k].flagged
                == c[k].flagged && (c[k].revealed ==> flooded(c, d, s)[k].revealed),
        forall|k: int|
            #![trigger flooded(c, d, s)[k]]
            0 <= k < c.len() && flooded(c, d, s)[k].revealed && !c[k].revealed ==> eligible(c, k) && (
            !c[k].mine || k == s),
        eligible(c, s) ==> flooded(c, d, s)[s].revealed,
        c[s].mine ==> forall|k: int|
            #![trigger flooded(c, d, s)[k]]
            0 <= k < c.len() && k != s ==> flooded(c, d, s)[k].revealed == c[k].revealed,
{
    let f = flooded(c, d, s);
    assert forall|k: int| 0 <= k < c.len() && f[k].revealed && !c[k].revealed implies eligible(c, k) && (
    !c[k].mine || k == s) by {
        let path = choose|path: Seq<int>| #[trigger] flood_path(c, d, s, path) && path.last() == k;
        assert(path[path.len() - 1] == k);
        if path.len() > 1 {
            let p = path[path.len() - 2];
            assert(opens(c, d, p) && adjacent(d, p, path[path.len() - 1]));
            lemma_opens_no_mine(c, d, p, k);
        }
    }
    if eligible(c, s) {
        let sp = seq![s];
        assert(sp[0] == s);
        assert(flood_path(c, d, s, sp));
    }
    if c[s].mine {
        assert forall|k: int| 0 <= k < c.len() && k != s implies #[trigger] f[k].revealed == c[k].revealed by {
            lemma_closed_start(c, d, s, k);
        }
    }
}

/// Flagging keeps a valid game valid.
pub proof fn lemma_flag_keeps_valid(g: Game, i: usize, next: Game)
    requires
        g.valid_spec(),
        next.difficulty == g.difficulty,
        next.status == g.status,
        next.elapsed_ms == g.elapsed_ms,
        next.opening == g.opening,
        next.exploded == g.exploded,
        next.cells@ == if g.active_spec() && i < g.cells@.len() && !g.cells@[i as int].revealed {
            g.cells@.update(
                i as int,
                Cell { mine: g.cells@[i as int].mine, revealed: false, flagged: !g.cells@[i as int].flagged },
            )
        } else {
            g.cells@
        },
    ensures
        next.valid_spec(),
{
    let c = g.cells@;
    let n = next.cells@;
    assert forall|k: int| 0 <= k < n.len() implies #[trigger] n[k].mine == c[k].mine && n[k].revealed
        == c[k].revealed by {
        assert(c[k] == c[k]);
    }
    lemma_mines_upto_same(c, n, c.len() as int);
    if let Some(o) = g.opening {
        if g.status != Status::Ready {
            lemma_adjacent_upto_props(g.difficulty, o as int, area(g.difficulty));
            lemma_mines_among_same(c, n, neighbours_of(g.difficulty, o as int));
        }
    }
    assert forall|k: int| 0 <= k < n.len() implies !(#[trigger] n[k].flagged && n[k].revealed) by {
        assert(c[k] == c[k]);
    }
    if g.status == Status::Ready {
        assert forall|k: int| 0 <= k < n.len() implies !((#[trigger] n[k]).mine) && !n[k].revealed by {
            assert(c[k] == c[k]);
        }
    }
    assert(cleared(n) == cleared(c)) by {
        if cleared(c) {
            assert forall|k: int| 0 <= k < n.len() implies #[trigger] n[k].mine || n[k].revealed by {
                assert(c[k] == c[k]);
            }
        }
        if cleared(n) {
            assert forall|k: int| 0 <= k < c.len() implies #[trigger] c[k].mine || c[k].revealed by {
                assert(n[k].mine || n[k].revealed);
                assert(c[k] == c[k]);
            }
        }
    }
    assert(none_exposed(n) == none_exposed(c)) by {
        if none_exposed(c) {
            assert forall|k: int| 0 <= k < n.len() implies !(#[trigger] n[k].mine && n[k].revealed) by {
                assert(c[k] == c[k]);
            }
        }
        if none_exposed(n) {
            assert forall|k: int| 0 <= k < c.len() implies !(#[trigger] c[k].mine && c[k].revealed) by {
                assert(n[k] == n[k]);
            }
        }
    }
    if g.status == Status::Lost {
        let e = g.exploded.unwrap() as int;
        assert forall|k: int| 0 <= k < n.len() implies ((#[trigger] n[k].mine && n[k].revealed) <==> k == e) by {
            assert(c[k] == c[k]);
        }
    }
}

/// A reveal keeps a valid game valid. In particular the first reveal is safe:
/// the opened square has no mine on it or next to it, and exactly the mine
/// total is placed.
pub proof fn lemma_reveal_keeps_valid(g: Game, i: usize, next: Game)
    requires
        g.valid_spec(),
        g.active_spec(),
        eligible(g.cells@, i as int),
        g.revealed_to(i as int, next),
    ensures
        next.valid_spec(),
{
    let d = g.difficulty;
    let c = g.cells@;
    let ii = i as int;
    let mid = choose|mid: Seq<Cell>|
        #![trigger flooded(mid, d, ii)]
        (if g.status == Status::Ready {
            &&& seeded(c, d, ii, mid)
            &&& (forall|k: int| 0 <= k < c.len() ==> !#[trigger] c[k].mine) ==> mines_upto(mid, mid.len() as int)
                == mine_total(d)
        } else {
            mid == c
        }) && {
            &&& next.cells@ == flooded(mid, d, ii)
            &&& next.difficulty == d
            &&& next.elapsed_ms == g.elapsed_ms
            &&& next.opening == if g.status == Status::Ready {
                Some(i)
            } else {
                g.opening
            }
            &&& next.exploded == if mid[ii].mine {
                Some(i)
            } else {
                g.exploded
            }
            &&& next.status == if mid[ii].mine {
                Status::Lost
            } else if cleared(next.cells@) {
                Status::Won
            } else {
                Status::Playing
            }
        };
    let n = next.cells@;
    // The seeded board keeps flags and revealed marks.
    if g.status == Status::Ready {
        let cands = candidates_upto(d, ii, c.len() as int);
        let order = choose|order: Seq<usize>|
            #![trigger order.to_multiset()]
            order.to_multiset() == cands.to_multiset() && {
                let chosen = order.take(seeded_count(d, cands));
                &&& mid.len() == c.len()
                &&& forall|k: int|
                    #![trigger mid[k]]
                    0 <= k < c.len() ==> mid[k].revealed == c[k].revealed && mid[k].flagged == c[k].flagged
                        && mid[k].mine == (c[k].mine || chosen.contains(k as usize))
            };
        let chosen = order.take(seeded_count(d, cands));
        assert(c.len() <= usize::MAX) by {
            assert(c.len() == area(d));
        }
        lemma_candidates_props(d, ii, c.len() as int);
        order.to_multiset_ensures();
        cands.to_multiset_ensures();
        // No mine lands on the opening square or next to it.
        assert forall|k: int| 0 <= k < c.len() && (k == ii || adjacent(d, ii, k)) implies !#[trigger] mid[k].mine by {
            assert(!c[k].mine);
            if chosen.contains(k as usize) {
                let q = choose|q: int| 0 <= q < chosen.len() && chosen[q] == k as usize;
                assert(chosen[q] == order[q]);
                assert(order.contains(order[q]));
                assert(order.to_multiset().count(k as usize) > 0);
                assert(cands.to_multiset().count(k as usize) > 0);
                assert(cands.contains(k as usize));
                let r = choose|r: int| 0 <= r < cands.len() && cands[r] == k as usize;
            }
        }
        assert(!mid[ii].mine);
        lemma_adjacent_upto_props(d, ii, area(d));
        assert forall|k: int| 0 <= k < neighbours_of(d, ii).len() implies !mid[#[trigger] neighbours_of(d, ii)[k] as int].mine by {
            let m = neighbours_of(d, ii)[k] as int;
            assert(adjacent(d, ii, m));
        }
        lemma_mines_among_none(mid, neighbours_of(d, ii));
        assert forall|k: int| 0 <= k < c.len() implies !#[trigger] c[k].mine by {}
    } else {
        assert(mid == c);
    }
    assert(mid.len() == c.len());
    assert(eligible(mid, ii)) by {
        assert(mid[ii] == mid[ii]);
        assert(c[ii] == c[ii]);
    }
    lemma_flood_effect(mid, d, ii);
    lemma_mines_upto_same(mid, n, c.len() as int);
    // No square is both flagged and revealed.
    assert forall|k: int| 0 <= k < n.len() implies !(#[trigger] n[k].flagged && n[k].revealed) by {
        assert(mid[k] == mid[k]);
        assert(c[k] == c[k]);
        assert(n[k] == flooded(mid, d, ii)[k]);
    }
    // The opening square.
    let o = next.opening.unwrap() as int;
    assert(o < area(d));
    lemma_adjacent_upto_props(d, o, area(d));
    lemma_mines_among_same(mid, n, neighbours_of(d, o));
    assert(n[o] == flooded(mid, d, ii)[o]);
    if g.status != Status::Ready {
        assert(mid[o] == c[o]);
    }
    // The mine total.
    if g.status != Status::Ready {
        lemma_mines_upto_same(mid, c, c.len() as int);
    }
    // Exposed mines and the win condition.
    if mid[ii].mine {
        assert(g.status == Status::Playing);
        assert forall|k: int| 0 <= k < n.len() implies ((#[trigger] n[k].mine && n[k].revealed) <==> k == ii) by {
            assert(n[k] == flooded(mid, d, ii)[k]);
            assert(c[k] == c[k]);
        }
        let (w0) = choose|k: int| 0 <= k < c.len() && !(#[trigger] c[k].mine || c[k].revealed);
        assert(n[w0] == flooded(mid, d, ii)[w0]);
    } else {
        assert forall|k: int| 0 <= k < n.len() implies !(#[trigger] n[k].mine && n[k].revealed) by {
            assert(n[k] == flooded(mid, d, ii)[k]);
            assert(mid[k] == mid[k]);
            assert(c[k] == c[k]);
        }
    }
}


/// The marks that every move keeps: the board size, mines and flags fixed, no
/// square flagged and revealed, and revealed squares staying revealed.
pub open spec fn keeps_marks(before: Seq<Cell>, after: Seq<Cell>) -> bool {
    &&& after.len() == before.len()
    &&& forall|k: int|
        #![trigger after[k]]
        0 <= k < before.len() ==> after[k].mine == before[k].mine && after[k].flagged == before[k].flagged
            && (before[k].revealed ==> after[k].revealed)
}

pub open spec fn no_conflict(cells: Seq<Cell>) -> bool {
    forall|k: int| 0 <= k < cells.len() ==> !(#[trigger] cells[k].flagged && cells[k].revealed)
}

/// A chord run keeps the marks; it reveals no mine except the one it stops at.
proof fn lemma_chord_run(cells: Seq<Cell>, d: Difficulty, ns: Seq<usize>)
    requires
        no_conflict(cells),
        none_exposed(cells),
        forall|k: int| 0 <= k < ns.len() ==> (#[trigger] ns[k]) < cells.len(),
    ensures
        keeps_marks(cells, chord_run(cells, d, ns).0),
        no_conflict(chord_run(cells, d, ns).0),
        chord_run(cells, d, ns).1 matches Some(e) ==> exposed_only(chord_run(cells, d, ns).0, e as int),
        chord_run(cells, d, ns).1 is None ==> none_exposed(chord_run(cells, d, ns).0),
        chord_run(cells, d, ns).1 matches Some(e) ==> ns.contains(e) && cells[e as int].mine
            && !cells[e as int].flagged,
    decreases ns.len(),
{
    if ns.len() > 0 {
        let n = ns[0] as int;
        let next = flooded(cells, d, n);
        lemma_flood_effect(cells, d, n);
        assert forall|k: int| 0 <= k < next.len() implies !(#[trigger] next[k].flagged && next[k].revealed) by {
            assert(next[k] == flooded(cells, d, n)[k]);
            assert(cells[k] == cells[k]);
        }
        if eligible(cells, n) && cells[n].mine {
            assert(ns[0] == ns[0]);
            assert forall|k: int| 0 <= k < next.len() implies ((#[trigger] next[k].mine && next[k].revealed) <==> k == n) by {
                assert(next[k] == flooded(cells, d, n)[k]);
                assert(cells[k] == cells[k]);
            }
            assert forall|k: int| 0 <= k < cells.len() implies #[trigger] next[k].mine == cells[k].mine && next[k].flagged
                == cells[k].flagged && (cells[k].revealed ==> next[k].revealed) by {
                assert(next[k] == flooded(cells, d, n)[k]);
            }
        } else {
            assert forall|k: int| 0 <= k < next.len() implies !(#[trigger] next[k].mine && next[k].revealed) by {
                assert(next[k] == flooded(cells, d, n)[k]);
                assert(cells[k] == cells[k]);
                if next[k].revealed && !cells[k].revealed && k == n {
                    assert(eligible(cells, n));
                }
            }
            let rest = ns.skip(1);
            assert forall|k: int| 0 <= k < rest.len() implies (#[trigger] rest[k]) < next.len() by {
                assert(rest[k] == ns[k + 1]);
            }
            lemma_chord_run(next, d, rest);
            if let Some(e) = chord_run(next, d, rest).1 {
                let k = choose|k: int| 0 <= k < rest.len() && rest[k] == e;
                assert(ns[k + 1] == e);
                assert(next[e as int] == flooded(cells, d, n)[e as int]);
            }
            let fin = chord_run(next, d, rest).0;
            assert forall|k: int| 0 <= k < cells.len() implies #[trigger] fin[k].mine == cells[k].mine && fin[k].flagged
                == cells[k].flagged && (cells[k].revealed ==> fin[k].revealed) by {
                assert(next[k] == flooded(cells, d, n)[k]);
                assert(fin[k] == fin[k]);
            }
        }
    }
}

/// A chord keeps a valid game valid. In particular a chord that reveals a mine
/// never leaves the board cleared: the flags match the number, so a mine left
/// unflagged means some flag sits on a safe neighbour, which stays hidden.
pub proof fn lemma_chord_keeps_valid(g: Game, i: usize, next: Game)
    requires
        g.valid_spec(),
        g.chord_allowed(i as int),
        g.chorded_to(i as int, next),
    ensures
        next.valid_spec(),
{
    let d = g.difficulty;
    let c = g.cells@;
    let ns = neighbours_of(d, i as int);
    lemma_adjacent_upto_props(d, i as int, area(d));
    lemma_chord_run(c, d, ns);
    let n = next.cells@;
    lemma_mines_upto_same(c, n, c.len() as int);
    let o = g.opening.unwrap() as int;
    lemma_adjacent_upto_props(d, o, area(d));
    lemma_mines_among_same(c, n, neighbours_of(d, o));
    assert(n[o] == n[o]);
    assert(c[o] == c[o]);
    if let Some(e) = chord_run(c, d, ns).1 {
        let ke = choose|k: int| 0 <= k < ns.len() && ns[k] == e;
        lemma_flag_balance(c, ns);
        lemma_open_mine_counted(c, ns, ke);
        lemma_safe_flag_witness(c, ns);
        let f = choose|k: int| 0 <= k < ns.len() && #[trigger] c[ns[k] as int].flagged && !c[ns[k] as int].mine;
        let q = ns[f] as int;
        assert(n[q].mine == c[q].mine && n[q].flagged == c[q].flagged);
        assert(!(n[q].flagged && n[q].revealed));
        assert(!(n[q].mine || n[q].revealed));
    }
}

/// A chord acts only on a revealed safe square of a game in play whose flagged
/// neighbours number exactly its mines; a count that is off either way, or any
/// other square, leaves the game alone.
pub proof fn lemma_chord_needs_matching_flags(g: Game, i: int)
    ensures
        g.chord_allowed(i) ==> g.status == Status::Playing && 0 <= i < g.cells@.len()
            && g.cells@[i].revealed && !g.cells@[i].mine,
        flags_among(g.cells@, neighbours_of(g.difficulty, i)) < mine_count(g.cells@, g.difficulty, i)
            ==> !g.chord_allowed(i),
        flags_among(g.cells@, neighbours_of(g.difficulty, i)) > mine_count(g.cells@, g.difficulty, i)
            ==> !g.chord_allowed(i),
{
}

/// How many of the squares `ns` carry a flag but no mine.
pub open spec fn safe_flags(cells: Seq<Cell>, ns: Seq<usize>) -> int
    decreases ns.len(),
{
    if ns.len() == 0 {
        0
    } else {
        safe_flags(cells, ns.drop_last()) + if cells[ns.last() as int].flagged
            && !cells[ns.last() as int].mine {
            1int
        } else {
            0
        }
    }
}

/// How many of the squares `ns` hold a mine but no flag.
pub open spec fn open_mines(cells: Seq<Cell>, ns: Seq<usize>) -> int
    decreases ns.len(),
{
    if ns.len() == 0 {
        0
    } else {
        open_mines(cells, ns.drop_last()) + if cells[ns.last() as int].mine
            && !cells[ns.last() as int].flagged {
            1int
        } else {
            0
        }
    }
}

proof fn lemma_flag_balance(cells: Seq<Cell>, ns: Seq<usize>)
    ensures
        flags_among(cells, ns) - mines_among(cells, ns) == safe_flags(cells, ns) - open_mines(cells, ns),
        safe_flags(cells, ns) >= 0,
        open_mines(cells, ns) >= 0,
    decreases ns.len(),
{
    if ns.len() > 0 {
        lemma_flag_balance(cells, ns.drop_last());
    }
}

proof fn lemma_open_mine_counted(cells: Seq<Cell>, ns: Seq<usize>, k: int)
    requires
        0 <= k < ns.len(),
        cells[ns[k] as int].mine,
        !cells[ns[k] as int].flagged,
    ensures
        open_mines(cells, ns) >= 1,
    decreases ns.len(),
{
    lemma_flag_balance(cells, ns.drop_last());
    if k < ns.len() - 1 {
        assert(ns.drop_last()[k] == ns[k]);
        lemma_open_mine_counted(cells, ns.drop_last(), k);
    }
}

proof fn lemma_safe_flag_witness(cells: Seq<Cell>, ns: Seq<usize>)
    requires
        safe_flags(cells, ns) >= 1,
    ensures
        exists|k: int| 0 <= k < ns.len() && #[trigger] cells[ns[k] as int].flagged && !cells[ns[k] as int].mine,
    decreases ns.len(),
{
    let last = ns.len() - 1;
    if cells[ns[last] as int].flagged && !cells[ns[last] as int].mine {
        assert(cells[ns[last] as int].flagged);
    } else {
        lemma_safe_flag_witness(cells, ns.drop_last());
        let k = choose|k: int| 0 <= k < ns.drop_last().len() && #[trigger] cells[ns.drop_last()[k] as int].flagged
            && !cells[ns.drop_last()[k] as int].mine;
        assert(ns.drop_last()[k] == ns[k]);
        assert(cells[ns[k] as int].flagged);
    }
}

} // verus!
