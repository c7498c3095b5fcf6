//! 2048: sliding, merging, spawning, undo and the save-state rules.
//!
//! A board is four rows of four tiles; zero is an empty square. A move packs
//! every line towards the chosen edge and merges each equal neighbouring pair
//! once, in movement order.
use crate::rng::{below, chance};
use rand::rngs::StdRng;
use vstd::prelude::*;

verus! {

pub type Board = [[u64; 4]; 4];

pub type Cell = [usize; 2];

pub const UNDO_LIMIT: usize = 20;

/// Larger than the largest attainable tile on a classic 4x4 board (2^32).
pub const MAX_TILE: u64 = 4294967296;

/// The tile that offers the win.
pub const WIN_TILE: u64 = 2048;

#[derive(Clone, Copy, Debug, PartialEq, Eq)]
pub enum Direction {
    Left,
    Right,
    Up,
    Down,
}

/// The cell at `offset` along `line`, counted in the direction of motion.
pub open spec fn cell_of(d: Direction, line: int, offset: int) -> Cell {
    match d {
        Direction::Left => [line as usize, offset as usize],
        Direction::Right => [line as usize, (3 - offset) as usize],
        Direction::Up => [offset as usize, line as usize],
        Direction::Down => [(3 - offset) as usize, line as usize],
    }
}

/// The line that holds square (r, c) for a move in direction `d`.
pub open spec fn line_of(d: Direction, r: int, c: int) -> int {
    match d {
        Direction::Left | Direction::Right => r,
        Direction::Up | Direction::Down => c,
    }
}

/// How far along its line square (r, c) lies, counted in the direction of motion.
pub open spec fn offset_of(d: Direction, r: int, c: int) -> int {
    match d {
        Direction::Left => c,
        Direction::Right => 3 - c,
        Direction::Up => r,
        Direction::Down => 3 - r,
    }
}

impl Direction {
    fn cell(self, line: usize, offset: usize) -> (r: Cell)
        requires
            line < 4,
            offset < 4,
        ensures
            r == cell_of(self, line as int, offset as int),
            r[0] < 4,
            r[1] < 4,
    {
        match self {
            Self::Left => [line, offset],
            Self::Right => [line, 3 - offset],
            Self::Up => [offset, line],
            Self::Down => [3 - offset, line],
        }
    }
}

pub open spec fn in_bounds(c: Cell) -> bool {
    c[0] < 4 && c[1] < 4
}

pub open spec fn tile(b: Board, c: Cell) -> u64 {
    b[c[0] as int][c[1] as int]
}

#[derive(Clone, Debug)]
pub struct Motion {
    pub from: Cell,
    pub to: Cell,
    pub value: u64,
}

#[derive(Clone, Debug)]
pub struct Turn {
    pub board: Board,
    pub score_delta: u64,
    pub moved: bool,
    pub merges: Vec<Cell>,
    pub moves: Vec<Motion>,
    pub spawned: Option<Cell>,
}

/// The occupied cells among the first `n` of `line`, in movement order.
pub open spec fn packed_upto(b: Board, d: Direction, line: int, n: int) -> Seq<Cell>
    decreases n,
{
    if n <= 0 {
        seq![]
    } else {
        let p = packed_upto(b, d, line, n - 1);
        let c = cell_of(d, line, n - 1);
        if tile(b, c) != 0 {
            p.push(c)
        } else {
            p
        }
    }
}

/// The occupied cells of a whole line, in movement order.
pub open spec fn packed(b: Board, d: Direction, line: int) -> Seq<Cell> {
    packed_upto(b, d, line, 4)
}

/// Whether the tile at `p[i]` merges with the next occupied tile.
pub open spec fn merges_at(b: Board, p: Seq<Cell>, i: int) -> bool {
    &&& 0 <= i
    &&& i + 1 < p.len()
    &&& tile(b, p[i]) < MAX_TILE
    &&& tile(b, p[i]) == tile(b, p[i + 1])
}

/// The tiles that the occupied cells `p[i..]` leave behind, in movement order.
pub open spec fn out_values(b: Board, p: Seq<Cell>, i: int) -> Seq<u64>
    decreases p.len() - i,
{
    if i < 0 || i >= p.len() {
        seq![]
    } else if merges_at(b, p, i) {
        seq![(2 * tile(b, p[i])) as u64] + out_values(b, p, i + 2)
    } else {
        seq![tile(b, p[i])] + out_values(b, p, i + 1)
    }
}

/// The source-to-destination motions of `p[i..]`; `out` is the first free offset.
pub open spec fn out_moves(b: Board, d: Direction, line: int, p: Seq<Cell>, i: int, out: int) -> Seq<
    Motion,
>
    decreases p.len() - i,
{
    if i < 0 || i >= p.len() {
        seq![]
    } else if merges_at(b, p, i) {
        let to = cell_of(d, line, out);
        seq![
            Motion { from: p[i], to, value: tile(b, p[i]) },
            Motion { from: p[i + 1], to, value: tile(b, p[i]) },
        ] + out_moves(b, d, line, p, i + 2, out + 1)
    } else {
        seq![Motion { from: p[i], to: cell_of(d, line, out), value: tile(b, p[i]) }] + out_moves(
            b,
            d,
            line,
            p,
            i + 1,
            out + 1,
        )
    }
}

/// The destination of each merge made by `p[i..]`.
pub open spec fn out_merges(b: Board, d: Direction, line: int, p: Seq<Cell>, i: int, out: int) -> Seq<
    Cell,
>
    decreases p.len() - i,
{
    if i < 0 || i >= p.len() {
        seq![]
    } else if merges_at(b, p, i) {
        seq![cell_of(d, line, out)] + out_merges(b, d, line, p, i + 2, out + 1)
    } else {
        out_merges(b, d, line, p, i + 1, out + 1)
    }
}

/// The points scored by the merges of `p[i..]`: the sum of the merged tiles.
pub open spec fn out_score(b: Board, p: Seq<Cell>, i: int) -> int
    decreases p.len() - i,
{
    if i < 0 || i >= p.len() {
        0
    } else if merges_at(b, p, i) {
        2 * tile(b, p[i]) + out_score(b, p, i + 2)
    } else {
        out_score(b, p, i + 1)
    }
}

/// The tiles of `line` after the move, in movement order (occupied ones first).
pub open spec fn line_result(b: Board, d: Direction, line: int) -> Seq<u64> {
    out_values(b, packed(b, d, line), 0)
}

/// The tile at square (r, c) after sliding `b` in direction `d`.
pub open spec fn slid_tile(b: Board, d: Direction, r: int, c: int) -> u64 {
    let vals = line_result(b, d, line_of(d, r, c));
    let o = offset_of(d, r, c);
    if o < vals.len() {
        vals[o]
    } else {
        0
    }
}

/// All motions of lines `0..n`, line by line.
pub open spec fn turn_moves(b: Board, d: Direction, n: int) -> Seq<Motion>
    decreases n,
{
    if n <= 0 {
        seq![]
    } else {
        turn_moves(b, d, n - 1) + out_moves(b, d, n - 1, packed(b, d, n - 1), 0, 0)
    }
}

/// All merge destinations of lines `0..n`, line by line.
pub open spec fn turn_merges(b: Board, d: Direction, n: int) -> Seq<Cell>
    decreases n,
{
    if n <= 0 {
        seq![]
    } else {
        turn_merges(b, d, n - 1) + out_merges(b, d, n - 1, packed(b, d, n - 1), 0, 0)
    }
}

/// The score of the merges of lines `0..n`.
pub open spec fn turn_score(b: Board, d: Direction, n: int) -> int
    decreases n,
{
    if n <= 0 {
        0
    } else {
        turn_score(b, d, n - 1) + out_score(b, packed(b, d, n - 1), 0)
    }
}

/// Whether sliding `b` in direction `d` changes any square.
pub open spec fn slide_moves(b: Board, d: Direction) -> bool {
    exists|r: int, c: int| 0 <= r < 4 && 0 <= c < 4 && #[trigger] slid_tile(b, d, r, c) != b[r][c]
}

proof fn lemma_packed(b: Board, d: Direction, line: int, n: int)
    requires
        0 <= line < 4,
        0 <= n <= 4,
    ensures
        packed_upto(b, d, line, n).len() <= n,
        forall|k: int|
            0 <= k < packed_upto(b, d, line, n).len() ==> in_bounds(
                #[trigger] packed_upto(b, d, line, n)[k],
            ) && tile(b, packed_upto(b, d, line, n)[k]) != 0,
    decreases n,
{
    if n > 0 {
        lemma_packed(b, d, line, n - 1);
    }
}

proof fn lemma_line_bounds(b: Board, p: Seq<Cell>, i: int)
    requires
        0 <= i <= p.len(),
    ensures
        out_values(b, p, i).len() <= p.len() - i,
        0 <= out_score(b, p, i) <= (p.len() - i) * MAX_TILE,
    decreases p.len() - i,
{
    if i < p.len() {
        if merges_at(b, p, i) {
            lemma_line_bounds(b, p, i + 2);
        } else {
            lemma_line_bounds(b, p, i + 1);
        }
    }
}

proof fn lemma_turn_score_bound(b: Board, d: Direction, n: int)
    requires
        0 <= n <= 4,
    ensures
        0 <= turn_score(b, d, n) <= 4 * n * MAX_TILE,
    decreases n,
{
    if n > 0 {
        lemma_turn_score_bound(b, d, n - 1);
        lemma_packed(b, d, n - 1, 4);
        lemma_line_bounds(b, packed(b, d, n - 1), 0);
    }
}

proof fn lemma_skip_step(l: Seq<u64>, o: int, a: Seq<u64>, w: u64, rest: Seq<u64>)
    requires
        0 <= o < l.len(),
        l.skip(o) == a,
        a == seq![w] + rest,
    ensures
        l.skip(o + 1) == rest,
        l[o] == w,
{
    assert(a.len() == l.len() - o);
    assert(rest.len() == a.len() - 1);
    assert(l[o] == a[0]);
    assert(l.skip(o + 1) =~= rest) by {
        assert forall|k: int| 0 <= k < rest.len() implies l.skip(o + 1)[k] == rest[k] by {
            assert(l.skip(o + 1)[k] == l[o + 1 + k]);
            assert(a[k + 1] == rest[k]);
            assert(a[k + 1] == l[o + 1 + k]);
        }
    }
}

fn set_tile(board: &mut Board, at: Cell, value: u64)
    requires
        in_bounds(at),
    ensures
        forall|r: int, c: int|
            0 <= r < 4 && 0 <= c < 4 ==> #[trigger] final(board)[r][c] == (if r == at[0] as int && c
                == at[1] as int {
                value
            } else {
                old(board)[r][c]
            }),
{
    let mut row = board[at[0]];
    row[at[1]] = value;
    board[at[0]] = row;
}

proof fn lemma_packed_full(b: Board, d: Direction, line: int, n: int)
    requires
        0 <= line < 4,
        0 <= n <= 4,
        packed_upto(b, d, line, n).len() == n,
    ensures
        forall|k: int| 0 <= k < n ==> #[trigger] packed_upto(b, d, line, n)[k] == cell_of(d, line, k),
    decreases n,
{
    if n > 0 {
        lemma_packed(b, d, line, n - 1);
        lemma_packed_full(b, d, line, n - 1);
    }
}

proof fn lemma_no_merge(b: Board, p: Seq<Cell>, i: int)
    requires
        0 <= i <= p.len(),
        out_values(b, p, i).len() == p.len() - i,
    ensures
        forall|j: int| i <= j < p.len() ==> #[trigger] out_values(b, p, i)[j - i] == tile(b, p[j]),
    decreases p.len() - i,
{
    if i < p.len() {
        if merges_at(b, p, i) {
            lemma_line_bounds(b, p, i + 2);
        } else {
            lemma_no_merge(b, p, i + 1);
            assert forall|j: int| i <= j < p.len() implies #[trigger] out_values(b, p, i)[j - i]
                == tile(b, p[j]) by {
                if j > i {
                    assert(out_values(b, p, i)[j - i] == out_values(b, p, i + 1)[j - (i + 1)]);
                }
            }
        }
    }
}

/// When the slid board is full, no square changed.
proof fn lemma_full_slide_stays(b: Board, d: Direction, r: int, c: int)
    requires
        0 <= r < 4,
        0 <= c < 4,
        forall|rr: int, cc: int| 0 <= rr < 4 && 0 <= cc < 4 ==> #[trigger] slid_tile(b, d, rr, cc) != 0,
    ensures
        slid_tile(b, d, r, c) == b[r][c],
{
    let l = line_of(d, r, c);
    let o = offset_of(d, r, c);
    let last = cell_of(d, l, 3);
    assert(slid_tile(b, d, last[0] as int, last[1] as int) != 0);
    lemma_packed(b, d, l, 4);
    lemma_line_bounds(b, packed(b, d, l), 0);
    lemma_packed_full(b, d, l, 4);
    lemma_no_merge(b, packed(b, d, l), 0);
    assert(packed(b, d, l)[o] == cell_of(d, l, o));
    assert(line_result(b, d, l)[o - 0] == tile(b, packed(b, d, l)[o]));
    assert(cell_of(d, l, o)[0] as int == r && cell_of(d, l, o)[1] as int == c);
}

/// A move that changes the board leaves an empty square for the spawn.
proof fn lemma_moved_leaves_room(b: Board, d: Direction)
    requires
        slide_moves(b, d),
    ensures
        exists|r: int, c: int| 0 <= r < 4 && 0 <= c < 4 && #[trigger] slid_tile(b, d, r, c) == 0,
{
    if forall|rr: int, cc: int| 0 <= rr < 4 && 0 <= cc < 4 ==> #[trigger] slid_tile(b, d, rr, cc) != 0 {
        let (r, c) = choose|r: int, c: int|
            0 <= r < 4 && 0 <= c < 4 && #[trigger] slid_tile(b, d, r, c) != b[r][c];
        lemma_full_slide_stays(b, d, r, c);
    }
}

proof fn lemma_pow2_exp(e: nat)
    ensures
        is_pow2(vstd::arithmetic::power2::pow2(e)),
    decreases e,
{
    if e > 0 {
        vstd::arithmetic::power2::lemma_pow2_unfold(e);
        vstd::arithmetic::power2::lemma_pow2_pos((e - 1) as nat);
        lemma_pow2_exp((e - 1) as nat);
        let h = vstd::arithmetic::power2::pow2((e - 1) as nat);
        assert((2 * h) / 2 == h);
    } else {
        vstd::arithmetic::power2::lemma2_to64();
    }
}

proof fn lemma_max_tile_pow2()
    ensures
        is_pow2(MAX_TILE as nat),
{
    vstd::arithmetic::power2::lemma2_to64();
    lemma_pow2_exp(32);
}

/// Doubling a power of two below another power of two stays within it.
proof fn lemma_pow2_double(v: nat, m: nat)
    requires
        is_pow2(v),
        is_pow2(m),
        v < m,
    ensures
        is_pow2(2 * v),
        2 * v <= m,
    decreases m,
{
    assert((2 * v) / 2 == v);
    if v != 1 {
        lemma_pow2_double(v / 2, m / 2);
    }
}

/// Every tile a line leaves behind is a legal, non-empty tile.
proof fn lemma_out_values_legal(b: Board, p: Seq<Cell>, i: int)
    requires
        0 <= i <= p.len(),
        forall|k: int| 0 <= k < p.len() ==> #[trigger] tile(b, p[k]) != 0 && valid_tile(tile(b, p[k])),
    ensures
        forall|k: int|
            0 <= k < out_values(b, p, i).len() ==> #[trigger] out_values(b, p, i)[k] != 0 && valid_tile(
                out_values(b, p, i)[k],
            ),
    decreases p.len() - i,
{
    if i < p.len() {
        if merges_at(b, p, i) {
            lemma_out_values_legal(b, p, i + 2);
            lemma_max_tile_pow2();
            lemma_pow2_double(tile(b, p[i]) as nat, MAX_TILE as nat);
            assert forall|k: int| 0 <= k < out_values(b, p, i).len() implies #[trigger] out_values(
                b,
                p,
                i,
            )[k] != 0 && valid_tile(out_values(b, p, i)[k]) by {
                if k > 0 {
                    assert(out_values(b, p, i)[k] == out_values(b, p, i + 2)[k - 1]);
                }
            }
        } else {
            lemma_out_values_legal(b, p, i + 1);
            assert forall|k: int| 0 <= k < out_values(b, p, i).len() implies #[trigger] out_values(
                b,
                p,
                i,
            )[k] != 0 && valid_tile(out_values(b, p, i)[k]) by {
                if k > 0 {
                    assert(out_values(b, p, i)[k] == out_values(b, p, i + 1)[k - 1]);
                }
            }
        }
    }
}

/// Every occupied source tile is matched or exceeded by some tile the line leaves.
proof fn lemma_out_dominates(b: Board, p: Seq<Cell>, i: int, j: int)
    requires
        0 <= i <= j < p.len(),
    ensures
        exists|k: int|
            0 <= k < out_values(b, p, i).len() && #[trigger] out_values(b, p, i)[k] >= tile(b, p[j]),
    decreases p.len() - i,
{
    if merges_at(b, p, i) {
        if j <= i + 1 {
            assert(out_values(b, p, i)[0] >= tile(b, p[j]));
        } else {
            lemma_out_dominates(b, p, i + 2, j);
            let k = choose|k: int|
                0 <= k < out_values(b, p, i + 2).len() && #[trigger] out_values(b, p, i + 2)[k] >= tile(
                    b,
                    p[j],
                );
            assert(out_values(b, p, i)[k + 1] == out_values(b, p, i + 2)[k]);
        }
    } else {
        if j == i {
            assert(out_values(b, p, i)[0] >= tile(b, p[j]));
        } else {
            lemma_out_dominates(b, p, i + 1, j);
            let k = choose|k: int|
                0 <= k < out_values(b, p, i + 1).len() && #[trigger] out_values(b, p, i + 1)[k] >= tile(
                    b,
                    p[j],
                );
            assert(out_values(b, p, i)[k + 1] == out_values(b, p, i + 1)[k]);
        }
    }
}

proof fn lemma_packed_contains(b: Board, d: Direction, line: int, n: int, o: int)
    requires
        0 <= line < 4,
        0 <= o < n <= 4,
        tile(b, cell_of(d, line, o)) != 0,
    ensures
        exists|j: int|
            0 <= j < packed_upto(b, d, line, n).len() && #[trigger] packed_upto(b, d, line, n)[j]
                == cell_of(d, line, o),
    decreases n,
{
    if o < n - 1 {
        lemma_packed_contains(b, d, line, n - 1, o);
        let j = choose|j: int|
            0 <= j < packed_upto(b, d, line, n - 1).len() && #[trigger] packed_upto(b, d, line, n - 1)[j]
                == cell_of(d, line, o);
        assert(packed_upto(b, d, line, n)[j] == packed_upto(b, d, line, n - 1)[j]);
    } else {
        let j = packed_upto(b, d, line, n - 1).len() as int;
        assert(packed_upto(b, d, line, n)[j] == cell_of(d, line, o));
    }
}

/// A slide keeps every occupied tile's value or more somewhere on the board.
pub proof fn lemma_slide_keeps(b: Board, d: Direction, r: int, c: int)
    requires
        0 <= r < 4,
        0 <= c < 4,
        b[r][c] != 0,
    ensures
        exists|rr: int, cc: int|
            0 <= rr < 4 && 0 <= cc < 4 && #[trigger] slid_tile(b, d, rr, cc) >= b[r][c],
{
    let l = line_of(d, r, c);
    let o = offset_of(d, r, c);
    assert(cell_of(d, l, o)[0] as int == r && cell_of(d, l, o)[1] as int == c);
    lemma_packed(b, d, l, 4);
    lemma_packed_contains(b, d, l, 4, o);
    let p = packed(b, d, l);
    let j = choose|j: int| 0 <= j < p.len() && #[trigger] p[j] == cell_of(d, l, o);
    lemma_out_dominates(b, p, 0, j);
    lemma_line_bounds(b, p, 0);
    let k = choose|k: int| 0 <= k < out_values(b, p, 0).len() && #[trigger] out_values(b, p, 0)[k] >= tile(b, p[j]);
    let at = cell_of(d, l, k);
    assert(line_of(d, at[0] as int, at[1] as int) == l && offset_of(d, at[0] as int, at[1] as int) == k);
    assert(slid_tile(b, d, at[0] as int, at[1] as int) >= b[r][c]);
}

/// The sum of `s[i..]`.
pub open spec fn sum_from(s: Seq<u64>, i: int) -> int
    decreases s.len() - i,
{
    if i < 0 || i >= s.len() {
        0
    } else {
        s[i] + sum_from(s, i + 1)
    }
}

/// The tiles at the cells of `p`, in order.
pub open spec fn tiles_of(b: Board, p: Seq<Cell>) -> Seq<u64> {
    p.map_values(|c: Cell| tile(b, c))
}

/// The sum of the first `n` tiles of `line`, counted in the direction of motion.
pub open spec fn line_sum(b: Board, d: Direction, line: int, n: int) -> int
    decreases n,
{
    if n <= 0 {
        0
    } else {
        line_sum(b, d, line, n - 1) + tile(b, cell_of(d, line, n - 1))
    }
}

/// The same sum over the tiles that sliding `b` in direction `d` leaves.
pub open spec fn slid_line_sum(b: Board, d: Direction, line: int, n: int) -> int
    decreases n,
{
    if n <= 0 {
        0
    } else {
        let c = cell_of(d, line, n - 1);
        slid_line_sum(b, d, line, n - 1) + slid_tile(b, d, c[0] as int, c[1] as int)
    }
}

proof fn lemma_sum_push(s: Seq<u64>, v: u64, i: int)
    requires
        0 <= i <= s.len(),
    ensures
        sum_from(s.push(v), i) == sum_from(s, i) + v,
    decreases s.len() - i,
{
    if i < s.len() {
        lemma_sum_push(s, v, i + 1);
    } else {
        assert(sum_from(s.push(v), i + 1) == 0);
    }
}

proof fn lemma_sum_shift(v: u64, r: Seq<u64>, j: int)
    requires
        0 <= j,
    ensures
        sum_from(seq![v] + r, j + 1) == sum_from(r, j),
    decreases r.len() - j,
{
    if j < r.len() {
        assert((seq![v] + r)[j + 1] == r[j]);
        lemma_sum_shift(v, r, j + 1);
    }
}

/// The tiles a line leaves behind sum to the tiles it started with.
proof fn lemma_out_values_sum(b: Board, p: Seq<Cell>, i: int)
    requires
        0 <= i <= p.len(),
    ensures
        sum_from(out_values(b, p, i), 0) == sum_from(tiles_of(b, p), i),
    decreases p.len() - i,
{
    let t = tiles_of(b, p);
    if i < p.len() {
        let o = out_values(b, p, i);
        if merges_at(b, p, i) {
            lemma_out_values_sum(b, p, i + 2);
            lemma_sum_shift(o[0], out_values(b, p, i + 2), 0);
            assert(o == seq![o[0]] + out_values(b, p, i + 2));
            assert(t.len() == p.len());
            assert(sum_from(t, i + 1) == t[i + 1] + sum_from(t, i + 2));
        } else {
            lemma_out_values_sum(b, p, i + 1);
            lemma_sum_shift(o[0], out_values(b, p, i + 1), 0);
            assert(o == seq![o[0]] + out_values(b, p, i + 1));
        }
    }
}

/// The occupied cells of a line's first `n` squares hold all of its sum.
proof fn lemma_packed_sum(b: Board, d: Direction, line: int, n: int)
    requires
        0 <= n,
    ensures
        sum_from(tiles_of(b, packed_upto(b, d, line, n)), 0) == line_sum(b, d, line, n),
    decreases n,
{
    if n > 0 {
        lemma_packed_sum(b, d, line, n - 1);
        let p = packed_upto(b, d, line, n - 1);
        let c = cell_of(d, line, n - 1);
        if tile(b, c) != 0 {
            assert(tiles_of(b, p.push(c)) =~= tiles_of(b, p).push(tile(b, c)));
            lemma_sum_push(tiles_of(b, p), tile(b, c), 0);
        }
    }
}

/// The tile that sliding leaves at offset `o` of `line`.
proof fn lemma_slid_at(b: Board, d: Direction, line: int, o: int)
    requires
        0 <= line < 4,
        0 <= o < 4,
    ensures
        ({
            let c = cell_of(d, line, o);
            let vals = line_result(b, d, line);
            slid_tile(b, d, c[0] as int, c[1] as int) == if o < vals.len() {
                vals[o]
            } else {
                0
            }
        }),
{
    let c = cell_of(d, line, o);
    assert(line_of(d, c[0] as int, c[1] as int) == line);
    assert(offset_of(d, c[0] as int, c[1] as int) == o);
}

/// Sliding keeps the sum of every line: a merge replaces two equal tiles by
/// their sum, and no tile appears or vanishes otherwise.
pub proof fn lemma_slide_keeps_sum(b: Board, d: Direction, line: int)
    requires
        0 <= line < 4,
    ensures
        slid_line_sum(b, d, line, 4) == line_sum(b, d, line, 4),
{
    let p = packed(b, d, line);
    let vals = line_result(b, d, line);
    lemma_packed(b, d, line, 4);
    lemma_line_bounds(b, p, 0);
    lemma_out_values_sum(b, p, 0);
    lemma_packed_sum(b, d, line, 4);
    lemma_slid_at(b, d, line, 0);
    lemma_slid_at(b, d, line, 1);
    lemma_slid_at(b, d, line, 2);
    lemma_slid_at(b, d, line, 3);
    reveal_with_fuel(sum_from, 5);
    reveal_with_fuel(slid_line_sum, 5);
}

/// Two lists of cells holding the same tiles in the same order leave the same
/// tiles and score the same.
proof fn lemma_out_same(b1: Board, p1: Seq<Cell>, b2: Board, p2: Seq<Cell>, i: int)
    requires
        p1.len() == p2.len(),
        0 <= i <= p1.len(),
        forall|k: int| 0 <= k < p1.len() ==> #[trigger] tile(b1, p1[k]) == tile(b2, p2[k]),
    ensures
        out_values(b1, p1, i) == out_values(b2, p2, i),
        out_score(b1, p1, i) == out_score(b2, p2, i),
    decreases p1.len() - i,
{
    if i < p1.len() {
        assert(tile(b1, p1[i]) == tile(b2, p2[i]));
        if i + 1 < p1.len() {
            assert(tile(b1, p1[i + 1]) == tile(b2, p2[i + 1]));
        }
        if merges_at(b1, p1, i) {
            lemma_out_same(b1, p1, b2, p2, i + 2);
        } else {
            lemma_out_same(b1, p1, b2, p2, i + 1);
        }
    }
}

/// Lines that hold the same tiles in movement order pack to the same tiles.
proof fn lemma_packed_same(b1: Board, d1: Direction, b2: Board, d2: Direction, line: int, n: int)
    requires
        0 <= n <= 4,
        forall|o: int| 0 <= o < 4 ==> #[trigger] tile(b1, cell_of(d1, line, o)) == tile(b2, cell_of(d2, line, o)),
    ensures
        tiles_of(b1, packed_upto(b1, d1, line, n)) == tiles_of(b2, packed_upto(b2, d2, line, n)),
    decreases n,
{
    if n > 0 {
        lemma_packed_same(b1, d1, b2, d2, line, n - 1);
        let p1 = packed_upto(b1, d1, line, n - 1);
        let p2 = packed_upto(b2, d2, line, n - 1);
        let c1 = cell_of(d1, line, n - 1);
        let c2 = cell_of(d2, line, n - 1);
        assert(tile(b1, c1) == tile(b2, c2));
        assert(tiles_of(b1, p1.push(c1)) =~= tiles_of(b1, p1).push(tile(b1, c1)));
        assert(tiles_of(b2, p2.push(c2)) =~= tiles_of(b2, p2).push(tile(b2, c2)));
    }
}

/// Boards whose lines hold the same tiles for two directions slide to the same
/// line results and score the same.
proof fn lemma_same_lines(b1: Board, d1: Direction, b2: Board, d2: Direction, line: int)
    requires
        forall|o: int| 0 <= o < 4 ==> #[trigger] tile(b1, cell_of(d1, line, o)) == tile(b2, cell_of(d2, line, o)),
    ensures
        line_result(b1, d1, line) == line_result(b2, d2, line),
        out_score(b1, packed(b1, d1, line), 0) == out_score(b2, packed(b2, d2, line), 0),
{
    lemma_packed_same(b1, d1, b2, d2, line, 4);
    let p1 = packed(b1, d1, line);
    let p2 = packed(b2, d2, line);
    assert(tiles_of(b1, p1).len() == p1.len());
    assert(tiles_of(b2, p2).len() == p2.len());
    assert forall|k: int| 0 <= k < p1.len() implies #[trigger] tile(b1, p1[k]) == tile(b2, p2[k]) by {
        assert(tiles_of(b1, p1)[k] == tiles_of(b2, p2)[k]);
    }
    lemma_out_same(b1, p1, b2, p2, 0);
}

proof fn lemma_turn_score_same(b1: Board, d1: Direction, b2: Board, d2: Direction, n: int)
    requires
        0 <= n <= 4,
        forall|line: int| 0 <= line < 4 ==> #[trigger] out_score(b1, packed(b1, d1, line), 0) == out_score(
            b2,
            packed(b2, d2, line),
            0,
        ),
    ensures
        turn_score(b1, d1, n) == turn_score(b2, d2, n),
    decreases n,
{
    if n > 0 {
        lemma_turn_score_same(b1, d1, b2, d2, n - 1);
        assert(out_score(b1, packed(b1, d1, n - 1), 0) == out_score(b2, packed(b2, d2, n - 1), 0));
    }
}

/// Sliding right is sliding the mirrored board left, mirrored back: `m` is `b`
/// with each row reversed; the tiles and the score agree.
pub proof fn lemma_slide_mirror(b: Board, m: Board)
    requires
        forall|r: int, c: int| 0 <= r < 4 && 0 <= c < 4 ==> #[trigger] m[r][c] == b[r][3 - c],
    ensures
        forall|r: int, c: int|
            0 <= r < 4 && 0 <= c < 4 ==> #[trigger] slid_tile(b, Direction::Right, r, c) == slid_tile(
                m,
                Direction::Left,
                r,
                3 - c,
            ),
        turn_score(b, Direction::Right, 4) == turn_score(m, Direction::Left, 4),
{
    assert forall|line: int| 0 <= line < 4 implies line_result(b, Direction::Right, line) == line_result(
        m,
        Direction::Left,
        line,
    ) && #[trigger] out_score(b, packed(b, Direction::Right, line), 0) == out_score(
        m,
        packed(m, Direction::Left, line),
        0,
    ) by {
        assert forall|o: int| 0 <= o < 4 implies #[trigger] tile(b, cell_of(Direction::Right, line, o)) == tile(
            m,
            cell_of(Direction::Left, line, o),
        ) by {
            assert(m[line][o] == b[line][3 - o]);
        }
        lemma_same_lines(b, Direction::Right, m, Direction::Left, line);
    }
    assert forall|r: int, c: int| 0 <= r < 4 && 0 <= c < 4 implies #[trigger] slid_tile(
        b,
        Direction::Right,
        r,
        c,
    ) == slid_tile(m, Direction::Left, r, 3 - c) by {
        assert(out_score(b, packed(b, Direction::Right, r), 0) == out_score(
            m,
            packed(m, Direction::Left, r),
            0,
        ));
    }
    lemma_turn_score_same(b, Direction::Right, m, Direction::Left, 4);
}

/// Sliding up is sliding the transposed board left, transposed back: `t` is
/// `b` with rows and columns swapped; the tiles and the score agree.
pub proof fn lemma_slide_transpose(b: Board, t: Board)
    requires
        forall|r: int, c: int| 0 <= r < 4 && 0 <= c < 4 ==> #[trigger] t[r][c] == b[c][r],
    ensures
        forall|r: int, c: int|
            0 <= r < 4 && 0 <= c < 4 ==> #[trigger] slid_tile(b, Direction::Up, r, c) == slid_tile(
                t,
                Direction::Left,
                c,
                r,
            ),
        turn_score(b, Direction::Up, 4) == turn_score(t, Direction::Left, 4),
{
    assert forall|line: int| 0 <= line < 4 implies line_result(b, Direction::Up, line) == line_result(
        t,
        Direction::Left,
        line,
    ) && #[trigger] out_score(b, packed(b, Direction::Up, line), 0) == out_score(
        t,
        packed(t, Direction::Left, line),
        0,
    ) by {
        assert forall|o: int| 0 <= o < 4 implies #[trigger] tile(b, cell_of(Direction::Up, line, o)) == tile(
            t,
            cell_of(Direction::Left, line, o),
        ) by {
            assert(t[line][o] == b[o][line]);
        }
        lemma_same_lines(b, Direction::Up, t, Direction::Left, line);
    }
    assert forall|r: int, c: int| 0 <= r < 4 && 0 <= c < 4 implies #[trigger] slid_tile(
        b,
        Direction::Up,
        r,
        c,
    ) == slid_tile(t, Direction::Left, c, r) by {
        assert(out_score(b, packed(b, Direction::Up, c), 0) == out_score(t, packed(t, Direction::Left, c), 0));
    }
    lemma_turn_score_same(b, Direction::Up, t, Direction::Left, 4);
}

/// Every tile a line leaves behind is occupied.
proof fn lemma_out_nonzero(b: Board, p: Seq<Cell>, i: int)
    requires
        0 <= i <= p.len(),
        forall|k: int| 0 <= k < p.len() ==> #[trigger] tile(b, p[k]) != 0,
    ensures
        forall|k: int| 0 <= k < out_values(b, p, i).len() ==> #[trigger] out_values(b, p, i)[k] != 0,
    decreases p.len() - i,
{
    if i < p.len() {
        let o = out_values(b, p, i);
        if merges_at(b, p, i) {
            lemma_out_nonzero(b, p, i + 2);
            assert forall|k: int| 0 <= k < o.len() implies #[trigger] o[k] != 0 by {
                if k > 0 {
                    assert(o[k] == out_values(b, p, i + 2)[k - 1]);
                }
            }
        } else {
            lemma_out_nonzero(b, p, i + 1);
            assert forall|k: int| 0 <= k < o.len() implies #[trigger] o[k] != 0 by {
                if k > 0 {
                    assert(o[k] == out_values(b, p, i + 1)[k - 1]);
                }
            }
        }
    }
}

/// A square is occupied after a slide exactly when it lies within the tiles
/// its line leaves behind.
proof fn lemma_slid_nonzero(b: Board, d: Direction, r: int, c: int)
    requires
        0 <= r < 4,
        0 <= c < 4,
    ensures
        slid_tile(b, d, r, c) != 0 <==> offset_of(d, r, c) < line_result(b, d, line_of(d, r, c)).len(),
{
    let l = line_of(d, r, c);
    lemma_packed(b, d, l, 4);
    lemma_out_nonzero(b, packed(b, d, l), 0);
}

/// After a slide every line is packed against the edge the move heads for:
/// along the direction of motion, an occupied square is followed only by
/// occupied squares.
pub proof fn lemma_slide_packs(b: Board)
    ensures
        forall|r: int, c1: int, c2: int|
            0 <= r < 4 && 0 <= c1 < c2 < 4 && #[trigger] slid_tile(b, Direction::Left, r, c2) != 0
                ==> #[trigger] slid_tile(b, Direction::Left, r, c1) != 0,
        forall|r: int, c1: int, c2: int|
            0 <= r < 4 && 0 <= c1 < c2 < 4 && #[trigger] slid_tile(b, Direction::Right, r, c1) != 0
                ==> #[trigger] slid_tile(b, Direction::Right, r, c2) != 0,
        forall|c: int, r1: int, r2: int|
            0 <= c < 4 && 0 <= r1 < r2 < 4 && #[trigger] slid_tile(b, Direction::Up, r2, c) != 0
                ==> #[trigger] slid_tile(b, Direction::Up, r1, c) != 0,
        forall|c: int, r1: int, r2: int|
            0 <= c < 4 && 0 <= r1 < r2 < 4 && #[trigger] slid_tile(b, Direction::Down, r1, c) != 0
                ==> #[trigger] slid_tile(b, Direction::Down, r2, c) != 0,
{
    assert forall|r: int, c1: int, c2: int|
        0 <= r < 4 && 0 <= c1 < c2 < 4 && #[trigger] slid_tile(b, Direction::Left, r, c2) != 0
            implies #[trigger] slid_tile(b, Direction::Left, r, c1) != 0 by {
        lemma_slid_nonzero(b, Direction::Left, r, c1);
        lemma_slid_nonzero(b, Direction::Left, r, c2);
    }
    assert forall|r: int, c1: int, c2: int|
        0 <= r < 4 && 0 <= c1 < c2 < 4 && #[trigger] slid_tile(b, Direction::Right, r, c1) != 0
            implies #[trigger] slid_tile(b, Direction::Right, r, c2) != 0 by {
        lemma_slid_nonzero(b, Direction::Right, r, c1);
        lemma_slid_nonzero(b, Direction::Right, r, c2);
    }
    assert forall|c: int, r1: int, r2: int|
        0 <= c < 4 && 0 <= r1 < r2 < 4 && #[trigger] slid_tile(b, Direction::Up, r2, c) != 0
            implies #[trigger] slid_tile(b, Direction::Up, r1, c) != 0 by {
        lemma_slid_nonzero(b, Direction::Up, r1, c);
        lemma_slid_nonzero(b, Direction::Up, r2, c);
    }
    assert forall|c: int, r1: int, r2: int|
        0 <= c < 4 && 0 <= r1 < r2 < 4 && #[trigger] slid_tile(b, Direction::Down, r1, c) != 0
            implies #[trigger] slid_tile(b, Direction::Down, r2, c) != 0 by {
        lemma_slid_nonzero(b, Direction::Down, r1, c);
        lemma_slid_nonzero(b, Direction::Down, r2, c);
    }
}

/// Sliding down is sliding up on the board with its rows reversed, reversed
/// back: `f` is `b` upside down; the tiles and the score agree.
pub proof fn lemma_slide_flip(b: Board, f: Board)
    requires
        forall|r: int, c: int| 0 <= r < 4 && 0 <= c < 4 ==> #[trigger] f[r][c] == b[3 - r][c],
    ensures
        forall|r: int, c: int|
            0 <= r < 4 && 0 <= c < 4 ==> #[trigger] slid_tile(b, Direction::Down, r, c) == slid_tile(
                f,
                Direction::Up,
                3 - r,
                c,
            ),
        turn_score(b, Direction::Down, 4) == turn_score(f, Direction::Up, 4),
{
    assert forall|line: int| 0 <= line < 4 implies line_result(b, Direction::Down, line) == line_result(
        f,
        Direction::Up,
        line,
    ) && #[trigger] out_score(b, packed(b, Direction::Down, line), 0) == out_score(
        f,
        packed(f, Direction::Up, line),
        0,
    ) by {
        assert forall|o: int| 0 <= o < 4 implies #[trigger] tile(b, cell_of(Direction::Down, line, o)) == tile(
            f,
            cell_of(Direction::Up, line, o),
        ) by {
            assert(f[o][line] == b[3 - o][line]);
        }
        lemma_same_lines(b, Direction::Down, f, Direction::Up, line);
    }
    assert forall|r: int, c: int| 0 <= r < 4 && 0 <= c < 4 implies #[trigger] slid_tile(
        b,
        Direction::Down,
        r,
        c,
    ) == slid_tile(f, Direction::Up, 3 - r, c) by {
        assert(out_score(b, packed(b, Direction::Down, c), 0) == out_score(f, packed(f, Direction::Up, c), 0));
    }
    lemma_turn_score_same(b, Direction::Down, f, Direction::Up, 4);
}

/// After a move the best score is the larger of the old best and the new
/// score: scoring raises the best only when the score passes it.
pub proof fn lemma_best_is_max(g: Game, direction: Direction, turn: Turn, next: Game)
    requires
        g.advanced(direction, turn, next),
    ensures
        next.best >= g.best,
        next.best >= next.score,
        next.best == g.best || next.best == next.score,
        next.score <= g.best ==> next.best == g.best,
{
}

/// Sliding a board of legal tiles leaves only legal tiles.
proof fn lemma_slide_legal(b: Board, d: Direction, r: int, c: int)
    requires
        0 <= r < 4,
        0 <= c < 4,
        forall|rr: int, cc: int| 0 <= rr < 4 && 0 <= cc < 4 ==> valid_tile(#[trigger] b[rr][cc]),
    ensures
        valid_tile(slid_tile(b, d, r, c)),
{
    let l = line_of(d, r, c);
    let p = packed(b, d, l);
    lemma_packed(b, d, l, 4);
    assert forall|k: int| 0 <= k < p.len() implies #[trigger] tile(b, p[k]) != 0 && valid_tile(tile(b, p[k])) by {
        assert(in_bounds(p[k]));
        assert(valid_tile(b[p[k][0] as int][p[k][1] as int]));
    }
    lemma_out_values_legal(b, p, 0);
}

proof fn lemma_occupied_step(b: Board, k: int)
    requires
        0 <= k,
    ensures
        occupied_upto(b, k + 1) == occupied_upto(b, k) + if b[k / 4][k % 4] != 0 {
            1int
        } else {
            0
        },
{
}

proof fn lemma_occupied_mono(b: Board, n: int, m: int)
    requires
        0 <= n <= m,
    ensures
        occupied_upto(b, n) <= occupied_upto(b, m),
    decreases m - n,
{
    if n < m {
        lemma_occupied_mono(b, n, m - 1);
    }
}

/// Two distinct occupied squares make at least two occupied squares.
proof fn lemma_occupied_two(b: Board, r1: int, c1: int, r2: int, c2: int)
    requires
        0 <= r1 < 4 && 0 <= c1 < 4 && 0 <= r2 < 4 && 0 <= c2 < 4,
        !(r1 == r2 && c1 == c2),
        b[r1][c1] != 0,
        b[r2][c2] != 0,
    ensures
        occupied(b) >= 2,
{
    let k1 = 4 * r1 + c1;
    let k2 = 4 * r2 + c2;
    assert(k1 / 4 == r1 && k1 % 4 == c1);
    assert(k2 / 4 == r2 && k2 % 4 == c2);
    let lo = if k1 < k2 { k1 } else { k2 };
    let hi = if k1 < k2 { k2 } else { k1 };
    lemma_occupied_step(b, lo);
    lemma_occupied_step(b, hi);
    lemma_occupied_mono(b, 0, lo);
    lemma_occupied_mono(b, lo + 1, hi);
    lemma_occupied_mono(b, hi + 1, 16);
}

/// Some square is occupied on a board with occupied squares.
proof fn lemma_occupied_witness(b: Board, k: int)
    requires
        0 <= k <= 16,
        occupied_upto(b, k) >= 1,
    ensures
        exists|r: int, c: int| 0 <= r < 4 && 0 <= c < 4 && #[trigger] b[r][c] != 0,
    decreases k,
{
    if b[(k - 1) / 4][(k - 1) % 4] == 0 {
        lemma_occupied_witness(b, k - 1);
    } else {
        let r = (k - 1) / 4;
        let c = (k - 1) % 4;
        assert(b[r][c] != 0);
    }
}

/// Pack each line in movement order, consuming equal source tiles once.
/// Metadata describes source-to-destination motion, never a second game state.
#[verifier::rlimit(50)]
pub fn slide(board: &Board, direction: Direction) -> (turn: Turn)
    ensures
        forall|r: int, c: int|
            0 <= r < 4 && 0 <= c < 4 ==> #[trigger] turn.board[r][c] == slid_tile(
                *board,
                direction,
                r,
                c,
            ),
        turn.score_delta == turn_score(*board, direction, 4),
        turn.moves@ == turn_moves(*board, direction, 4),
        turn.merges@ == turn_merges(*board, direction, 4),
        turn.moved == slide_moves(*board, direction),
        turn.spawned.is_none(),
{
    let ghost b = *board;
    let d = direction;
    let mut out_board: Board = [[0u64; 4]; 4];
    let mut score_delta: u64 = 0;
    let mut merges: Vec<Cell> = Vec::new();
    let mut moves: Vec<Motion> = Vec::new();
    let mut line: usize = 0;
    while line < 4
        invariant
            b == *board,
            0 <= line <= 4,
            forall|r: int, c: int|
                0 <= r < 4 && 0 <= c < 4 ==> #[trigger] out_board[r][c] == (if line_of(d, r, c)
                    < line {
                    slid_tile(b, d, r, c)
                } else {
                    0
                }),
            score_delta == turn_score(b, d, line as int),
            moves@ == turn_moves(b, d, line as int),
            merges@ == turn_merges(b, d, line as int),
        decreases 4 - line,
    {
        let mut packed_cells: Vec<Cell> = Vec::new();
        let mut k: usize = 0;
        while k < 4
            invariant
                b == *board,
                line < 4,
                0 <= k <= 4,
                packed_cells@ == packed_upto(b, d, line as int, k as int),
            decreases 4 - k,
        {
            let cell = d.cell(line, k);
            if board[cell[0]][cell[1]] != 0 {
                packed_cells.push(cell);
            }
            k = k + 1;
        }
        let ghost p = packed_cells@;
        proof {
            lemma_packed(b, d, line as int, 4);
            lemma_line_bounds(b, p, 0);
            lemma_turn_score_bound(b, d, line as int);
        }
        let ghost moves_start = moves@;
        let ghost merges_start = merges@;
        let ghost score_start = score_delta as int;
        let mut i: usize = 0;
        let mut out: usize = 0;
        while i < packed_cells.len()
            invariant
                b == *board,
                line < 4,
                p == packed_cells@,
                p == packed(b, d, line as int),
                p.len() <= 4,
                forall|k: int| 0 <= k < p.len() ==> in_bounds(#[trigger] p[k]),
                0 <= i <= p.len(),
                out + out_values(b, p, i as int).len() == line_result(b, d, line as int).len(),
                line_result(b, d, line as int).len() <= 4,
                line_result(b, d, line as int).skip(out as int) == out_values(b, p, i as int),
                forall|r: int, c: int|
                    0 <= r < 4 && 0 <= c < 4 ==> #[trigger] out_board[r][c] == (if line_of(d, r, c)
                        < line || (line_of(d, r, c) == line && offset_of(d, r, c) < out) {
                        slid_tile(b, d, r, c)
                    } else {
                        0
                    }),
                moves_start == turn_moves(b, d, line as int),
                merges_start == turn_merges(b, d, line as int),
                score_start == turn_score(b, d, line as int),
                score_start <= 4 * line * MAX_TILE,
                moves@ + out_moves(b, d, line as int, p, i as int, out as int) == moves_start
                    + out_moves(b, d, line as int, p, 0, 0),
                merges@ + out_merges(b, d, line as int, p, i as int, out as int) == merges_start
                    + out_merges(b, d, line as int, p, 0, 0),
                score_delta + out_score(b, p, i as int) == score_start + out_score(b, p, 0),
            decreases p.len() - i,
        {
            proof {
                lemma_line_bounds(b, p, i as int);
            }
            let from = packed_cells[i];
            let value = board[from[0]][from[1]];
            let to = d.cell(line, out);
            let merge = i + 1 < packed_cells.len() && value < MAX_TILE && value
                == board[packed_cells[i + 1][0]][packed_cells[i + 1][1]];
            let ghost gi = i as int;
            let ghost gout = out as int;
            let ghost old_board = out_board;
            proof {
                assert(merge == merges_at(b, p, gi));
                assert(line_result(b, d, line as int)[gout] == out_values(b, p, gi)[0]);
            }
            moves.push(Motion { from, to, value });
            let written = if merge {
                moves.push(Motion { from: packed_cells[i + 1], to, value });
                merges.push(to);
                proof {
                    assert(out_score(b, p, gi) == 2 * value + out_score(b, p, gi + 2));
                    lemma_line_bounds(b, p, gi + 2);
                    lemma_line_bounds(b, p, 0);
                }
                score_delta = score_delta + value * 2;
                i = i + 1;
                value * 2
            } else {
                value
            };
            set_tile(&mut out_board, to, written);
            i = i + 1;
            out = out + 1;
            proof {
                assert(out_values(b, p, gi) =~= seq![written] + out_values(b, p, i as int));
                lemma_skip_step(line_result(b, d, line as int), gout, out_values(b, p, gi), written, out_values(b, p, i as int));
                assert(written == line_result(b, d, line as int)[gout]);
                assert forall|r: int, c: int| 0 <= r < 4 && 0 <= c < 4 implies #[trigger] out_board[r][c]
                    == (if line_of(d, r, c) < line || (line_of(d, r, c) == line && offset_of(
                    d,
                    r,
                    c,
                ) < out) {
                    slid_tile(b, d, r, c)
                } else {
                    0
                }) by {
                    if r == to[0] as int && c == to[1] as int {
                        assert(line_of(d, r, c) == line && offset_of(d, r, c) == gout);
                    } else {
                        assert(out_board[r][c] == old_board[r][c]);
                        assert(!(line_of(d, r, c) == line && offset_of(d, r, c) == gout));
                    }
                }
                assert(moves@ + out_moves(b, d, line as int, p, i as int, out as int) =~= moves_start
                    + out_moves(b, d, line as int, p, 0, 0));
                assert(merges@ + out_merges(b, d, line as int, p, i as int, out as int) =~= merges_start
                    + out_merges(b, d, line as int, p, 0, 0));
            }
        }
        proof {
            lemma_line_bounds(b, p, 0);
        }
        line = line + 1;
    }
    let mut moved = false;
    let mut r: usize = 0;
    while r < 4
        invariant
            b == *board,
            0 <= r <= 4,
            forall|r: int, c: int|
                0 <= r < 4 && 0 <= c < 4 ==> #[trigger] out_board[r][c] == slid_tile(b, d, r, c),
            moved == exists|rr: int, cc: int|
                0 <= rr < r && 0 <= cc < 4 && #[trigger] slid_tile(b, d, rr, cc) != b[rr][cc],
        decreases 4 - r,
    {
        let mut c: usize = 0;
        while c < 4
            invariant
                b == *board,
                0 <= r < 4,
                0 <= c <= 4,
                forall|r: int, c: int|
                    0 <= r < 4 && 0 <= c < 4 ==> #[trigger] out_board[r][c] == slid_tile(
                        b,
                        d,
                        r,
                        c,
                    ),
                moved == exists|rr: int, cc: int|
                    ((0 <= rr < r && 0 <= cc < 4) || (rr == r && 0 <= cc < c)) && #[trigger] slid_tile(
                        b,
                        d,
                        rr,
                        cc,
                    ) != b[rr][cc],
            decreases 4 - c,
        {
            if out_board[r][c] != board[r][c] {
                moved = true;
            }
            c = c + 1;
        }
        r = r + 1;
    }
    Turn { board: out_board, score_delta, moved, merges, moves, spawned: None }
}


/// Whether any square holds the winning tile or better.
pub open spec fn has_win_tile(b: Board) -> bool {
    exists|r: int, c: int| 0 <= r < 4 && 0 <= c < 4 && #[trigger] b[r][c] >= WIN_TILE
}

/// Whether every square is occupied.
pub open spec fn full(b: Board) -> bool {
    forall|r: int, c: int| 0 <= r < 4 && 0 <= c < 4 ==> #[trigger] b[r][c] != 0
}

/// A full board on which no direction changes anything.
pub open spec fn stuck(b: Board) -> bool {
    &&& full(b)
    &&& !slide_moves(b, Direction::Left)
    &&& !slide_moves(b, Direction::Right)
    &&& !slide_moves(b, Direction::Up)
    &&& !slide_moves(b, Direction::Down)
}

pub open spec fn is_pow2(v: nat) -> bool
    decreases v,
{
    if v == 1 {
        true
    } else if v == 0 || v % 2 == 1 {
        false
    } else {
        is_pow2(v / 2)
    }
}

/// An empty square, or a power of two from 2 up to `MAX_TILE`.
pub open spec fn valid_tile(v: u64) -> bool {
    v == 0 || (2 <= v <= MAX_TILE && is_pow2(v as nat))
}

/// How many of the first `k` squares (row by row) are occupied.
pub open spec fn occupied_upto(b: Board, k: int) -> int
    decreases k,
{
    if k <= 0 {
        0
    } else {
        occupied_upto(b, k - 1) + if b[(k - 1) / 4][(k - 1) % 4] != 0 {
            1int
        } else {
            0
        }
    }
}

pub open spec fn occupied(b: Board) -> int {
    occupied_upto(b, 16)
}

/// Every tile is a legal value and at least two squares are occupied.
pub open spec fn valid_board(b: Board) -> bool {
    &&& forall|r: int, c: int| 0 <= r < 4 && 0 <= c < 4 ==> valid_tile(#[trigger] b[r][c])
    &&& occupied(b) >= 2
}

pub fn won(board: &Board) -> (r: bool)
    ensures
        r == has_win_tile(*board),
{
    let mut r: usize = 0;
    while r < 4
        invariant
            0 <= r <= 4,
            forall|rr: int, cc: int| 0 <= rr < r && 0 <= cc < 4 ==> #[trigger] board[rr][cc] < WIN_TILE,
        decreases 4 - r,
    {
        let mut c: usize = 0;
        while c < 4
            invariant
                0 <= r < 4,
                0 <= c <= 4,
                forall|rr: int, cc: int|
                    ((0 <= rr < r && 0 <= cc < 4) || (rr == r && 0 <= cc < c)) ==> #[trigger] board[rr][cc]
                        < WIN_TILE,
            decreases 4 - c,
        {
            if board[r][c] >= WIN_TILE {
                return true;
            }
            c = c + 1;
        }
        r = r + 1;
    }
    false
}

fn has_empty(board: &Board) -> (r: bool)
    ensures
        r == !full(*board),
{
    let mut r: usize = 0;
    while r < 4
        invariant
            0 <= r <= 4,
            forall|rr: int, cc: int| 0 <= rr < r && 0 <= cc < 4 ==> #[trigger] board[rr][cc] != 0,
        decreases 4 - r,
    {
        let mut c: usize = 0;
        while c < 4
            invariant
                0 <= r < 4,
                0 <= c <= 4,
                forall|rr: int, cc: int|
                    ((0 <= rr < r && 0 <= cc < 4) || (rr == r && 0 <= cc < c)) ==> #[trigger] board[rr][cc]
                        != 0,
            decreases 4 - c,
        {
            if board[r][c] == 0 {
                return true;
            }
            c = c + 1;
        }
        r = r + 1;
    }
    false
}

pub fn over(board: &Board) -> (r: bool)
    ensures
        r == stuck(*board),
{
    !has_empty(board) && !slide(board, Direction::Left).moved && !slide(
        board,
        Direction::Right,
    ).moved && !slide(board, Direction::Up).moved && !slide(board, Direction::Down).moved
}

fn power_of_two(v: u64) -> (r: bool)
    ensures
        r == is_pow2(v as nat),
{
    let mut x = v;
    while x > 1 && x % 2 == 0
        invariant
            is_pow2(x as nat) == is_pow2(v as nat),
        decreases x,
    {
        x = x / 2;
    }
    x == 1
}

pub fn valid(board: &Board) -> (r: bool)
    ensures
        r == valid_board(*board),
{
    let mut all_legal = true;
    let mut count: usize = 0;
    let mut r: usize = 0;
    while r < 4
        invariant
            0 <= r <= 4,
            count == occupied_upto(*board, 4 * r),
            count <= 4 * r,
            all_legal == forall|rr: int, cc: int|
                0 <= rr < r && 0 <= cc < 4 ==> valid_tile(#[trigger] board[rr][cc]),
        decreases 4 - r,
    {
        let mut c: usize = 0;
        while c < 4
            invariant
                0 <= r < 4,
                0 <= c <= 4,
                count == occupied_upto(*board, 4 * r + c),
                count <= 4 * r + c,
                all_legal == forall|rr: int, cc: int|
                    ((0 <= rr < r && 0 <= cc < 4) || (rr == r && 0 <= cc < c)) ==> valid_tile(
                        #[trigger] board[rr][cc],
                    ),
            decreases 4 - c,
        {
            let v = board[r][c];
            let legal = v == 0 || (v >= 2 && v <= MAX_TILE && power_of_two(v));
            assert((4 * r + c + 1 - 1) / 4 == r && (4 * r + c + 1 - 1) % 4 == c);
            if !legal {
                all_legal = false;
            }
            if v != 0 {
                count = count + 1;
            }
            c = c + 1;
        }
        r = r + 1;
    }
    all_legal && count >= 2
}


/// `new` equals `old` except that square `at` holds `value`.
pub open spec fn placed(old: Board, new: Board, at: Cell, value: u64) -> bool {
    forall|r: int, c: int|
        0 <= r < 4 && 0 <= c < 4 ==> #[trigger] new[r][c] == (if r == at[0] as int && c == at[1] as int {
            value
        } else {
            old[r][c]
        })
}

/// A freshly spawned tile: a 2 or a 4.
pub open spec fn spawn_value(v: u64) -> bool {
    v == 2 || v == 4
}

/// The tile a spawn puts down: a 2 when the nine-in-ten draw comes up, else a 4.
pub open spec fn spawned_tile(two: bool) -> u64 {
    if two {
        2
    } else {
        4
    }
}

/// The empty squares among the first `n` in row-major order, in that order.
pub open spec fn empty_upto(b: Board, n: int) -> Seq<Cell>
    decreases n,
{
    if n <= 0 {
        seq![]
    } else {
        let s = empty_upto(b, n - 1);
        let at: Cell = [((n - 1) / 4) as usize, ((n - 1) % 4) as usize];
        if tile(b, at) == 0 {
            s.push(at)
        } else {
            s
        }
    }
}

/// The empty squares of the board in row-major order.
pub open spec fn empty_cells(b: Board) -> Seq<Cell> {
    empty_upto(b, 16)
}

proof fn lemma_empty_upto(b: Board, n: int)
    requires
        0 <= n <= 16,
    ensures
        forall|k: int|
            0 <= k < empty_upto(b, n).len() ==> in_bounds(#[trigger] empty_upto(b, n)[k]) && tile(
                b,
                empty_upto(b, n)[k],
            ) == 0,
        empty_upto(b, n).len() == 0 ==> forall|k: int| 0 <= k < n ==> #[trigger] b[k / 4][k % 4] != 0,
    decreases n,
{
    if n > 0 {
        lemma_empty_upto(b, n - 1);
    }
}

/// A board with no empty square is full.
proof fn lemma_no_empty_full(b: Board)
    requires
        empty_cells(b).len() == 0,
    ensures
        full(b),
{
    lemma_empty_upto(b, 16);
    assert forall|r: int, c: int| 0 <= r < 4 && 0 <= c < 4 implies #[trigger] b[r][c] != 0 by {
        let k = 4 * r + c;
        assert(k / 4 == r && k % 4 == c);
        assert(b[k / 4][k % 4] != 0);
    }
}

/// The empty squares of the board, in row-major order.
pub fn empty_squares(board: &Board) -> (v: Vec<Cell>)
    ensures
        v@ == empty_cells(*board),
{
    let mut empty: Vec<Cell> = Vec::new();
    let mut r: usize = 0;
    while r < 4
        invariant
            0 <= r <= 4,
            empty@ == empty_upto(*board, 4 * r),
        decreases 4 - r,
    {
        let mut c: usize = 0;
        while c < 4
            invariant
                0 <= r < 4,
                0 <= c <= 4,
                empty@ == empty_upto(*board, 4 * r + c),
            decreases 4 - c,
        {
            proof {
                let k = 4 * r + c;
                assert(k / 4 == r && k % 4 == c);
            }
            if board[r][c] == 0 {
                empty.push([r, c]);
            }
            c = c + 1;
        }
        r = r + 1;
    }
    empty
}

/// Put a 2 (when `two` holds) or a 4 on the `pick`-th empty square in
/// row-major order, and return that square.
pub fn spawn_at(board: &mut Board, pick: usize, two: bool) -> (at: Cell)
    requires
        pick < empty_cells(*old(board)).len(),
    ensures
        at == empty_cells(*old(board))[pick as int],
        placed(
            *old(board),
            *final(board),
            at,
            spawned_tile(two),
        ),
{
    let empty = empty_squares(board);
    proof {
        lemma_empty_upto(*board, 16);
    }
    let at = empty[pick];
    let value: u64 = if two {
        2
    } else {
        4
    };
    set_tile(board, at, value);
    at
}

/// Put a 2 (nine times in ten) or a 4 on a random empty square: one draw picks
/// the square among the empty ones, then a nine-in-ten draw picks a 2.
/// Returns the square, or `None` (leaving the board and the generator alone)
/// when the board is full.
pub fn spawn(board: &mut Board, rng: &mut StdRng) -> (r: Option<Cell>)
    ensures
        match r {
            None => full(*old(board)) && *final(board) == *old(board) && *final(rng) == *old(rng),
            Some(at) => {
                &&& in_bounds(at)
                &&& tile(*old(board), at) == 0
                &&& spawn_value(tile(*final(board), at))
                &&& placed(*old(board), *final(board), at, tile(*final(board), at))
                &&& exists|pick: int|
                    0 <= pick < empty_cells(*old(board)).len() && at == #[trigger] empty_cells(
                        *old(board),
                    )[pick]
                &&& exists|two: bool| #[trigger] placed(*old(board), *final(board), at, spawned_tile(two))
            },
        },
{
    let empty = empty_squares(board);
    proof {
        lemma_empty_upto(*board, 16);
    }
    if empty.len() == 0 {
        proof {
            lemma_no_empty_full(*board);
        }
        return None;
    }
    let ghost before = *board;
    let pick = below(rng, empty.len());
    let two = chance(rng, 9, 10);
    let at = spawn_at(board, pick, two);
    proof {
        assert(tile(*board, at) == spawned_tile(two));
        assert(placed(before, *board, at, spawned_tile(two)));
        assert(at == empty_cells(before)[pick as int]);
    }
    Some(at)
}

fn empty_board() -> (b: Board)
    ensures
        forall|r: int, c: int| 0 <= r < 4 && 0 <= c < 4 ==> #[trigger] b[r][c] == 0,
{
    [[0, 0, 0, 0], [0, 0, 0, 0], [0, 0, 0, 0], [0, 0, 0, 0]]
}

#[derive(Clone, Debug, PartialEq, Eq)]
pub struct Snapshot {
    pub board: Board,
    pub score: u64,
}

#[derive(Clone, Debug, PartialEq, Eq)]
pub struct Game {
    pub board: Board,
    pub score: u64,
    pub best: u64,
    pub continued: bool,
    pub history: Vec<Snapshot>,
}

/// A board with exactly two spawned tiles, at the distinct squares `a` and `b`.
pub open spec fn opening_board(board: Board, a: Cell, b: Cell) -> bool {
    &&& in_bounds(a)
    &&& in_bounds(b)
    &&& a != b
    &&& spawn_value(tile(board, a))
    &&& spawn_value(tile(board, b))
    &&& forall|r: int, c: int|
        0 <= r < 4 && 0 <= c < 4 && !(r == a[0] as int && c == a[1] as int) && !(r == b[0] as int
            && c == b[1] as int) ==> #[trigger] board[r][c] == 0
}

/// The history after recording `snap`, oldest entry dropped beyond the limit.
pub open spec fn recorded(history: Seq<Snapshot>, snap: Snapshot) -> Seq<Snapshot> {
    if history.len() + 1 > UNDO_LIMIT {
        history.push(snap).drop_first()
    } else {
        history.push(snap)
    }
}

pub open spec fn saturating_sum(a: u64, b: int) -> u64 {
    if a + b > u64::MAX {
        u64::MAX
    } else {
        (a + b) as u64
    }
}

/// Every successful move keeps a valid game valid: legal tiles, at least two
/// occupied squares, the best score at or above the score, a bounded history of
/// valid snapshots, and a continued game still holding its winning tile.
pub proof fn lemma_move_keeps_valid(g: Game, direction: Direction, turn: Turn, next: Game)
    requires
        g.valid_spec(),
        !g.win_prompt_spec(),
        g.advanced(direction, turn, next),
    ensures
        next.valid_spec(),
{
    let b = g.board;
    let d = direction;
    let at = turn.spawned.unwrap();
    // Legal tiles.
    assert forall|r: int, c: int| 0 <= r < 4 && 0 <= c < 4 implies valid_tile(#[trigger] next.board[r][c]) by {
        if !(r == at[0] as int && c == at[1] as int) {
            lemma_slide_legal(b, d, r, c);
        } else {
            assert(is_pow2(1));
            assert(is_pow2(2));
            assert(is_pow2(4));
        }
    }
    // Two occupied squares: a slid tile that keeps an old tile, and the spawn.
    lemma_occupied_witness(b, 16);
    let (r0, c0) = choose|r: int, c: int| 0 <= r < 4 && 0 <= c < 4 && #[trigger] b[r][c] != 0;
    lemma_slide_keeps(b, d, r0, c0);
    let (r1, c1) = choose|rr: int, cc: int|
        0 <= rr < 4 && 0 <= cc < 4 && #[trigger] slid_tile(b, d, rr, cc) >= b[r0][c0];
    assert(!(r1 == at[0] as int && c1 == at[1] as int));
    assert(next.board[r1][c1] != 0);
    assert(next.board[at[0] as int][at[1] as int] != 0);
    lemma_occupied_two(next.board, r1, c1, at[0] as int, at[1] as int);
    // A continued game keeps a winning tile.
    if g.continued {
        let (rw, cw) = choose|r: int, c: int| 0 <= r < 4 && 0 <= c < 4 && #[trigger] b[r][c] >= WIN_TILE;
        lemma_slide_keeps(b, d, rw, cw);
        let (r2, c2) = choose|rr: int, cc: int|
            0 <= rr < 4 && 0 <= cc < 4 && #[trigger] slid_tile(b, d, rr, cc) >= b[rw][cw];
        assert(!(r2 == at[0] as int && c2 == at[1] as int));
        assert(next.board[r2][c2] >= WIN_TILE);
    }
    // The history.
    let snap = Snapshot { board: g.board, score: g.score };
    assert forall|i: int| 0 <= i < next.history@.len() implies valid_board(#[trigger] next.history@[i].board)
        && next.history@[i].score <= next.best by {
        let j = if g.history@.len() + 1 > UNDO_LIMIT {
            i + 1
        } else {
            i
        };
        assert(next.history@[i] == g.history@.push(snap)[j]);
        if j < g.history@.len() {
            assert(g.history@.push(snap)[j] == g.history@[j]);
            assert(valid_board(g.history@[j].board) && g.history@[j].score <= g.best);
        } else {
            assert(g.history@.push(snap)[j] == snap);
        }
    }
}

/// Two neighbouring squares, side by side or one above the other, hold equal
/// tiles that may still merge.
pub open spec fn has_mergeable_pair(b: Board) -> bool {
    exists|r: int, c: int|
        0 <= r < 4 && 0 <= c < 4 && #[trigger] b[r][c] < MAX_TILE && ((c < 3 && b[r][c] == b[r][c
            + 1]) || (r < 3 && b[r][c] == b[r + 1][c]))
}

/// Two consecutive squares of `line` (in movement order) hold equal mergeable tiles.
pub open spec fn line_pair(b: Board, d: Direction, line: int) -> bool {
    exists|j: int|
        0 <= j < 3 && #[trigger] tile(b, cell_of(d, line, j)) == tile(b, cell_of(d, line, j + 1))
            && tile(b, cell_of(d, line, j)) < MAX_TILE
}

proof fn lemma_packed_all(b: Board, d: Direction, line: int, n: int)
    requires
        0 <= line < 4,
        0 <= n <= 4,
        full(b),
    ensures
        packed_upto(b, d, line, n).len() == n,
    decreases n,
{
    if n > 0 {
        lemma_packed_all(b, d, line, n - 1);
        let c = cell_of(d, line, n - 1);
        assert(b[c[0] as int][c[1] as int] != 0);
    }
}

proof fn lemma_merge_shortens(b: Board, p: Seq<Cell>, i: int, j: int)
    requires
        0 <= i <= j,
        merges_at(b, p, j),
    ensures
        out_values(b, p, i).len() < p.len() - i,
    decreases p.len() - i,
{
    if merges_at(b, p, i) {
        lemma_line_bounds(b, p, i + 2);
    } else {
        lemma_merge_shortens(b, p, i + 1, j);
    }
}

proof fn lemma_no_merge_keeps_length(b: Board, p: Seq<Cell>, i: int)
    requires
        0 <= i <= p.len(),
        forall|j: int| i <= j < p.len() ==> !#[trigger] merges_at(b, p, j),
    ensures
        out_values(b, p, i).len() == p.len() - i,
    decreases p.len() - i,
{
    if i < p.len() {
        assert(!merges_at(b, p, i));
        lemma_no_merge_keeps_length(b, p, i + 1);
    }
}

/// On a full board a line changes exactly when it holds a mergeable pair.
proof fn lemma_full_line(b: Board, d: Direction, line: int)
    requires
        full(b),
        0 <= line < 4,
    ensures
        line_pair(b, d, line) ==> exists|o: int|
            0 <= o < 4 && #[trigger] slid_tile(
                b,
                d,
                cell_of(d, line, o)[0] as int,
                cell_of(d, line, o)[1] as int,
            ) != tile(b, cell_of(d, line, o)),
        !line_pair(b, d, line) ==> forall|o: int|
            0 <= o < 4 ==> #[trigger] slid_tile(
                b,
                d,
                cell_of(d, line, o)[0] as int,
                cell_of(d, line, o)[1] as int,
            ) == tile(b, cell_of(d, line, o)),
{
    let p = packed(b, d, line);
    lemma_packed_all(b, d, line, 4);
    lemma_packed_full(b, d, line, 4);
    lemma_line_bounds(b, p, 0);
    if line_pair(b, d, line) {
        let j = choose|j: int|
            0 <= j < 3 && #[trigger] tile(b, cell_of(d, line, j)) == tile(b, cell_of(d, line, j + 1))
                && tile(b, cell_of(d, line, j)) < MAX_TILE;
        assert(p[j] == cell_of(d, line, j) && p[j + 1] == cell_of(d, line, j + 1));
        assert(merges_at(b, p, j));
        lemma_merge_shortens(b, p, 0, j);
        let last = cell_of(d, line, 3);
        assert(line_of(d, last[0] as int, last[1] as int) == line);
        assert(offset_of(d, last[0] as int, last[1] as int) == 3);
        assert(slid_tile(b, d, last[0] as int, last[1] as int) == 0);
        assert(b[last[0] as int][last[1] as int] != 0);
    } else {
        assert forall|j: int| 0 <= j < p.len() implies !#[trigger] merges_at(b, p, j) by {
            if merges_at(b, p, j) {
                assert(p[j] == cell_of(d, line, j) && p[j + 1] == cell_of(d, line, j + 1));
                assert(tile(b, cell_of(d, line, j)) == tile(b, cell_of(d, line, j + 1)));
            }
        }
        lemma_no_merge_keeps_length(b, p, 0);
        lemma_no_merge(b, p, 0);
        assert forall|o: int| 0 <= o < 4 implies #[trigger] slid_tile(
            b,
            d,
            cell_of(d, line, o)[0] as int,
            cell_of(d, line, o)[1] as int,
        ) == tile(b, cell_of(d, line, o)) by {
            let at = cell_of(d, line, o);
            assert(line_of(d, at[0] as int, at[1] as int) == line);
            assert(offset_of(d, at[0] as int, at[1] as int) == o);
            assert(out_values(b, p, 0)[o - 0] == tile(b, p[o]));
        }
    }
}

/// On a full board, a direction moves exactly when one of its lines holds a pair.
#[verifier::spinoff_prover]
#[verifier::rlimit(40)]
proof fn lemma_full_moves(b: Board, d: Direction)
    requires
        full(b),
    ensures
        slide_moves(b, d) == exists|l: int| 0 <= l < 4 && #[trigger] line_pair(b, d, l),
{
    lemma_full_line(b, d, 0);
    lemma_full_line(b, d, 1);
    lemma_full_line(b, d, 2);
    lemma_full_line(b, d, 3);
    if exists|l: int| 0 <= l < 4 && #[trigger] line_pair(b, d, l) {
        let l = choose|l: int| 0 <= l < 4 && #[trigger] line_pair(b, d, l);
        let o = choose|o: int|
            0 <= o < 4 && #[trigger] slid_tile(
                b,
                d,
                cell_of(d, l, o)[0] as int,
                cell_of(d, l, o)[1] as int,
            ) != tile(b, cell_of(d, l, o));
        let at = cell_of(d, l, o);
        assert(slid_tile(b, d, at[0] as int, at[1] as int) != b[at[0] as int][at[1] as int]);
    } else {
        assert forall|r: int, c: int| 0 <= r < 4 && 0 <= c < 4 implies #[trigger] slid_tile(b, d, r, c)
            == b[r][c] by {
            let l = line_of(d, r, c);
            let o = offset_of(d, r, c);
            assert(!line_pair(b, d, l));
            let at = cell_of(d, l, o);
            assert(at[0] as int == r && at[1] as int == c);
            assert(slid_tile(b, d, at[0] as int, at[1] as int) == tile(b, at));
        }
    }
}

/// A full board is stuck (the game is over) exactly when no two neighbouring
/// squares hold equal tiles that can merge.
pub proof fn lemma_stuck_iff_no_pair(b: Board)
    requires
        full(b),
    ensures
        stuck(b) == !has_mergeable_pair(b),
{
    lemma_full_moves(b, Direction::Left);
    lemma_full_moves(b, Direction::Right);
    lemma_full_moves(b, Direction::Up);
    lemma_full_moves(b, Direction::Down);
    if has_mergeable_pair(b) {
        let (r, c) = choose|r: int, c: int|
            0 <= r < 4 && 0 <= c < 4 && #[trigger] b[r][c] < MAX_TILE && ((c < 3 && b[r][c] == b[r][c
                + 1]) || (r < 3 && b[r][c] == b[r + 1][c]));
        if c < 3 && b[r][c] == b[r][c + 1] {
            assert(tile(b, cell_of(Direction::Left, r, c)) == tile(b, cell_of(Direction::Left, r, c + 1)));
            assert(line_pair(b, Direction::Left, r));
        } else {
            assert(tile(b, cell_of(Direction::Up, c, r)) == tile(b, cell_of(Direction::Up, c, r + 1)));
            assert(line_pair(b, Direction::Up, c));
        }
    } else {
        assert forall|d: Direction, l: int| 0 <= l < 4 implies !#[trigger] line_pair(b, d, l) by {
            if line_pair(b, d, l) {
                let j = choose|j: int|
                    0 <= j < 3 && #[trigger] tile(b, cell_of(d, l, j)) == tile(b, cell_of(d, l, j + 1))
                        && tile(b, cell_of(d, l, j)) < MAX_TILE;
                match d {
                    Direction::Left => {
                        assert(b[l][j] < MAX_TILE && j < 3 && b[l][j] == b[l][j + 1]);
                    },
                    Direction::Right => {
                        assert(b[l][2 - j] < MAX_TILE && b[l][2 - j] == b[l][2 - j + 1]);
                    },
                    Direction::Up => {
                        assert(b[j][l] < MAX_TILE && b[j][l] == b[j + 1][l]);
                    },
                    Direction::Down => {
                        assert(b[2 - j][l] < MAX_TILE && b[2 - j][l] == b[2 - j + 1][l]);
                    },
                }
            }
        }
    }
}

/// Undo right after a move restores the board and score from before the move,
/// keeps the best score earned, and (unless the history was full and dropped its
/// oldest entry) restores the history too.
pub proof fn lemma_undo_reverts_move(g: Game, direction: Direction, turn: Turn, moved: Game, back: Game)
    requires
        g.advanced(direction, turn, moved),
        moved.undone(back),
    ensures
        back.board == g.board,
        back.score == g.score,
        back.best == moved.best,
        back.best >= g.best,
        back.continued == (g.continued && has_win_tile(g.board)),
        g.history@.len() < UNDO_LIMIT ==> back.history@ == g.history@,
{
    let snap = Snapshot { board: g.board, score: g.score };
    if g.history@.len() + 1 > UNDO_LIMIT {
        assert(moved.history@.last() == g.history@.push(snap).last());
    } else {
        assert(moved.history@ == g.history@.push(snap));
        assert(moved.history@.drop_last() =~= g.history@);
    }
}

impl Game {
    pub open spec fn win_prompt_spec(self) -> bool {
        !self.continued && has_win_tile(self.board)
    }

    /// The invariant of every game that is played or saved.
    pub open spec fn valid_spec(self) -> bool {
        &&& valid_board(self.board)
        &&& self.best >= self.score
        &&& self.history@.len() <= UNDO_LIMIT
        &&& (!self.continued || has_win_tile(self.board))
        &&& forall|i: int|
            0 <= i < self.history@.len() ==> valid_board(#[trigger] self.history@[i].board)
                && self.history@[i].score <= self.best
    }

    /// What a successful move in `direction` does: `turn` is the slide with one
    /// tile spawned on an empty square, and the game records the previous state.
    pub open spec fn advanced(self, direction: Direction, turn: Turn, next: Game) -> bool {
        &&& turn.score_delta == turn_score(self.board, direction, 4)
        &&& turn.moves@ == turn_moves(self.board, direction, 4)
        &&& turn.merges@ == turn_merges(self.board, direction, 4)
        &&& turn.moved
        &&& (turn.spawned matches Some(at) && {
            &&& in_bounds(at)
            &&& slid_tile(self.board, direction, at[0] as int, at[1] as int) == 0
            &&& spawn_value(tile(turn.board, at))
            &&& forall|r: int, c: int|
                0 <= r < 4 && 0 <= c < 4 && !(r == at[0] as int && c == at[1] as int)
                    ==> #[trigger] turn.board[r][c] == slid_tile(self.board, direction, r, c)
        })
        &&& next.board == turn.board
        &&& next.score == saturating_sum(self.score, turn.score_delta as int)
        &&& next.best == if self.best >= next.score {
            self.best
        } else {
            next.score
        }
        &&& next.continued == self.continued
        &&& next.history@ == recorded(
            self.history@,
            Snapshot { board: self.board, score: self.score },
        )
    }

    /// What undo does with a non-empty history: the newest snapshot becomes the
    /// board and score, the best score stays, and the win prompt stays dismissed
    /// only if the restored board still holds a winning tile.
    pub open spec fn undone(self, next: Game) -> bool {
        let last = self.history@.last();
        &&& next.history@ == self.history@.drop_last()
        &&& next.board == last.board
        &&& next.score == last.score
        &&& next.best == self.best
        &&& next.continued == (self.continued && has_win_tile(last.board))
    }

    /// Start a game with two spawned tiles and the given best score.
    pub fn new(rng: &mut StdRng, best: u64) -> (g: Self)
        ensures
            exists|a: Cell, b: Cell| opening_board(g.board, a, b),
            g.score == 0,
            g.best == best,
            !g.continued,
            g.history@.len() == 0,
    {
        let mut board = empty_board();
        let first = spawn(&mut board, rng);
        proof {
            assert(board[0][0] == 0 || board[0][1] == 0);
        }
        let second = spawn(&mut board, rng);
        proof {
            let a = first.unwrap();
            let b = second.unwrap();
            assert(opening_board(board, a, b));
        }
        let g = Self { board, score: 0, best, continued: false, history: Vec::new() };
        assert(opening_board(g.board, first.unwrap(), second.unwrap()));
        g
    }

    pub fn win_prompt(&self) -> (r: bool)
        ensures
            r == self.win_prompt_spec(),
    {
        !self.continued && won(&self.board)
    }

    /// Slide in `direction`; on a change, spawn a tile and record undo history.
    /// Returns `None`, changing nothing (the generator included), while the win
    /// prompt is showing or when the move changes no square.
    pub fn play(&mut self, direction: Direction, rng: &mut StdRng) -> (r: Option<Turn>)
        ensures
            old(self).win_prompt_spec() || !slide_moves(old(self).board, direction) ==> r.is_none()
                && *final(self) == *old(self) && *final(rng) == *old(rng),
            !old(self).win_prompt_spec() && slide_moves(old(self).board, direction) ==> (r matches Some(
                turn,
            ) && old(self).advanced(direction, turn, *final(self))),
            old(self).valid_spec() ==> final(self).valid_spec(),
    {
        if self.win_prompt() {
            return None;
        }
        let mut turn = slide(&self.board, direction);
        if !turn.moved {
            return None;
        }
        let ghost before = *self;
        let snap = Snapshot { board: self.board, score: self.score };
        self.history.push(snap);
        if self.history.len() > UNDO_LIMIT {
            self.history.remove(0);
        }
        proof {
            assert(self.history@ =~= recorded(before.history@, snap));
            lemma_moved_leaves_room(before.board, direction);
            let (r, c) = choose|r: int, c: int|
                0 <= r < 4 && 0 <= c < 4 && #[trigger] slid_tile(before.board, direction, r, c) == 0;
            assert(turn.board[r][c] == 0);
        }
        turn.spawned = spawn(&mut turn.board, rng);
        self.board = turn.board;
        self.score = self.score.saturating_add(turn.score_delta);
        if self.score > self.best {
            self.best = self.score;
        }
        proof {
            if before.valid_spec() {
                lemma_move_keeps_valid(before, direction, turn, *self);
            }
        }
        Some(turn)
    }

    /// Return to the previous recorded state; `false` when there is none.
    pub fn undo(&mut self) -> (r: bool)
        ensures
            old(self).history@.len() == 0 ==> !r && *final(self) == *old(self),
            old(self).history@.len() > 0 ==> r && old(self).undone(*final(self)),
    {
        if self.history.len() == 0 {
            return false;
        }
        let previous = match self.history.pop() {
            Some(p) => p,
            None => return false,
        };
        self.board = previous.board;
        self.score = previous.score;
        self.continued = self.continued && won(&self.board);
        true
    }

    /// Dismiss the win prompt and keep playing; only while a winning tile is on the board.
    pub fn keep_going(&mut self)
        ensures
            final(self).continued == (old(self).continued || has_win_tile(old(self).board)),
            final(self).board == old(self).board,
            final(self).score == old(self).score,
            final(self).best == old(self).best,
            final(self).history@ == old(self).history@,
    {
        if won(&self.board) {
            self.continued = true;
        }
    }

    pub fn valid(&self) -> (r: bool)
        ensures
            r == self.valid_spec(),
    {
        let mut i: usize = 0;
        while i < self.history.len()
            invariant
                0 <= i <= self.history@.len(),
                forall|k: int|
                    0 <= k < i ==> valid_board(#[trigger] self.history@[k].board)
                        && self.history@[k].score <= self.best,
            decreases self.history@.len() - i,
        {
            if !(valid(&self.history[i].board) && self.history[i].score <= self.best) {
                return false;
            }
            assert(valid_board(self.history@[i as int].board) && self.history@[i as int].score
                <= self.best);
            assert forall|k: int| 0 <= k < i + 1 implies valid_board(
                #[trigger] self.history@[k].board,
            ) && self.history@[k].score <= self.best by {
                if k < i {
                } else {
                    assert(k == i);
                }
            }
            i = i + 1;
        }
        valid(&self.board) && self.best >= self.score && self.history.len() <= UNDO_LIMIT && (
        !self.continued || won(&self.board))
    }
}

} // verus!
