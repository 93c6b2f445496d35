//! The board model: cells, points, fields, player bodies, statistics and
//! the game state, with the default field, permutation and origins.
use vstd::prelude::*;

use rand::prng::IsaacRng;

use crate::random::{shuffle_step, shuffle_u8};

verus! {

/// Classification of one board cell.
#[derive(Clone, Copy, PartialEq, Eq, Structural, Debug)]
pub enum Cell {
    Empty,
    Border,
    Owned(u8),
}

/// A point in matrix space: `Point(row, column)`, origin at the top-left.
#[derive(Clone, Copy, PartialEq, Eq, Structural, Debug)]
pub struct Point(pub i16, pub i16);

/// One unit move of a player's head, in Cartesian directions.
#[derive(Clone, Copy, PartialEq, Eq, Structural, Debug)]
pub enum Move {
    Right,
    Up,
    Left,
    Down,
    Stop,
}

/// The terrain: `m` rows, `n` columns and the `m × n` matrix of cells.
#[derive(Clone, PartialEq, Eq, Debug)]
pub struct Field {
    pub m: usize,
    pub n: usize,
    pub cells: Vec<Vec<Cell>>,
}

/// The largest side of a board: every coordinate and every sum of two of them
/// fits in an `i16`.
pub const MAX_SIDE: usize = 8000;

impl Field {
    /// The matrix has `m` rows of `n` cells, and both sides are positive and
    /// small enough for `i16` coordinates.
    pub open spec fn wf(&self) -> bool {
        &&& 1 <= self.m <= MAX_SIDE
        &&& 1 <= self.n <= MAX_SIDE
        &&& self.cells@.len() == self.m
        &&& forall|i: int| 0 <= i < self.m ==> (#[trigger] self.cells@[i])@.len() == self.n
    }

    /// The cell at matrix position (row `i`, column `j`).
    pub open spec fn cell_spec(&self, i: int, j: int) -> Cell {
        self.cells@[i]@[j]
    }
}

/// Counters updated by the match engine as things happen.
#[derive(Clone, PartialEq, Eq, Debug)]
pub struct Stats {
    pub iteration: u16,
    pub filled_count: u16,
    pub head_to_head_count: u16,
    pub ouroboros_count: u16,
    pub bite_count: u16,
    pub scores: Vec<u16>,
}

/// A player's body in matrix space, tail first and head last; empty once the
/// player is out.
#[derive(Clone, PartialEq, Eq, Debug)]
pub struct Player(pub Vec<Point>);

/// A snapshot of a match.
#[derive(Clone, PartialEq, Eq, Debug)]
pub struct GameState {
    pub field: Field,
    pub players: Vec<Player>,
    pub player_names: Vec<String>,
    pub origins: Vec<Point>,
    pub stats: Stats,
    pub reordering: Vec<u8>,
}

/// The board text could not be read.
#[derive(Clone, Copy, PartialEq, Eq, Structural, Debug)]
pub struct ParseError;

impl ParseError {
    /// A short description of the failure.
    pub fn message(&self) -> (r: &'static str) {
        "Cannot parse the string to GameState"
    }
}

/// The metadata read from the lines after the board, each item only if its
/// line was there.
#[derive(Clone, PartialEq, Eq, Debug)]
pub struct ParseRestResult {
    pub reordering: Option<Vec<u8>>,
    pub origins: Option<Vec<Point>>,
    pub stats: Option<Stats>,
}

impl GameState {
    /// Every body point of player `idx` lies on the board.
    pub open spec fn body_in_board(&self, idx: int) -> bool {
        forall|l: int|
            0 <= l < self.players@[idx].0@.len() ==> 0 <= (#[trigger] self.players@[idx].0@[l]).0
                < self.field.m && 0 <= self.players@[idx].0@[l].1 < self.field.n
    }
}

/// The point at `pos` steps clockwise along the border of a `height × width`
/// board, starting at the top-left corner and going right along the top row.
pub open spec fn border_point_spec(height: int, width: int, pos: int) -> Point {
    let m = height;
    let n = width;
    let p = pos % (2 * (m + n) - 4);
    if p < n {
        Point(0, p as i16)
    } else if p < n + m - 2 {
        Point((p - n + 1) as i16, (n - 1) as i16)
    } else if p < n + n + m - 2 {
        Point((m - 1) as i16, (n + n + m - 3 - p) as i16)
    } else {
        Point((n + n + m + m - 4 - p) as i16, 0)
    }
}

pub fn border_to_point(height: usize, width: usize, pos: usize) -> (r: Point)
    requires
        1 <= height <= MAX_SIDE,
        1 <= width <= MAX_SIDE,
        height + width > 2,
    ensures
        r == border_point_spec(height as int, width as int, pos as int),
{
    let m = height as i16;
    let n = width as i16;
    let per: usize = 2 * (height + width) - 4;
    let p = (pos % per) as i16;
    if p < n {
        Point(0, p)
    } else if p < n + m - 2 {
        Point(p - n + 1, n - 1)
    } else if p < n + n + m - 2 {
        Point(m - 1, n + n + m - 3 - p)
    } else {
        Point(n + n + m + m - 4 - p, 0)
    }
}

/// The identity permutation `[0, 1, …, np - 1]`.
pub fn create_default_permutation(np: usize) -> (r: Vec<u8>)
    requires
        np <= 256,
    ensures
        r@.len() == np,
        forall|i: int| 0 <= i < np ==> r@[i] == i,
{
    let mut r: Vec<u8> = Vec::new();
    let mut i: usize = 0;
    while i < np
        invariant
            np <= 256,
            0 <= i <= np,
            r@.len() == i,
            forall|t: int| 0 <= t < i ==> r@[t] == t,
        decreases np - i,
    {
        r.push(i as u8);
        i = i + 1;
    }
    r
}

/// A copy of `xs` in an order drawn from `random`.
pub fn copy_shuffled_permutation(xs: &Vec<u8>, random: &mut IsaacRng) -> (r: Vec<u8>)
    ensures
        (r@, *final(random)) == shuffle_step(*old(random), xs@),
        r@.to_multiset() == xs@.to_multiset(),
        r@.len() == xs@.len(),
{
    let mut tmp: Vec<u8> = Vec::new();
    let mut i: usize = 0;
    while i < xs.len()
        invariant
            0 <= i <= xs@.len(),
            tmp@ == xs@.subrange(0, i as int),
        decreases xs.len() - i,
    {
        tmp.push(xs[i]);
        i = i + 1;
        assert(tmp@ =~= xs@.subrange(0, i as int));
    }
    assert(tmp@ =~= xs@);
    shuffle_u8(random, &mut tmp);
    proof {
        vstd::seq_lib::to_multiset_len(tmp@);
        vstd::seq_lib::to_multiset_len(xs@);
    }
    tmp
}

/// `perm` holds every index below its length (so each exactly once).
pub open spec fn is_permutation(perm: Seq<u8>) -> bool {
    forall|k: int| 0 <= k < perm.len() ==> #[trigger] perm.contains(k as u8)
}

/// The first position of `x` in `xs`.
pub open spec fn first_pos(xs: Seq<u8>, x: int) -> int
    decreases xs.len(),
{
    if xs.len() == 0 {
        0
    } else if xs[0] == x {
        0
    } else {
        1 + first_pos(xs.drop_first(), x)
    }
}

/// The four corners, in the order top-left, bottom-right, top-right,
/// bottom-left.
pub open spec fn corner_spec(height: int, width: int, c: int) -> Point {
    if c == 0 {
        Point(0, 0)
    } else if c == 1 {
        Point((height - 1) as i16, (width - 1) as i16)
    } else if c == 2 {
        Point(0, (width - 1) as i16)
    } else {
        Point((height - 1) as i16, 0)
    }
}

/// Where the players start: with at most four players, player `k` takes the
/// corner numbered by the position of `k` in `perm`; with more, the player
/// at position `j` of `perm` starts `perm[j]` equal steps along the border.
pub open spec fn origins_spec(height: int, width: int, perm: Seq<u8>) -> Seq<Point> {
    let np = perm.len() as int;
    if np <= 4 {
        Seq::new(np as nat, |k: int| corner_spec(height, width, first_pos(perm, k)))
    } else {
        let step = 2 * (height + width - 2) / np;
        Seq::new(np as nat, |j: int| border_point_spec(height, width, perm[j] * step))
    }
}

proof fn lemma_first_pos(xs: Seq<u8>, x: int)
    requires
        exists|j: int| 0 <= j < xs.len() && xs[j] == x,
    ensures
        0 <= first_pos(xs, x) < xs.len(),
        xs[first_pos(xs, x)] == x,
        forall|t: int| 0 <= t < first_pos(xs, x) ==> xs[t] != x,
    decreases xs.len(),
{
    if xs[0] != x {
        let j = choose|j: int| 0 <= j < xs.len() && xs[j] == x;
        assert(xs.drop_first()[j - 1] == x);
        lemma_first_pos(xs.drop_first(), x);
        assert forall|t: int| 0 <= t < first_pos(xs, x) implies xs[t] != x by {
            if t > 0 {
                assert(xs[t] == xs.drop_first()[t - 1]);
            }
        }
    }
}

fn index_of(xs: &Vec<u8>, x: u8) -> (r: usize)
    requires
        xs@.contains(x),
    ensures
        r == first_pos(xs@, x as int),
        r < xs@.len(),
{
    proof {
        lemma_first_pos(xs@, x as int);
    }
    let mut i: usize = 0;
    while i < xs.len()
        invariant
            0 <= i <= first_pos(xs@, x as int),
            0 <= first_pos(xs@, x as int) < xs@.len(),
            xs@[first_pos(xs@, x as int)] == x,
            forall|t: int| 0 <= t < first_pos(xs@, x as int) ==> xs@[t] != x,
        decreases xs.len() - i,
    {
        if xs[i] == x {
            return i;
        }
        i = i + 1;
    }
    i
}

pub fn create_origins(height: usize, width: usize, perm: Vec<u8>) -> (r: Vec<Point>)
    requires
        1 <= height <= MAX_SIDE,
        1 <= width <= MAX_SIDE,
        perm@.len() > 4 ==> height + width > 2,
        perm@.len() <= 256,
        is_permutation(perm@),
    ensures
        r@ == origins_spec(height as int, width as int, perm@),
{
    let np = perm.len();
    let mut out: Vec<Point> = Vec::new();
    if np <= 4 {
        let m = height as i16;
        let n = width as i16;
        let mut k: usize = 0;
        while k < np
            invariant
                np == perm@.len(),
                np <= 4,
                m == height,
                n == width,
                1 <= height <= MAX_SIDE,
                1 <= width <= MAX_SIDE,
                is_permutation(perm@),
                0 <= k <= np,
                out@.len() == k,
                forall|t: int| 0 <= t < k ==> #[trigger] out@[t] == corner_spec(height as int, width as int, first_pos(perm@, t)),
            decreases np - k,
        {
            assert(perm@.contains(k as u8));
            let c = index_of(&perm, k as u8);
            let p = if c == 0 {
                Point(0, 0)
            } else if c == 1 {
                Point(m - 1, n - 1)
            } else if c == 2 {
                Point(0, n - 1)
            } else {
                Point(m - 1, 0)
            };
            out.push(p);
            k = k + 1;
        }
    } else {
        let step: usize = 2 * (height + width - 2) / np;
        let mut j: usize = 0;
        while j < np
            invariant
                np == perm@.len(),
                np > 4,
                np <= 256,
                height + width > 2,
                step == 2 * (height + width - 2) / (np as int),
                1 <= height <= MAX_SIDE,
                1 <= width <= MAX_SIDE,
                0 <= j <= np,
                out@.len() == j,
                forall|t: int| 0 <= t < j ==> #[trigger] out@[t] == border_point_spec(height as int, width as int, perm@[t] * step),
            decreases np - j,
        {
            assert(step <= 2 * (MAX_SIDE + MAX_SIDE)) by (nonlinear_arith)
                requires step == 2 * (height + width - 2) / (np as int), np > 4, height + width <= 2 * MAX_SIDE;
            assert(perm@[j as int] * step <= 255 * 2 * (MAX_SIDE + MAX_SIDE)) by (nonlinear_arith)
                requires step <= 2 * (MAX_SIDE + MAX_SIDE), perm@[j as int] <= 255;
            let p = border_to_point(height, width, (perm[j] as usize) * step);
            out.push(p);
            j = j + 1;
        }
    }
    assert(out@ =~= origins_spec(height as int, width as int, perm@));
    out
}

/// Default origins for `np` players (the identity ordering).
pub fn create_origins_n(height: usize, width: usize, np: usize) -> (r: Vec<Point>)
    requires
        1 <= height <= MAX_SIDE,
        1 <= width <= MAX_SIDE,
        np > 4 ==> height + width > 2,
        np <= 256,
    ensures
        r@ == origins_spec(height as int, width as int, Seq::new(np as nat, |i: int| i as u8)),
{
    let perm = create_default_permutation(np);
    assert(perm@ =~= Seq::new(np as nat, |i: int| i as u8));
    assert forall|k: int| 0 <= k < perm@.len() implies #[trigger] perm@.contains(k as u8) by {
        assert(perm@[k] == k as u8);
    }
    create_origins(height, width, perm)
}

/// Cell `(i, j)` of the default board: Border on the perimeter, Empty inside.
pub open spec fn default_cell(m: int, n: int, i: int, j: int) -> Cell {
    if i == 0 || i == m - 1 || j == 0 || j == n - 1 {
        Cell::Border
    } else {
        Cell::Empty
    }
}

/// An `m × n` board of unclaimed cells inside a border.
pub fn create_default_field(m: usize, n: usize) -> (r: Field)
    ensures
        r.m == m,
        r.n == n,
        r.cells@.len() == m,
        forall|i: int| 0 <= i < m ==> (#[trigger] r.cells@[i])@.len() == n,
        forall|i: int, j: int| 0 <= i < m && 0 <= j < n ==> r.cell_spec(i, j) == default_cell(m as int, n as int, i, j),
{
    let mut cells: Vec<Vec<Cell>> = Vec::new();
    let mut i: usize = 0;
    while i < m
        invariant
            0 <= i <= m,
            cells@.len() == i,
            forall|t: int| 0 <= t < i ==> (#[trigger] cells@[t])@.len() == n,
            forall|t: int, j: int| 0 <= t < i && 0 <= j < n ==> cells@[t]@[j] == default_cell(m as int, n as int, t, j),
        decreases m - i,
    {
        let mut row: Vec<Cell> = Vec::new();
        let mut j: usize = 0;
        while j < n
            invariant
                0 <= i < m,
                0 <= j <= n,
                row@.len() == j,
                forall|t: int| 0 <= t < j ==> row@[t] == default_cell(m as int, n as int, i as int, t),
            decreases n - j,
        {
            let c = if i == 0 || i == m - 1 || j == 0 || j == n - 1 {
                Cell::Border
            } else {
                Cell::Empty
            };
            row.push(c);
            j = j + 1;
        }
        cells.push(row);
        i = i + 1;
    }
    Field { m, n, cells }
}

} // verus!
