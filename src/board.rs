//! Reading a board from text: each board line starts with `*` and holds a
//! pair of characters per cell (the cell, then body occupancy); the lines
//! that follow hold metadata.
use vstd::prelude::*;

use crate::render::player_name;
use crate::metadata::{parse_rest_lines, rest_spec, rest_view, RestView};
use crate::model::{
    create_default_permutation, create_origins_n, origins_spec, Cell, Field, GameState,
    ParseError, Player, Point, Stats, MAX_SIDE,
};
use crate::text::{
    chars_of, player_name_spec, split_chars, split_on, trim, trim_chars, views,
};

verus! {

/// The trimmed, non-empty lines among `pieces` that start (`star`) or do not
/// start with `*`, in order.
pub open spec fn lines_of_kind(pieces: Seq<Seq<char>>, star: bool) -> Seq<Seq<char>>
    decreases pieces.len(),
{
    if pieces.len() == 0 {
        Seq::empty()
    } else {
        let pre = lines_of_kind(pieces.drop_last(), star);
        let t = trim(pieces.last());
        if t.len() > 0 && (t[0] == '*') == star {
            pre.push(t)
        } else {
            pre
        }
    }
}

/// The board lines of text `s`.
pub open spec fn board_lines(s: Seq<char>) -> Seq<Seq<char>> {
    lines_of_kind(split_on(s, '\n'), true)
}

/// The metadata lines of text `s`.
pub open spec fn meta_lines(s: Seq<char>) -> Seq<Seq<char>> {
    lines_of_kind(split_on(s, '\n'), false)
}

/// Splits text into its board lines and its metadata lines.
pub fn classify_lines(s: &Vec<char>) -> (r: (Vec<Vec<char>>, Vec<Vec<char>>))
    ensures
        views(r.0@) == board_lines(s@),
        views(r.1@) == meta_lines(s@),
{
    let pieces = split_chars(s, '\n');
    let ghost ps = split_on(s@, '\n');
    let mut board: Vec<Vec<char>> = Vec::new();
    let mut rest: Vec<Vec<char>> = Vec::new();
    let mut i: usize = 0;
    while i < pieces.len()
        invariant
            views(pieces@) == ps,
            0 <= i <= pieces@.len(),
            views(board@) == lines_of_kind(ps.subrange(0, i as int), true),
            views(rest@) == lines_of_kind(ps.subrange(0, i as int), false),
        decreases pieces.len() - i,
    {
        assert(ps.subrange(0, i as int + 1).drop_last() =~= ps.subrange(0, i as int));
        assert(ps.subrange(0, i as int + 1).last() == pieces@[i as int]@);
        let t = trim_chars(&pieces[i]);
        if t.len() > 0 {
            let ghost b0 = board@;
            let ghost r0 = rest@;
            if t[0] == '*' {
                board.push(t);
                assert(views(board@) =~= views(b0).push(t@));
            } else {
                rest.push(t);
                assert(views(rest@) =~= views(r0).push(t@));
            }
        }
        i = i + 1;
    }
    assert(ps.subrange(0, pieces@.len() as int) =~= ps);
    (board, rest)
}

/// The number of cells on the widest line: half its length, rounded down.
pub open spec fn width_of(lines: Seq<Seq<char>>) -> int
    decreases lines.len(),
{
    if lines.len() == 0 {
        0
    } else {
        let w = width_of(lines.drop_last());
        let h = lines.last().len() as int / 2;
        if h > w {
            h
        } else {
            w
        }
    }
}

/// Every line holds `n` full cells.
pub open spec fn lines_full(lines: Seq<Seq<char>>, n: int) -> bool {
    forall|i: int| 0 <= i < lines.len() ==> (#[trigger] lines[i]).len() >= 2 * n
}

pub fn width_exec(lines: &Vec<Vec<char>>) -> (r: usize)
    ensures
        r == width_of(views(lines@)),
{
    let ghost ls = views(lines@);
    let mut w: usize = 0;
    let mut i: usize = 0;
    while i < lines.len()
        invariant
            ls == views(lines@),
            0 <= i <= lines@.len(),
            w == width_of(ls.subrange(0, i as int)),
        decreases lines.len() - i,
    {
        assert(ls.subrange(0, i as int + 1).drop_last() =~= ls.subrange(0, i as int));
        assert(ls.subrange(0, i as int + 1).last() == lines@[i as int]@);
        let h = lines[i].len() / 2;
        if h > w {
            w = h;
        }
        i = i + 1;
    }
    assert(ls.subrange(0, lines@.len() as int) =~= ls);
    w
}

/// The cell a character stands for: `*` Border, a digit Owned by that
/// player, anything else Empty.
pub open spec fn cell_of_char(c: char) -> Cell {
    if c == '*' {
        Cell::Border
    } else if '0' <= c && c <= '9' {
        Cell::Owned((c as int - '0' as int) as u8)
    } else {
        Cell::Empty
    }
}

/// The cells of the board lines: `m` rows of `n`.
pub open spec fn cells_of(lines: Seq<Seq<char>>, n: int) -> Seq<Seq<Cell>> {
    Seq::new(lines.len(), |i: int| Seq::new(n as nat, |j: int| cell_of_char(lines[i][2 * j])))
}

pub fn cells_exec(lines: &Vec<Vec<char>>, n: usize) -> (r: Vec<Vec<Cell>>)
    requires
        n <= MAX_SIDE,
        lines_full(views(lines@), n as int),
    ensures
        r@.len() == lines@.len(),
        forall|i: int| 0 <= i < r@.len() ==> (#[trigger] r@[i])@ == cells_of(views(lines@), n as int)[i],
{
    let ghost ls = views(lines@);
    let mut cells: Vec<Vec<Cell>> = Vec::new();
    let mut i: usize = 0;
    while i < lines.len()
        invariant
            ls == views(lines@),
            n <= MAX_SIDE,
            lines_full(ls, n as int),
            0 <= i <= lines@.len(),
            cells@.len() == i,
            forall|t: int| 0 <= t < i ==> (#[trigger] cells@[t])@ == cells_of(ls, n as int)[t],
        decreases lines.len() - i,
    {
        let line = &lines[i];
        assert(ls[i as int] == line@);
        assert(line@.len() >= 2 * n);
        let mut row: Vec<Cell> = Vec::new();
        let mut j: usize = 0;
        while j < n
            invariant
                n <= MAX_SIDE,
                line@.len() >= 2 * n,
                ls[i as int] == line@,
                0 <= i < ls.len(),
                0 <= j <= n,
                row@ =~= cells_of(ls, n as int)[i as int].subrange(0, j as int),
            decreases n - j,
        {
            let c = line[2 * j];
            let cell = if c == '*' {
                Cell::Border
            } else if '0' <= c && c <= '9' {
                Cell::Owned((c as u32 - '0' as u32) as u8)
            } else {
                Cell::Empty
            };
            row.push(cell);
            j = j + 1;
        }
        assert(row@ =~= cells_of(ls, n as int)[i as int]);
        cells.push(row);
        i = i + 1;
    }
    cells
}

/// The occupancy character of cell `(i, j)`.
pub open spec fn mark_at(lines: Seq<Seq<char>>, i: int, j: int) -> char {
    lines[i][2 * j + 1]
}

/// The last column below `j` of row `i` whose mark has code `code`.
pub open spec fn last_in_row(lines: Seq<Seq<char>>, i: int, code: int, j: int) -> Option<int>
    decreases j,
{
    if j <= 0 {
        None
    } else if mark_at(lines, i, j - 1) as int == code {
        Some(j - 1)
    } else {
        last_in_row(lines, i, code, j - 1)
    }
}

/// The last cell, in reading order within the first `i` rows, whose mark
/// has code `code`.
pub open spec fn last_mark(lines: Seq<Seq<char>>, n: int, code: int, i: int) -> Option<Point>
    decreases i,
{
    if i <= 0 {
        None
    } else {
        match last_in_row(lines, i - 1, code, n) {
            Some(j) => Some(Point((i - 1) as i16, j as i16)),
            None => last_mark(lines, n, code, i - 1),
        }
    }
}

/// The head of player `k`: the last cell marked with the `k`-th capital
/// letter.
pub open spec fn head_of(lines: Seq<Seq<char>>, n: int, k: int) -> Option<Point> {
    last_mark(lines, n, 'A' as int + k, lines.len() as int)
}

/// One more than the largest player below `k` that has a head, or 0.
pub open spec fn players_below(lines: Seq<Seq<char>>, n: int, k: int) -> int
    decreases k,
{
    if k <= 0 {
        0
    } else if head_of(lines, n, k - 1) is Some {
        k
    } else {
        players_below(lines, n, k - 1)
    }
}

/// The number of players on the board.
pub open spec fn num_players(lines: Seq<Seq<char>>, n: int) -> int {
    players_below(lines, n, 26)
}

/// Finds the last cell whose mark has code `code`.
pub fn last_mark_exec(lines: &Vec<Vec<char>>, n: usize, code: u32) -> (r: Option<Point>)
    requires
        n <= MAX_SIDE,
        lines@.len() <= MAX_SIDE,
        lines_full(views(lines@), n as int),
    ensures
        r == last_mark(views(lines@), n as int, code as int, lines@.len() as int),
        r matches Some(p) ==> 0 <= p.0 < lines@.len() && 0 <= p.1 < n,
{
    let ghost ls = views(lines@);
    let mut i: usize = lines.len();
    while i > 0
        invariant
            ls == views(lines@),
            n <= MAX_SIDE,
            lines@.len() <= MAX_SIDE,
            lines_full(ls, n as int),
            0 <= i <= lines@.len(),
            last_mark(ls, n as int, code as int, lines@.len() as int) == last_mark(ls, n as int, code as int, i as int),
        decreases i,
    {
        let line = &lines[i - 1];
        assert(ls[i - 1] == line@);
        assert(line@.len() >= 2 * n);
        let mut j: usize = n;
        while j > 0
            invariant
                ls == views(lines@),
                ls[i - 1] == line@,
                line@.len() >= 2 * n,
                0 < i <= lines@.len(),
                n <= MAX_SIDE,
                lines@.len() <= MAX_SIDE,
                0 <= j <= n,
                last_mark(ls, n as int, code as int, lines@.len() as int) == last_mark(ls, n as int, code as int, i as int),
                last_in_row(ls, i - 1, code as int, n as int) == last_in_row(ls, i - 1, code as int, j as int),
            decreases j,
        {
            assert(mark_at(ls, i - 1, j - 1) == line@[2 * (j - 1) + 1]);
            if line[2 * (j - 1) + 1] as u32 == code {
                return Some(Point((i - 1) as i16, (j - 1) as i16));
            }
            j = j - 1;
        }
        i = i - 1;
    }
    None
}

/// Direction `d` of the four looked at around a body segment: left, up,
/// right, down.
pub open spec fn step_point(p: Point, d: int, m: int, n: int) -> Point {
    let (di, dj) = if d == 0 {
        (0int, -1int)
    } else if d == 1 {
        (-1int, 0int)
    } else if d == 2 {
        (0int, 1int)
    } else {
        (1int, 0int)
    };
    let i = p.0 + di;
    let j = p.1 + dj;
    let ci = if i < 0 { 0 } else if i > m - 1 { m - 1 } else { i };
    let cj = if j < 0 { 0 } else if j > n - 1 { n - 1 } else { j };
    Point(ci as i16, cj as i16)
}

/// Neighbour `d` of the front of `body` continues it: a cell not yet in it,
/// marked with the tail code.
pub open spec fn continues(lines: Seq<Seq<char>>, m: int, n: int, code: int, body: Seq<Point>, d: int) -> bool {
    let q = step_point(body[0], d, m, n);
    !body.contains(q) && mark_at(lines, q.0 as int, q.1 as int) as int == code
}

/// The next segment of a body being rebuilt from its head: the first
/// neighbour, in the order left, up, right, down, that continues it.
pub open spec fn next_segment(lines: Seq<Seq<char>>, m: int, n: int, code: int, body: Seq<Point>) -> Option<Point> {
    if continues(lines, m, n, code, body, 0) {
        Some(step_point(body[0], 0, m, n))
    } else if continues(lines, m, n, code, body, 1) {
        Some(step_point(body[0], 1, m, n))
    } else if continues(lines, m, n, code, body, 2) {
        Some(step_point(body[0], 2, m, n))
    } else if continues(lines, m, n, code, body, 3) {
        Some(step_point(body[0], 3, m, n))
    } else {
        None
    }
}

/// The body grown from its front for at most `fuel` steps.
pub open spec fn walk(lines: Seq<Seq<char>>, m: int, n: int, code: int, body: Seq<Point>, fuel: nat) -> Seq<Point>
    decreases fuel,
{
    if fuel == 0 {
        body
    } else {
        match next_segment(lines, m, n, code, body) {
            Some(q) => walk(lines, m, n, code, seq![q].add(body), (fuel - 1) as nat),
            None => body,
        }
    }
}

/// The body of player `k`, tail first: from the head, walk to neighbours
/// marked with the `k`-th small letter (at most one step per cell).
pub open spec fn body_of(lines: Seq<Seq<char>>, n: int, k: int) -> Seq<Point> {
    let m = lines.len() as int;
    match head_of(lines, n, k) {
        Some(h) => walk(lines, m, n, 'a' as int + k, seq![h], (m * n) as nat),
        None => Seq::empty(),
    }
}

pub open spec fn all_in(body: Seq<Point>, m: int, n: int) -> bool {
    forall|t: int| 0 <= t < body.len() ==> 0 <= (#[trigger] body[t]).0 < m && 0 <= body[t].1 < n
}

fn contains_point(body: &Vec<Point>, q: Point) -> (r: bool)
    ensures
        r == body@.contains(q),
{
    let mut i: usize = 0;
    while i < body.len()
        invariant
            0 <= i <= body@.len(),
            forall|t: int| 0 <= t < i ==> body@[t] != q,
        decreases body.len() - i,
    {
        if body[i] == q {
            return true;
        }
        i = i + 1;
    }
    false
}

fn step_exec(p: Point, d: usize, m: usize, n: usize) -> (r: Point)
    requires
        1 <= m <= MAX_SIDE,
        1 <= n <= MAX_SIDE,
        0 <= p.0 < m,
        0 <= p.1 < n,
    ensures
        r == step_point(p, d as int, m as int, n as int),
        0 <= r.0 < m && 0 <= r.1 < n,
{
    let (di, dj): (i16, i16) = if d == 0 {
        (0, -1)
    } else if d == 1 {
        (-1, 0)
    } else if d == 2 {
        (0, 1)
    } else {
        (1, 0)
    };
    let i = p.0 + di;
    let j = p.1 + dj;
    let hi = m as i16 - 1;
    let hj = n as i16 - 1;
    let ci = if i < 0 { 0 } else if i > hi { hi } else { i };
    let cj = if j < 0 { 0 } else if j > hj { hj } else { j };
    Point(ci, cj)
}

/// Rebuilds a body from its head `h`.
pub fn walk_exec(lines: &Vec<Vec<char>>, n: usize, code: u32, h: Point) -> (r: Vec<Point>)
    requires
        1 <= n <= MAX_SIDE,
        1 <= lines@.len() <= MAX_SIDE,
        lines_full(views(lines@), n as int),
        0 <= h.0 < lines@.len(),
        0 <= h.1 < n,
    ensures
        r@ == walk(views(lines@), lines@.len() as int, n as int, code as int, seq![h], (lines@.len() * n) as nat),
{
    let ghost ls = views(lines@);
    let m = lines.len();
    let ghost mi = m as int;
    let ghost ni = n as int;
    let mut body: Vec<Point> = Vec::new();
    body.push(h);
    assert(m * n <= MAX_SIDE * MAX_SIDE) by (nonlinear_arith)
        requires
            m <= MAX_SIDE,
            n <= MAX_SIDE,
    ;
    let fuel: usize = m * n;
    let mut used: usize = 0;
    assert(body@ =~= seq![h]);
    while used < fuel
        invariant
            ls == views(lines@),
            m == lines@.len(),
            1 <= n <= MAX_SIDE,
            1 <= m <= MAX_SIDE,
            lines_full(ls, n as int),
            fuel == m * n,
            mi == m as int,
            ni == n as int,
            0 <= used <= fuel,
            body@.len() > 0,
            all_in(body@, mi, ni),
            walk(ls, mi, ni, code as int, seq![h], fuel as nat) == walk(ls, mi, ni, code as int, body@, (fuel - used) as nat),
        decreases fuel - used,
    {
        let front = body[0];
        assert(0 <= front.0 < m && 0 <= front.1 < n);
        let mut found: Option<Point> = None;
        let mut d: usize = 0;
        while d < 4
            invariant
                ls == views(lines@),
                m == lines@.len(),
                1 <= n <= MAX_SIDE,
                1 <= m <= MAX_SIDE,
                lines_full(ls, n as int),
                body@.len() > 0,
                mi == m as int,
                ni == n as int,
                front == body@[0],
                0 <= front.0 < m && 0 <= front.1 < n,
                all_in(body@, mi, ni),
                0 <= d <= 4,
                found is None ==> forall|e: int| 0 <= e < d ==> !continues(ls, mi, ni, code as int, body@, e),
                found matches Some(q) ==> next_segment(ls, mi, ni, code as int, body@) == Some(q) && 0 <= q.0 < m && 0 <= q.1 < n,
            decreases 4 - d,
        {
            if found.is_none() {
                let q = step_exec(front, d, m, n);
                let line = &lines[q.0 as usize];
                assert(ls[q.0 as int] == line@);
                assert(line@.len() >= 2 * n);
                assert(mark_at(ls, q.0 as int, q.1 as int) == line@[2 * q.1 + 1]);
                if !contains_point(&body, q) && line[2 * (q.1 as usize) + 1] as u32 == code {
                    found = Some(q);
                }
            }
            d = d + 1;
        }
        match found {
            Some(q) => {
                let ghost before = body@;
                body.insert(0, q);
                assert(body@ =~= seq![q].add(before));
                used = used + 1;
            },
            None => {
                return body;
            },
        }
    }
    body
}

/// The cells of all rows, row after row.
pub open spec fn flat(cells: Seq<Seq<Cell>>) -> Seq<Cell>
    decreases cells.len(),
{
    if cells.len() == 0 {
        Seq::empty()
    } else {
        flat(cells.drop_last()) + cells.last()
    }
}

/// How many of the cells are claimed (Border or Owned).
pub open spec fn filled_in(s: Seq<Cell>) -> int
    decreases s.len(),
{
    if s.len() == 0 {
        0
    } else {
        filled_in(s.drop_last()) + if s.last() != Cell::Empty {
            1int
        } else {
            0int
        }
    }
}

/// How many of the cells player `k` owns.
pub open spec fn owned_by(s: Seq<Cell>, k: int) -> int
    decreases s.len(),
{
    if s.len() == 0 {
        0
    } else {
        owned_by(s.drop_last(), k) + if s.last() == Cell::Owned(k as u8) {
            1int
        } else {
            0int
        }
    }
}

/// Every owned cell belongs to one of the `np` players.
pub open spec fn owners_ok(s: Seq<Cell>, np: int) -> bool {
    forall|t: int| 0 <= t < s.len() ==> (#[trigger] s[t] matches Cell::Owned(d) ==> d < np)
}

proof fn lemma_counts_bounded(s: Seq<Cell>, k: int)
    ensures
        0 <= owned_by(s, k) <= filled_in(s),
    decreases s.len(),
{
    if s.len() > 0 {
        lemma_counts_bounded(s.drop_last(), k);
    }
}

/// The counts derived from the cells: claimed cells, and the cells of each
/// of the `np` players; nothing when a cell's owner has no player or when
/// more cells are claimed than a `u16` counts.
pub fn count_cells(cells: &Vec<Vec<Cell>>, np: usize) -> (r: Option<(u16, Vec<u16>)>)
    requires
        np <= 26,
    ensures
        r is None <==> !owners_ok(flat(Seq::new(cells@.len(), |i: int| cells@[i]@)), np as int)
            || filled_in(flat(Seq::new(cells@.len(), |i: int| cells@[i]@))) > 65535,
        r matches Some((f, sc)) ==> f == filled_in(flat(Seq::new(cells@.len(), |i: int| cells@[i]@)))
            && sc@.len() == np && forall|k: int| 0 <= k < np ==> #[trigger] sc@[k] == owned_by(
            flat(Seq::new(cells@.len(), |i: int| cells@[i]@)),
            k,
        ),
{
    let ghost cs = Seq::new(cells@.len(), |i: int| cells@[i]@);
    let mut scores: Vec<u16> = Vec::new();
    let mut k: usize = 0;
    while k < np
        invariant
            0 <= k <= np,
            scores@.len() == k,
            forall|t: int| 0 <= t < k ==> scores@[t] == 0,
        decreases np - k,
    {
        scores.push(0);
        k = k + 1;
    }
    let mut filled: u16 = 0;
    let mut over = false;
    let mut i: usize = 0;
    while i < cells.len()
        invariant
            cs == Seq::new(cells@.len(), |i: int| cells@[i]@),
            np <= 26,
            0 <= i <= cells@.len(),
            scores@.len() == np,
            over <==> filled_in(flat(cs.subrange(0, i as int))) > 65535,
            !over ==> filled == filled_in(flat(cs.subrange(0, i as int))),
            owners_ok(flat(cs.subrange(0, i as int)), np as int),
            filled == filled_in(flat(cs.subrange(0, i as int))) % 65536,
            forall|t: int| 0 <= t < np ==> #[trigger] scores@[t] == owned_by(flat(cs.subrange(0, i as int)), t) % 65536,
        decreases cells.len() - i,
    {
        let row = &cells[i];
        let ghost pre = flat(cs.subrange(0, i as int));
        assert(cs.subrange(0, i as int + 1).drop_last() =~= cs.subrange(0, i as int));
        assert(cs.subrange(0, i as int + 1).last() == row@);
        let mut j: usize = 0;
        assert(pre + row@.subrange(0, 0) =~= pre);
        while j < row.len()
            invariant
                cs == Seq::new(cells@.len(), |i: int| cells@[i]@),
                i < cells@.len(),
                pre == flat(cs.subrange(0, i as int)),
                cs.subrange(0, i as int + 1).drop_last() == cs.subrange(0, i as int),
                cs.subrange(0, i as int + 1).last() == row@,
                np <= 26,
                0 <= j <= row@.len(),
                scores@.len() == np,
                over <==> filled_in(pre + row@.subrange(0, j as int)) > 65535,
                !over ==> filled == filled_in(pre + row@.subrange(0, j as int)),
                owners_ok(pre + row@.subrange(0, j as int), np as int),
                filled == filled_in(pre + row@.subrange(0, j as int)) % 65536,
                forall|t: int| 0 <= t < np ==> #[trigger] scores@[t] == owned_by(pre + row@.subrange(0, j as int), t) % 65536,
            decreases row.len() - j,
        {
            let c = row[j];
            let ghost before = pre + row@.subrange(0, j as int);
            let ghost after = pre + row@.subrange(0, j as int + 1);
            assert(after =~= before.push(c));
            assert(after.drop_last() =~= before);
            match c {
                Cell::Empty => {},
                Cell::Border => {
                    if filled == 65535 {
                        over = true;
                    }
                    filled = if filled == 65535 { 0 } else { filled + 1 };
                },
                Cell::Owned(d) => {
                    if filled == 65535 {
                        over = true;
                    }
                    filled = if filled == 65535 { 0 } else { filled + 1 };
                    if d as usize >= np {
                        assert(after[after.len() - 1] == c);
                        assert(!owners_ok(after, np as int));
                        proof {
                            assert(!owners_ok(flat(cs), np as int)) by {
                                lemma_flat_prefix(cs, i as int + 1);
                                assert(flat(cs.subrange(0, i as int + 1)) =~= pre + row@);
                                assert((pre + row@)[after.len() - 1] == c);
                                assert(flat(cs)[after.len() - 1] == c);
                            }
                        }
                        return None;
                    }
                    let ghost old_scores = scores@;
                    let x = scores[d as usize];
                    scores.set(d as usize, if x == 65535 { 0 } else { x + 1 });
                    assert forall|t: int| 0 <= t < np implies #[trigger] scores@[t] == owned_by(after, t) % 65536 by {
                        if t == d as int {
                            assert(scores@[t] == (if x == 65535 { 0u16 } else { (x + 1) as u16 }));
                        } else {
                            assert(scores@[t] == old_scores[t]);
                            assert(c != Cell::Owned(t as u8));
                        }
                    }
                },
            }
            j = j + 1;
        }
        assert(pre + row@.subrange(0, row@.len() as int) =~= flat(cs.subrange(0, i as int + 1)));
        i = i + 1;
    }
    assert(cs.subrange(0, cells@.len() as int) =~= cs);
    if over {
        return None;
    }
    proof {
        assert forall|k: int| 0 <= k < np implies #[trigger] scores@[k] == owned_by(flat(cs), k) by {
            lemma_counts_bounded(flat(cs), k);
        }
    }
    Some((filled, scores))
}

proof fn lemma_flat_prefix(cs: Seq<Seq<Cell>>, i: int)
    requires
        0 <= i <= cs.len(),
    ensures
        flat(cs).len() >= flat(cs.subrange(0, i)).len(),
        forall|t: int| 0 <= t < flat(cs.subrange(0, i)).len() ==> flat(cs)[t] == #[trigger] flat(cs.subrange(0, i))[t],
    decreases cs.len() - i,
{
    if i < cs.len() {
        lemma_flat_prefix(cs, i + 1);
        assert(cs.subrange(0, i + 1).drop_last() =~= cs.subrange(0, i));
        assert forall|t: int| 0 <= t < flat(cs.subrange(0, i)).len() implies flat(cs)[t]
            == #[trigger] flat(cs.subrange(0, i))[t] by {
            assert(flat(cs.subrange(0, i + 1))[t] == flat(cs.subrange(0, i))[t]);
        }
    } else {
        assert(cs.subrange(0, i) =~= cs);
    }
}

/// The cells of a board text, row by row.
pub open spec fn text_cells(s: Seq<char>) -> Seq<Seq<Cell>> {
    cells_of(board_lines(s), width_of(board_lines(s)))
}

/// The number of players of a board text.
pub open spec fn text_players(s: Seq<char>) -> int {
    num_players(board_lines(s), width_of(board_lines(s)))
}

/// Board text `s` is refused: a side larger than `MAX_SIDE`, a board line
/// too short for the widest one, a cell owned by a player that has no head,
/// more claimed cells than a `u16` counts, a bad metadata line, or more than four players on a board too small to
/// spread their default origins along.
pub open spec fn parse_fails(s: Seq<char>) -> bool {
    let b = board_lines(s);
    let m = b.len() as int;
    let n = width_of(b);
    let np = num_players(b, n);
    ||| m > MAX_SIDE
    ||| n > MAX_SIDE
    ||| !lines_full(b, n)
    ||| !owners_ok(flat(cells_of(b, n)), np)
    ||| filled_in(flat(cells_of(b, n))) > 65535
    ||| rest_spec(np, meta_lines(s)) is Err
    ||| (rest_spec(np, meta_lines(s)) matches Ok(r) && r.origins is None && np > 4 && m + n <= 2)
}

/// `gs` is what board text `s` describes (when it is not refused).
pub open spec fn parsed_from(gs: GameState, s: Seq<char>) -> bool {
    let b = board_lines(s);
    let m = b.len() as int;
    let n = width_of(b);
    let np = num_players(b, n);
    let cells = cells_of(b, n);
    let rest = rest_spec(np, meta_lines(s)).unwrap();
    &&& gs.field.m == m
    &&& gs.field.n == n
    &&& gs.field.cells@.len() == m
    &&& forall|i: int| 0 <= i < m ==> (#[trigger] gs.field.cells@[i])@ == cells[i]
    &&& gs.players@.len() == np
    &&& forall|k: int| 0 <= k < np ==> (#[trigger] gs.players@[k]).0@ == body_of(b, n, k)
    &&& gs.player_names@.len() == np
    &&& forall|k: int| 0 <= k < np ==> (#[trigger] gs.player_names@[k])@ == player_name_spec(k as nat)
    &&& gs.reordering@ == match rest.reordering {
        Some(r) => r,
        None => Seq::new(np as nat, |i: int| i as u8),
    }
    &&& gs.origins@ == match rest.origins {
        Some(o) => o,
        None => if np == 0 {
            Seq::empty()
        } else {
            origins_spec(m, n, Seq::new(np as nat, |i: int| i as u8))
        },
    }
    &&& match rest.stats {
        Some(st) => crate::metadata::stats_view(gs.stats) == st,
        None => {
            &&& gs.stats.iteration == 0
            &&& gs.stats.filled_count == filled_in(flat(cells))
            &&& gs.stats.head_to_head_count == 0
            &&& gs.stats.ouroboros_count == 0
            &&& gs.stats.bite_count == 0
            &&& gs.stats.scores@.len() == np
            &&& forall|k: int| 0 <= k < np ==> #[trigger] gs.stats.scores@[k] == owned_by(flat(cells), k)
        },
    }
}

fn num_players_exec(lines: &Vec<Vec<char>>, n: usize) -> (r: usize)
    requires
        n <= MAX_SIDE,
        lines@.len() <= MAX_SIDE,
        lines_full(views(lines@), n as int),
    ensures
        r == num_players(views(lines@), n as int),
        r <= 26,
        r > 0 ==> n >= 1 && lines@.len() >= 1,
{
    let mut k: usize = 26;
    while k > 0
        invariant
            n <= MAX_SIDE,
            lines@.len() <= MAX_SIDE,
            lines_full(views(lines@), n as int),
            0 <= k <= 26,
            num_players(views(lines@), n as int) == players_below(views(lines@), n as int, k as int),
        decreases k,
    {
        let h = last_mark_exec(lines, n, 'A' as u32 + (k - 1) as u32);
        if h.is_some() {
            return k;
        }
        k = k - 1;
    }
    0
}

impl GameState {
    /// Reads a game state from its text (see `parsed_from`); refused
    /// exactly when `parse_fails`.
    pub fn parse_string(str: &str) -> (r: Result<GameState, ParseError>)
        ensures
            r is Err <==> parse_fails(str@),
            r matches Ok(gs) ==> parsed_from(gs, str@),
    {
        let text = chars_of(str);
        let (board, rest) = classify_lines(&text);
        let ghost b = views(board@);
        let m = board.len();
        let n = width_exec(&board);
        if m > MAX_SIDE || n > MAX_SIDE {
            return Err(ParseError);
        }
        let mut i: usize = 0;
        while i < m
            invariant
                b == views(board@),
                b == board_lines(str@),
                n == width_of(b),
                n <= MAX_SIDE,
                m == board@.len(),
                0 <= i <= m,
                forall|t: int| 0 <= t < i ==> (#[trigger] b[t]).len() >= 2 * n,
            decreases m - i,
        {
            if board[i].len() < 2 * n {
                assert(b[i as int].len() < 2 * n);
                return Err(ParseError);
            }
            i = i + 1;
        }
        assert(lines_full(b, n as int));
        let np = num_players_exec(&board, n);
        let cells = cells_exec(&board, n);
        let ghost cs = cells_of(b, n as int);
        assert(Seq::new(cells@.len(), |i: int| cells@[i]@) =~= cs);
        let counts = count_cells(&cells, np);
        let (filled, scores) = match counts {
            None => {
                return Err(ParseError);
            },
            Some(c) => c,
        };
        let meta = parse_rest_lines(np, &rest);
        let parsed = match meta {
            Err(e) => {
                return Err(e);
            },
            Ok(p) => p,
        };
        let ghost rv = rest_spec(np as int, meta_lines(str@)).unwrap();
        assert(rest_view(parsed) == rv);
        let mut players: Vec<Player> = Vec::new();
        let mut names: Vec<String> = Vec::new();
        let mut k: usize = 0;
        while k < np
            invariant
                b == views(board@),
                m == board@.len(),
                m <= MAX_SIDE,
                np > 0 ==> 1 <= n && 1 <= m,
                n <= MAX_SIDE,
                lines_full(b, n as int),
                np == num_players(b, n as int),
                np <= 26,
                0 <= k <= np,
                players@.len() == k,
                names@.len() == k,
                forall|t: int| 0 <= t < k ==> (#[trigger] players@[t]).0@ == body_of(b, n as int, t),
                forall|t: int| 0 <= t < k ==> (#[trigger] names@[t])@ == player_name_spec(t as nat),
            decreases np - k,
        {
            let h = last_mark_exec(&board, n, 'A' as u32 + k as u32);
            let body = match h {
                Some(p) => walk_exec(&board, n, 'a' as u32 + k as u32, p),
                None => Vec::new(),
            };
            players.push(Player(body));
            names.push(player_name(k as u32));
            k = k + 1;
        }
        let reordering = match parsed.reordering {
            Some(r) => r,
            None => create_default_permutation(np),
        };
        let origins = match parsed.origins {
            Some(o) => o,
            None => {
                if np == 0 {
                    Vec::new()
                } else if np > 4 && m + n <= 2 {
                    return Err(ParseError);
                } else {
                    create_origins_n(m, n, np)
                }
            },
        };
        let stats = match parsed.stats {
            Some(st) => st,
            None => Stats {
                iteration: 0,
                filled_count: filled,
                head_to_head_count: 0,
                ouroboros_count: 0,
                bite_count: 0,
                scores,
            },
        };
        let field = Field { m, n, cells };
        let gs = GameState { field, players, player_names: names, origins, stats, reordering };
        assert(gs.reordering@ =~= match rv.reordering {
            Some(r) => r,
            None => Seq::new(np as nat, |i: int| i as u8),
        });
        Ok(gs)
    }
}

} // verus!
