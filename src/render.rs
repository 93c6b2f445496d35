//! Writing a game state in the board's text format.
use vstd::prelude::*;

use crate::model::{Cell, GameState, Player, Point};

use crate::text::{dec, player_name_spec};

verus! {

/// Relies on `FromIterator<char> for String`: the string holds the
/// characters in order.
#[verifier::external_body]
pub(crate) fn string_from_chars(chars: &Vec<char>) -> (r: String)
    ensures
        r@ == chars@,
{
    chars.iter().collect()
}

/// The character a cell is written as.
pub open spec fn cell_char(c: Cell) -> char {
    match c {
        Cell::Empty => ' ',
        Cell::Border => '*',
        Cell::Owned(d) => (d + 48) as u8 as char,
    }
}

/// The letter of player `k`: capital for the head, small for the rest.
pub open spec fn letter(k: int, head: bool) -> char {
    if head {
        (65 + k) as u8 as char
    } else {
        (97 + k) as u8 as char
    }
}

/// The mark cell `(i, j)` carries after the first `l` points of player
/// `k`'s body were written over `prev`: the last point there wins.
pub open spec fn body_mark(body: Seq<Point>, k: int, i: int, j: int, l: int, prev: char) -> char
    decreases l,
{
    if l <= 0 {
        prev
    } else if body[l - 1].0 == i && body[l - 1].1 == j {
        letter(k, l - 1 == body.len() - 1)
    } else {
        body_mark(body, k, i, j, l - 1, prev)
    }
}

/// The mark of cell `(i, j)` once the first `k` players are written.
pub open spec fn mark_of(players: Seq<Player>, k: int, i: int, j: int) -> char
    decreases k,
{
    if k <= 0 {
        '.'
    } else {
        let body = players[k - 1].0@;
        body_mark(body, k - 1, i, j, body.len() as int, mark_of(players, k - 1, i, j))
    }
}

/// The first `j` cells of row `i`, two characters each.
pub open spec fn row_prefix(gs: GameState, i: int, j: int) -> Seq<char>
    decreases j,
{
    if j <= 0 {
        Seq::empty()
    } else {
        row_prefix(gs, i, j - 1) + seq![
            cell_char(gs.field.cells@[i]@[j - 1]),
            mark_of(gs.players@, gs.players@.len() as int, i, j - 1),
        ]
    }
}

/// The first `i` rows, each ended by a newline.
pub open spec fn grid_text(gs: GameState, i: int) -> Seq<char>
    decreases i,
{
    if i <= 0 {
        Seq::empty()
    } else {
        grid_text(gs, i - 1) + row_prefix(gs, i - 1, gs.field.n as int) + seq!['\n']
    }
}

/// The decimal notation of `v`, with a minus sign when negative.
pub open spec fn sdec(v: int) -> Seq<char> {
    if v < 0 {
        seq!['-'] + dec((-v) as nat)
    } else {
        dec(v as nat)
    }
}

/// Numbers in decimal, separated by commas.
pub open spec fn join_nums(vs: Seq<int>) -> Seq<char>
    decreases vs.len(),
{
    if vs.len() == 0 {
        Seq::empty()
    } else if vs.len() == 1 {
        sdec(vs[0])
    } else {
        join_nums(vs.drop_last()) + seq![','] + sdec(vs.last())
    }
}

pub open spec fn point_text(p: Point) -> Seq<char> {
    seq!['('] + sdec(p.0 as int) + seq![','] + sdec(p.1 as int) + seq![')']
}

/// Points as `(r,c)`, separated by commas.
pub open spec fn join_points(ps: Seq<Point>) -> Seq<char>
    decreases ps.len(),
{
    if ps.len() == 0 {
        Seq::empty()
    } else if ps.len() == 1 {
        point_text(ps[0])
    } else {
        join_points(ps.drop_last()) + seq![','] + point_text(ps.last())
    }
}

pub open spec fn u8s(v: Seq<u8>) -> Seq<int> {
    Seq::new(v.len(), |i: int| v[i] as int)
}

pub open spec fn u16s(v: Seq<u16>) -> Seq<int> {
    Seq::new(v.len(), |i: int| v[i] as int)
}

/// The metadata lines: reordering, stats and origins.
pub open spec fn meta_text(gs: GameState) -> Seq<char> {
    let st = gs.stats;
    seq!['r', 'e', 'o', 'r', 'd', 'e', 'r', 'i', 'n', 'g', '=', '['] + join_nums(u8s(gs.reordering@))
        + seq![']', '\n'] + seq!['s', 't', 'a', 't', 's', '=', 'S', 't', 'a', 't', 's', '('] + join_nums(
        seq![
            st.iteration as int,
            st.filled_count as int,
            st.head_to_head_count as int,
            st.ouroboros_count as int,
            st.bite_count as int,
        ],
    ) + seq![',', '['] + join_nums(u16s(st.scores@)) + seq![']', ')', '\n'] + seq![
        'o',
        'r',
        'i',
        'g',
        'i',
        'n',
        's',
        '=',
        '[',
    ] + join_points(gs.origins@) + seq![']']
}

/// The whole text of a game state.
pub open spec fn text_of(gs: GameState) -> Seq<char> {
    grid_text(gs, gs.field.m as int) + meta_text(gs)
}

/// A game state that can be written: the cell matrix has its stated shape,
/// every owner is a single digit, there are at most 26 players, and every
/// body point is on the board.
pub open spec fn writable(gs: GameState) -> bool {
    &&& gs.field.cells@.len() == gs.field.m
    &&& forall|i: int| 0 <= i < gs.field.m ==> (#[trigger] gs.field.cells@[i])@.len() == gs.field.n
    &&& forall|i: int, j: int|
        0 <= i < gs.field.m && 0 <= j < gs.field.n ==> (#[trigger] gs.field.cells@[i]@[j] matches Cell::Owned(
            d,
        ) ==> d <= 9)
    &&& gs.players@.len() <= 26
    &&& forall|k: int, l: int|
        0 <= k < gs.players@.len() && 0 <= l < gs.players@[k].0@.len() ==> 0 <= (
        #[trigger] gs.players@[k].0@[l]).0 < gs.field.m && 0 <= gs.players@[k].0@[l].1 < gs.field.n
}

pub(crate) fn push_dec(out: &mut Vec<char>, v: u32)
    ensures
        final(out)@ == old(out)@ + dec(v as nat),
    decreases v,
{
    if v >= 10 {
        push_dec(out, v / 10);
    }
    let d = (v % 10) as u8;
    out.push((d + 48) as char);
    assert(out@ =~= old(out)@ + dec(v as nat));
}

fn push_sdec(out: &mut Vec<char>, v: i16)
    ensures
        final(out)@ == old(out)@ + sdec(v as int),
{
    if v < 0 {
        out.push('-');
        push_dec(out, (-(v as i32)) as u32);
        assert(out@ =~= old(out)@ + sdec(v as int));
    } else {
        push_dec(out, v as u32);
    }
}

fn push_chars(out: &mut Vec<char>, w: &Vec<char>)
    ensures
        final(out)@ == old(out)@ + w@,
{
    let mut i: usize = 0;
    while i < w.len()
        invariant
            0 <= i <= w@.len(),
            out@ == old(out)@ + w@.subrange(0, i as int),
        decreases w.len() - i,
    {
        out.push(w[i]);
        i = i + 1;
        assert(out@ =~= old(out)@ + w@.subrange(0, i as int));
    }
    assert(w@.subrange(0, w@.len() as int) =~= w@);
}

fn push_nums(out: &mut Vec<char>, vs: &Vec<u32>)
    requires
        forall|i: int| 0 <= i < vs@.len() ==> vs@[i] <= 65535,
    ensures
        final(out)@ == old(out)@ + join_nums(Seq::new(vs@.len(), |i: int| vs@[i] as int)),
{
    let ghost all = Seq::new(vs@.len(), |i: int| vs@[i] as int);
    let mut i: usize = 0;
    while i < vs.len()
        invariant
            all == Seq::new(vs@.len(), |i: int| vs@[i] as int),
            forall|i: int| 0 <= i < vs@.len() ==> vs@[i] <= 65535,
            0 <= i <= vs@.len(),
            out@ == old(out)@ + join_nums(all.subrange(0, i as int)),
        decreases vs.len() - i,
    {
        assert(all.subrange(0, i as int + 1).drop_last() =~= all.subrange(0, i as int));
        if i > 0 {
            out.push(',');
        }
        push_dec(out, vs[i]);
        proof {
            assert(dec(vs@[i as int] as nat) == sdec(all[i as int]));
            if i == 0 {
                assert(all.subrange(0, 1) =~= seq![all[0]]);
            }
        }
        assert(out@ =~= old(out)@ + join_nums(all.subrange(0, i as int + 1)));
        i = i + 1;
    }
    assert(all.subrange(0, vs@.len() as int) =~= all);
}

fn push_points(out: &mut Vec<char>, ps: &Vec<Point>)
    ensures
        final(out)@ == old(out)@ + join_points(ps@),
{
    let mut i: usize = 0;
    while i < ps.len()
        invariant
            0 <= i <= ps@.len(),
            out@ == old(out)@ + join_points(ps@.subrange(0, i as int)),
        decreases ps.len() - i,
    {
        assert(ps@.subrange(0, i as int + 1).drop_last() =~= ps@.subrange(0, i as int));
        if i > 0 {
            out.push(',');
        }
        let ghost mid = out@;
        let p = ps[i];
        out.push('(');
        push_sdec(out, p.0);
        out.push(',');
        push_sdec(out, p.1);
        out.push(')');
        assert(out@ =~= mid + point_text(p));
        proof {
            if i == 0 {
                assert(ps@.subrange(0, 1) =~= seq![p]);
            }
        }
        assert(out@ =~= old(out)@ + join_points(ps@.subrange(0, i as int + 1)));
        i = i + 1;
    }
    assert(ps@.subrange(0, ps@.len() as int) =~= ps@);
}

fn cell_char_exec(c: Cell) -> (r: char)
    requires
        c matches Cell::Owned(d) ==> d <= 9,
    ensures
        r == cell_char(c),
{
    match c {
        Cell::Empty => ' ',
        Cell::Border => '*',
        Cell::Owned(d) => (d + 48) as char,
    }
}

fn copy_row(row: &Vec<char>) -> (r: Vec<char>)
    ensures
        r@ == row@,
{
    let mut out: Vec<char> = Vec::new();
    let mut i: usize = 0;
    while i < row.len()
        invariant
            0 <= i <= row@.len(),
            out@ == row@.subrange(0, i as int),
        decreases row.len() - i,
    {
        out.push(row[i]);
        i = i + 1;
        assert(out@ =~= row@.subrange(0, i as int));
    }
    assert(out@ =~= row@);
    out
}

/// The marks of all cells once every body is written.
fn marks_exec(gs: &GameState) -> (r: Vec<Vec<char>>)
    requires
        writable(*gs),
    ensures
        r@.len() == gs.field.m,
        forall|i: int| 0 <= i < gs.field.m ==> (#[trigger] r@[i])@.len() == gs.field.n,
        forall|i: int, j: int|
            0 <= i < gs.field.m && 0 <= j < gs.field.n ==> #[trigger] r@[i]@[j] == mark_of(
                gs.players@,
                gs.players@.len() as int,
                i,
                j,
            ),
{
    let m = gs.field.m;
    let n = gs.field.n;
    let mut marks: Vec<Vec<char>> = Vec::new();
    let mut i: usize = 0;
    while i < m
        invariant
            m == gs.field.m,
            n == gs.field.n,
            0 <= i <= m,
            marks@.len() == i,
            forall|t: int| 0 <= t < i ==> (#[trigger] marks@[t])@.len() == n,
            forall|t: int, j: int| 0 <= t < i && 0 <= j < n ==> #[trigger] marks@[t]@[j] == '.',
        decreases m - i,
    {
        let mut row: Vec<char> = Vec::new();
        let mut j: usize = 0;
        while j < n
            invariant
                0 <= j <= n,
                row@.len() == j,
                forall|t: int| 0 <= t < j ==> row@[t] == '.',
            decreases n - j,
        {
            row.push('.');
            j = j + 1;
        }
        marks.push(row);
        i = i + 1;
    }
    let np = gs.players.len();
    let mut k: usize = 0;
    while k < np
        invariant
            writable(*gs),
            m == gs.field.m,
            n == gs.field.n,
            np == gs.players@.len(),
            0 <= k <= np,
            marks@.len() == m,
            forall|t: int| 0 <= t < m ==> (#[trigger] marks@[t])@.len() == n,
            forall|t: int, j: int|
                0 <= t < m && 0 <= j < n ==> #[trigger] marks@[t]@[j] == mark_of(gs.players@, k as int, t, j),
        decreases np - k,
    {
        let body = &gs.players[k].0;
        let mut l: usize = 0;
        while l < body.len()
            invariant
                writable(*gs),
                m == gs.field.m,
                n == gs.field.n,
                np == gs.players@.len(),
                0 <= k < np,
                *body == gs.players@[k as int].0,
                0 <= l <= body@.len(),
                marks@.len() == m,
                forall|t: int| 0 <= t < m ==> (#[trigger] marks@[t])@.len() == n,
                forall|t: int, j: int|
                    0 <= t < m && 0 <= j < n ==> #[trigger] marks@[t]@[j] == body_mark(
                        body@,
                        k as int,
                        t,
                        j,
                        l as int,
                        mark_of(gs.players@, k as int, t, j),
                    ),
            decreases body.len() - l,
        {
            let p = body[l];
            assert(0 <= gs.players@[k as int].0@[l as int].0 < m);
            let pi = p.0 as usize;
            let pj = p.1 as usize;
            let ch: char = if l == body.len() - 1 {
                (65 + k as u8) as char
            } else {
                (97 + k as u8) as char
            };
            let mut row = copy_row(&marks[pi]);
            row.set(pj, ch);
            marks.set(pi, row);
            proof {
                let b = body@;
                assert forall|t: int, j: int| 0 <= t < m && 0 <= j < n implies #[trigger] marks@[t]@[j]
                    == body_mark(b, k as int, t, j, l as int + 1, mark_of(gs.players@, k as int, t, j)) by {
                    assert(b[l as int] == p);
                }
            }
            l = l + 1;
        }
        k = k + 1;
    }
    marks
}

impl GameState {
    /// The game state in the board's text format (see `text_of`): one line
    /// per row, two characters per cell, then the metadata lines.
    pub fn to_text(&self) -> (r: String)
        requires
            writable(*self),
        ensures
            r@ == text_of(*self),
    {
        let marks = marks_exec(self);
        let m = self.field.m;
        let n = self.field.n;
        let mut out: Vec<char> = Vec::new();
        let mut i: usize = 0;
        while i < m
            invariant
                writable(*self),
                m == self.field.m,
                n == self.field.n,
                marks@.len() == m,
                forall|t: int| 0 <= t < m ==> (#[trigger] marks@[t])@.len() == n,
                forall|t: int, j: int|
                    0 <= t < m && 0 <= j < n ==> #[trigger] marks@[t]@[j] == mark_of(
                        self.players@,
                        self.players@.len() as int,
                        t,
                        j,
                    ),
                0 <= i <= m,
                out@ == grid_text(*self, i as int),
            decreases m - i,
        {
            let row = &self.field.cells[i];
            let mrow = &marks[i];
            let mut j: usize = 0;
            while j < n
                invariant
                    writable(*self),
                    m == self.field.m,
                    n == self.field.n,
                    0 <= i < m,
                    *row == self.field.cells@[i as int],
                    row@.len() == n,
                    *mrow == marks@[i as int],
                    mrow@.len() == n,
                    forall|j: int| 0 <= j < n ==> #[trigger] mrow@[j] == mark_of(
                        self.players@,
                        self.players@.len() as int,
                        i as int,
                        j,
                    ),
                    0 <= j <= n,
                    out@ == grid_text(*self, i as int) + row_prefix(*self, i as int, j as int),
                decreases n - j,
            {
                assert(row@[j as int] == self.field.cells@[i as int]@[j as int]);
                out.push(cell_char_exec(row[j]));
                out.push(mrow[j]);
                j = j + 1;
                assert(out@ =~= grid_text(*self, i as int) + row_prefix(*self, i as int, j as int));
            }
            out.push('\n');
            i = i + 1;
            assert(out@ =~= grid_text(*self, i as int));
        }
        let ghost grid = out@;
        let w_re = vec!['r', 'e', 'o', 'r', 'd', 'e', 'r', 'i', 'n', 'g', '=', '['];
        push_chars(&mut out, &w_re);
        let mut re: Vec<u32> = Vec::new();
        let mut t: usize = 0;
        while t < self.reordering.len()
            invariant
                0 <= t <= self.reordering@.len(),
                re@.len() == t,
                forall|x: int| 0 <= x < t ==> #[trigger] re@[x] == self.reordering@[x] as u32,
            decreases self.reordering.len() - t,
        {
            re.push(self.reordering[t] as u32);
            t = t + 1;
        }
        assert(Seq::new(re@.len(), |x: int| re@[x] as int) =~= u8s(self.reordering@));
        push_nums(&mut out, &re);
        let w_st = vec![']', '\n', 's', 't', 'a', 't', 's', '=', 'S', 't', 'a', 't', 's', '('];
        push_chars(&mut out, &w_st);
        let st = &self.stats;
        let head = vec![
            st.iteration as u32,
            st.filled_count as u32,
            st.head_to_head_count as u32,
            st.ouroboros_count as u32,
            st.bite_count as u32,
        ];
        assert(Seq::new(head@.len(), |x: int| head@[x] as int) =~= seq![
            st.iteration as int,
            st.filled_count as int,
            st.head_to_head_count as int,
            st.ouroboros_count as int,
            st.bite_count as int,
        ]);
        push_nums(&mut out, &head);
        let w_sc = vec![',', '['];
        push_chars(&mut out, &w_sc);
        let mut sc: Vec<u32> = Vec::new();
        let mut t: usize = 0;
        while t < st.scores.len()
            invariant
                0 <= t <= st.scores@.len(),
                sc@.len() == t,
                forall|x: int| 0 <= x < t ==> #[trigger] sc@[x] == st.scores@[x] as u32,
            decreases st.scores.len() - t,
        {
            sc.push(st.scores[t] as u32);
            t = t + 1;
        }
        assert(Seq::new(sc@.len(), |x: int| sc@[x] as int) =~= u16s(st.scores@));
        push_nums(&mut out, &sc);
        let w_or = vec![']', ')', '\n', 'o', 'r', 'i', 'g', 'i', 'n', 's', '=', '['];
        push_chars(&mut out, &w_or);
        push_points(&mut out, &self.origins);
        out.push(']');
        assert(out@ =~= grid + meta_text(*self));
        string_from_chars(&out)
    }
}

/// The name given to player `i`: `player-` and its decimal index.
pub fn player_name(i: u32) -> (r: String)
    ensures
        r@ == player_name_spec(i as nat),
{
    let mut out = vec!['p', 'l', 'a', 'y', 'e', 'r', '-'];
    push_dec(&mut out, i);
    assert(out@ =~= player_name_spec(i as nat));
    string_from_chars(&out)
}

} // verus!
