//! The metadata lines that follow a board: `reordering=[…]`,
//! `stats=Stats(…)` and `origins=[…]`.
use vstd::prelude::*;

use crate::model::{ParseError, ParseRestResult, Point, Stats};
use crate::text::{
    all_digits, chars_of, digits_end, find_char, first_from, is_digit, parse_number, parse_unsigned,
    skip_digits, split_chars, split_on, trim, trim_chars, views,
};

verus! {

/// The inner range `(start, end)` of the first `[…]` in `t` (the first `[`
/// and the first `]` after it).
pub open spec fn bracket_inner(t: Seq<char>) -> Option<(int, int)> {
    let i = first_from(t, '[', 0);
    if i >= t.len() {
        None
    } else {
        let j = first_from(t, ']', i + 1);
        if j >= t.len() {
            None
        } else {
            Some((i + 1, j))
        }
    }
}

/// Each comma-separated piece, trimmed, read as a number no larger than
/// `max`; nothing if one of them is not such a number.
pub open spec fn parse_list(pieces: Seq<Seq<char>>, max: int) -> Option<Seq<int>>
    decreases pieces.len(),
{
    if pieces.len() == 0 {
        Some(Seq::empty())
    } else {
        match (parse_list(pieces.drop_last(), max), parse_unsigned(trim(pieces.last()), max)) {
            (Some(l), Some(v)) => Some(l.push(v)),
            _ => None,
        }
    }
}

/// `count` digit runs, each followed by a comma, starting at `p`: the start
/// and end of each run, then the position after the last comma.
pub open spec fn runs_at(t: Seq<char>, p: int, count: nat) -> Option<Seq<int>>
    decreases count,
{
    if count == 0 {
        Some(seq![p])
    } else {
        let e = digits_end(t, p);
        if p < e && e < t.len() && t[e] == ',' {
            match runs_at(t, e + 1, (count - 1) as nat) {
                Some(rest) => Some(seq![p, e] + rest),
                None => None,
            }
        } else {
            None
        }
    }
}

/// A match of `d,d,d,d,d,[…]` (each `d` a digit run) starting at `k`: the
/// run bounds, then the bounds of the bracket's inside.
pub open spec fn stats_at(t: Seq<char>, k: int) -> Option<Seq<int>> {
    match runs_at(t, k, 5) {
        Some(q) => {
            let open_at = q[10];
            if 0 <= open_at < t.len() && t[open_at] == '[' {
                let j = first_from(t, ']', open_at + 1);
                if j < t.len() {
                    Some(q.update(10, open_at + 1).push(j))
                } else {
                    None
                }
            } else {
                None
            }
        },
        None => None,
    }
}

/// The leftmost match of `d,d,d,d,d,[…]` at or after `k`.
pub open spec fn stats_search(t: Seq<char>, k: int) -> Option<Seq<int>>
    decreases t.len() + 1 - k,
{
    if k < 0 || k > t.len() {
        None
    } else {
        match stats_at(t, k) {
            Some(q) => Some(q),
            None => stats_search(t, k + 1),
        }
    }
}

/// The word `Stats(`.
pub open spec fn stats_word() -> Seq<char> {
    seq!['S', 't', 'a', 't', 's', '(']
}

pub open spec fn word_at(t: Seq<char>, k: int, w: Seq<char>) -> bool {
    0 <= k && k + w.len() <= t.len() && t.subrange(k, k + w.len()) == w
}

/// The first index at or after `k` where `w` occurs, or the length of `t`.
pub open spec fn first_word(t: Seq<char>, w: Seq<char>, k: int) -> int
    decreases t.len() - k,
{
    if k >= t.len() {
        t.len() as int
    } else if word_at(t, k, w) {
        k
    } else {
        first_word(t, w, k + 1)
    }
}

/// The inner range of the first `Stats(…)` in `t`.
pub open spec fn stats_inner(t: Seq<char>) -> Option<(int, int)> {
    let k = first_word(t, stats_word(), 0);
    if k >= t.len() {
        None
    } else {
        let j = first_from(t, ')', k + 6);
        if j >= t.len() {
            None
        } else {
            Some((k + 6, j))
        }
    }
}

/// A match of `(d,d)` at `k`: the bounds of both runs.
pub open spec fn pair_at(t: Seq<char>, k: int) -> Option<(int, int, int, int)> {
    if 0 <= k < t.len() && t[k] == '(' {
        let e1 = digits_end(t, k + 1);
        if k + 1 < e1 && e1 < t.len() && t[e1] == ',' {
            let e2 = digits_end(t, e1 + 1);
            if e1 + 1 < e2 && e2 < t.len() && t[e2] == ')' {
                Some((k + 1, e1, e1 + 1, e2))
            } else {
                None
            }
        } else {
            None
        }
    } else {
        None
    }
}

/// Every match of `(d,d)` with an optional trailing comma, left to right
/// and without overlap, from `k` on.
pub open spec fn pairs_from(t: Seq<char>, k: int) -> Seq<(int, int, int, int)>
    decreases t.len() - k,
{
    if k < 0 || k >= t.len() {
        Seq::empty()
    } else {
        match pair_at(t, k) {
            Some(q) => {
                let after = q.3 + 1;
                let next = if after < t.len() && t[after] == ',' {
                    after + 1
                } else {
                    after
                };
                seq![q] + pairs_from(t, next)
            },
            None => pairs_from(t, k + 1),
        }
    }
}

/// The numbers of the matched pairs, each no larger than `i16::MAX`.
pub open spec fn pair_values(t: Seq<char>, ps: Seq<(int, int, int, int)>) -> Option<Seq<Point>>
    decreases ps.len(),
{
    if ps.len() == 0 {
        Some(Seq::empty())
    } else {
        let q = ps.last();
        match (
            pair_values(t, ps.drop_last()),
            parse_unsigned(t.subrange(q.0, q.1), 32767),
            parse_unsigned(t.subrange(q.2, q.3), 32767),
        ) {
            (Some(l), Some(a), Some(b)) => Some(l.push(Point(a as i16, b as i16))),
            _ => None,
        }
    }
}

/// The metadata gathered so far.
pub struct RestView {
    pub reordering: Option<Seq<u8>>,
    pub origins: Option<Seq<Point>>,
    pub stats: Option<(u16, u16, u16, u16, u16, Seq<u16>)>,
}

pub open spec fn stats_view(s: Stats) -> (u16, u16, u16, u16, u16, Seq<u16>) {
    (s.iteration, s.filled_count, s.head_to_head_count, s.ouroboros_count, s.bite_count, s.scores@)
}

pub open spec fn rest_view(r: ParseRestResult) -> RestView {
    RestView {
        reordering: match r.reordering {
            Some(v) => Some(v@),
            None => None,
        },
        origins: match r.origins {
            Some(v) => Some(v@),
            None => None,
        },
        stats: match r.stats {
            Some(s) => Some(stats_view(s)),
            None => None,
        },
    }
}

pub open spec fn to_u8s(l: Seq<int>) -> Seq<u8> {
    Seq::new(l.len(), |i: int| l[i] as u8)
}

pub open spec fn to_u16s(l: Seq<int>) -> Seq<u16> {
    Seq::new(l.len(), |i: int| l[i] as u16)
}

/// The value of the reordering line's right side `r` for `np` players.
pub open spec fn reordering_step(np: int, acc: RestView, r: Seq<char>) -> Result<RestView, ()> {
    match bracket_inner(r) {
        None => Ok(acc),
        Some((a, b)) => match parse_list(split_on(r.subrange(a, b), ','), 255) {
            None => Err(()),
            Some(l) => if l.len() != np || !(forall|x: int| 0 <= x < np ==> #[trigger] l.contains(x)) {
                Err(())
            } else {
                Ok(RestView { reordering: Some(to_u8s(l)), ..acc })
            },
        },
    }
}

/// The value of the stats line's right side `r` for `np` players.
pub open spec fn stats_step(np: int, acc: RestView, r: Seq<char>) -> Result<RestView, ()> {
    match stats_inner(r) {
        None => Ok(acc),
        Some((a, b)) => {
            let t = r.subrange(a, b);
            match stats_search(t, 0) {
                None => Ok(acc),
                Some(q) => {
                    let v0 = parse_unsigned(t.subrange(q[0], q[1]), 65535);
                    let v1 = parse_unsigned(t.subrange(q[2], q[3]), 65535);
                    let v2 = parse_unsigned(t.subrange(q[4], q[5]), 65535);
                    let v3 = parse_unsigned(t.subrange(q[6], q[7]), 65535);
                    let v4 = parse_unsigned(t.subrange(q[8], q[9]), 65535);
                    let sc = parse_list(split_on(t.subrange(q[10], q[11]), ','), 65535);
                    if v0 is None || v1 is None || v2 is None || v3 is None || v4 is None || sc is None {
                        Err(())
                    } else if sc.unwrap().len() != np {
                        Err(())
                    } else {
                        Ok(
                            RestView {
                                stats: Some(
                                    (
                                        v0.unwrap() as u16,
                                        v1.unwrap() as u16,
                                        v2.unwrap() as u16,
                                        v3.unwrap() as u16,
                                        v4.unwrap() as u16,
                                        to_u16s(sc.unwrap()),
                                    ),
                                ),
                                ..acc
                            },
                        )
                    }
                },
            }
        },
    }
}

/// The value of the origins line's right side `r` for `np` players.
pub open spec fn origins_step(np: int, acc: RestView, r: Seq<char>) -> Result<RestView, ()> {
    match bracket_inner(r) {
        None => Ok(acc),
        Some((a, b)) => {
            let t = r.subrange(a, b);
            match pair_values(t, pairs_from(t, 0)) {
                None => Err(()),
                Some(l) => if l.len() != np {
                    Err(())
                } else {
                    Ok(RestView { origins: Some(l), ..acc })
                },
            }
        },
    }
}

pub open spec fn reordering_word() -> Seq<char> {
    seq!['r', 'e', 'o', 'r', 'd', 'e', 'r', 'i', 'n', 'g']
}

pub open spec fn stats_key() -> Seq<char> {
    seq!['s', 't', 'a', 't', 's']
}

pub open spec fn origins_word() -> Seq<char> {
    seq!['o', 'r', 'i', 'g', 'i', 'n', 's']
}

/// One metadata line: `key=value`, trimmed on both sides of the first `=`
/// (the value ends at a second `=`); unknown keys are ignored, a line
/// without `=` is an error.
pub open spec fn line_step(np: int, acc: RestView, line: Seq<char>) -> Result<RestView, ()> {
    let pieces = split_on(line, '=');
    if pieces.len() < 2 {
        Err(())
    } else {
        let l = trim(pieces[0]);
        let r = trim(pieces[1]);
        if l == reordering_word() {
            reordering_step(np, acc, r)
        } else if l == stats_key() {
            stats_step(np, acc, r)
        } else if l == origins_word() {
            origins_step(np, acc, r)
        } else {
            Ok(acc)
        }
    }
}

/// All metadata lines in order; the first bad line makes it an error, and a
/// later line of a key replaces an earlier one.
pub open spec fn rest_spec(np: int, lines: Seq<Seq<char>>) -> Result<RestView, ()>
    decreases lines.len(),
{
    if lines.len() == 0 {
        Ok(RestView { reordering: None, origins: None, stats: None })
    } else {
        match rest_spec(np, lines.drop_last()) {
            Err(()) => Err(()),
            Ok(acc) => line_step(np, acc, lines.last()),
        }
    }
}

/// The characters `t[a..b]`.
pub fn slice_chars(t: &Vec<char>, a: usize, b: usize) -> (r: Vec<char>)
    requires
        a <= b <= t@.len(),
    ensures
        r@ == t@.subrange(a as int, b as int),
{
    let mut out: Vec<char> = Vec::new();
    let mut k: usize = a;
    while k < b
        invariant
            a <= k <= b,
            b <= t@.len(),
            out@ == t@.subrange(a as int, k as int),
        decreases b - k,
    {
        out.push(t[k]);
        k = k + 1;
        assert(out@ =~= t@.subrange(a as int, k as int));
    }
    out
}

/// Reads the comma-separated numbers of `t`, each no larger than `max`.
fn parse_list_exec(t: &Vec<char>, max: u32) -> (r: Option<Vec<u32>>)
    requires
        max <= 65535,
    ensures
        match parse_list(split_on(t@, ','), max as int) {
            None => r is None,
            Some(l) => r matches Some(v) && v@.len() == l.len() && forall|i: int|
                0 <= i < l.len() ==> v@[i] as int == #[trigger] l[i],
        },
{
    let pieces = split_chars(t, ',');
    let ghost ps = split_on(t@, ',');
    let mut out: Vec<u32> = Vec::new();
    let mut failed = false;
    let mut i: usize = 0;
    while i < pieces.len()
        invariant
            views(pieces@) == ps,
            max <= 65535,
            0 <= i <= pieces@.len(),
            failed <==> parse_list(ps.subrange(0, i as int), max as int) is None,
            !failed ==> (parse_list(ps.subrange(0, i as int), max as int) matches Some(l) && out@.len()
                == l.len() && forall|k: int| 0 <= k < l.len() ==> out@[k] as int == #[trigger] l[k]),
        decreases pieces.len() - i,
    {
        assert(ps.subrange(0, i as int + 1).drop_last() =~= ps.subrange(0, i as int));
        assert(ps.subrange(0, i as int + 1).last() == pieces@[i as int]@);
        let piece = trim_chars(&pieces[i]);
        let v = parse_number(&piece, 0, piece.len(), max);
        assert(piece@.subrange(0, piece@.len() as int) =~= piece@);
        match v {
            None => {
                failed = true;
            },
            Some(x) => {
                if !failed {
                    let ghost l = parse_list(ps.subrange(0, i as int), max as int).unwrap();
                    let ghost pv = parse_unsigned(trim(ps.subrange(0, i as int + 1).last()), max as int);
                    assert(pv == Some(x as int));
                    out.push(x);
                    assert(parse_list(ps.subrange(0, i as int + 1), max as int) == Some(l.push(x as int)));
                    assert forall|k: int| 0 <= k < l.len() + 1 implies out@[k] as int == #[trigger] l.push(x as int)[k] by {
                        if k < l.len() {
                            assert(out@[k] == out@[k]);
                        }
                    }
                }
            },
        }
        i = i + 1;
    }
    assert(ps.subrange(0, pieces@.len() as int) =~= ps);
    if failed {
        None
    } else {
        Some(out)
    }
}

fn bracket_inner_exec(t: &Vec<char>) -> (r: Option<(usize, usize)>)
    ensures
        r is None <==> bracket_inner(t@) is None,
        r matches Some((a, b)) ==> bracket_inner(t@) == Some((a as int, b as int)) && a <= b
            < t@.len(),
{
    let i = find_char(t, '[', 0);
    if i >= t.len() {
        return None;
    }
    let j = find_char(t, ']', i + 1);
    if j >= t.len() {
        return None;
    }
    Some((i + 1, j))
}

fn word_at_exec(t: &Vec<char>, k: usize, w: &Vec<char>) -> (r: bool)
    requires
        k <= t@.len(),
    ensures
        r == word_at(t@, k as int, w@),
{
    let tl = t.len();
    if w.len() > tl - k {
        return false;
    }
    let mut i: usize = 0;
    while i < w.len()
        invariant
            tl == t@.len(),
            k + w@.len() <= tl,
            0 <= i <= w@.len(),
            forall|x: int| 0 <= x < i ==> t@[k + x] == w@[x],
        decreases w.len() - i,
    {
        if t[k + i] != w[i] {
            assert(t@.subrange(k as int, k + w@.len())[i as int] != w@[i as int]);
            return false;
        }
        i = i + 1;
    }
    assert(t@.subrange(k as int, k + w@.len()) =~= w@);
    true
}

fn stats_inner_exec(t: &Vec<char>) -> (r: Option<(usize, usize)>)
    ensures
        r is None <==> stats_inner(t@) is None,
        r matches Some((a, b)) ==> stats_inner(t@) == Some((a as int, b as int)) && a <= b
            < t@.len(),
{
    let w = vec!['S', 't', 'a', 't', 's', '('];
    assert(w@ =~= stats_word());
    let mut k: usize = 0;
    while k < t.len() && !word_at_exec(t, k, &w)
        invariant
            0 <= k <= t@.len(),
            w@ == stats_word(),
            first_word(t@, stats_word(), 0) == first_word(t@, stats_word(), k as int),
        decreases t.len() - k,
    {
        k = k + 1;
    }
    if k >= t.len() {
        return None;
    }
    let j = find_char(t, ')', k + 6);
    if j >= t.len() {
        return None;
    }
    Some((k + 6, j))
}

proof fn lemma_runs_shape(t: Seq<char>, p: int, count: nat)
    requires
        0 <= p <= t.len(),
    ensures
        runs_at(t, p, count) matches Some(q) ==> q.len() == 2 * count + 1 && (forall|i: int|
            0 <= i < count ==> #[trigger] q[2 * i] < q[2 * i + 1]) && (forall|i: int|
            0 <= i < q.len() ==> p <= #[trigger] q[i] <= t.len()),
    decreases count,
{
    if count > 0 {
        let e = digits_end(t, p);
        lemma_digits_end_bound(t, p);
        if p < e && e < t.len() && t[e] == ',' {
            lemma_runs_shape(t, e + 1, (count - 1) as nat);
            if let Some(rest) = runs_at(t, e + 1, (count - 1) as nat) {
                let q = seq![p, e] + rest;
                assert forall|i: int| 0 <= i < count implies #[trigger] q[2 * i] < q[2 * i + 1] by {
                    if i > 0 {
                        assert(q[2 * i] == rest[2 * (i - 1)]);
                        assert(q[2 * i + 1] == rest[2 * (i - 1) + 1]);
                    }
                }
                assert forall|i: int| 0 <= i < q.len() implies p <= #[trigger] q[i] <= t.len() by {
                    if i >= 2 {
                        assert(q[i] == rest[i - 2]);
                    }
                }
            }
        }
    }
}

proof fn lemma_digits_end_bound(t: Seq<char>, p: int)
    requires
        0 <= p <= t.len(),
    ensures
        p <= digits_end(t, p) <= t.len(),
    decreases t.len() - p,
{
    if p < t.len() && is_digit(t[p]) {
        lemma_digits_end_bound(t, p + 1);
    }
}

fn runs_exec(t: &Vec<char>, p: usize, count: usize) -> (r: Option<Vec<usize>>)
    requires
        p <= t@.len(),
    ensures
        match runs_at(t@, p as int, count as nat) {
            None => r is None,
            Some(q) => r matches Some(v) && v@.len() == q.len() && q.len() == 2 * count + 1 && (forall|i: int|
                0 <= i < q.len() ==> v@[i] as int == #[trigger] q[i] && q[i] <= t@.len()),
        },
    decreases count,
{
    if count == 0 {
        let mut v: Vec<usize> = Vec::new();
        v.push(p);
        return Some(v);
    }
    let e = skip_digits(t, p);
    if p < e && e < t.len() && t[e] == ',' {
        match runs_exec(t, e + 1, count - 1) {
            Some(rest) => {
                let mut v: Vec<usize> = Vec::new();
                v.push(p);
                v.push(e);
                let mut i: usize = 0;
                let ghost q = runs_at(t@, e + 1, (count - 1) as nat).unwrap();
                while i < rest.len()
                    invariant
                        v@.len() == 2 + i,
                        v@[0] == p,
                        v@[1] == e,
                        rest@.len() == q.len(),
                        0 <= i <= rest@.len(),
                        forall|x: int| 0 <= x < i ==> v@[2 + x] == rest@[x],
                    decreases rest.len() - i,
                {
                    v.push(rest[i]);
                    i = i + 1;
                }
                proof {
                    let full = seq![p as int, e as int] + q;
                    assert forall|x: int| 0 <= x < full.len() implies v@[x] as int == #[trigger] full[x] && full[x] <= t@.len() by {
                        if x >= 2 {
                            assert(full[x] == q[x - 2]);
                        }
                    }
                }
                Some(v)
            },
            None => None,
        }
    } else {
        None
    }
}

fn stats_at_exec(t: &Vec<char>, k: usize) -> (r: Option<Vec<usize>>)
    requires
        k <= t@.len(),
    ensures
        match stats_at(t@, k as int) {
            None => r is None,
            Some(q) => r matches Some(v) && v@.len() == 12 && q.len() == 12 && (forall|i: int|
                0 <= i < 12 ==> v@[i] as int == #[trigger] q[i]) && q[0] <= q[1] && q[2] <= q[3]
                && q[4] <= q[5] && q[6] <= q[7] && q[8] <= q[9] && q[10] <= q[11] && q[11] < t@.len()
                && (forall|i: int| 0 <= i < 12 ==> #[trigger] q[i] <= t@.len()),
        },
{
    match runs_exec(t, k, 5) {
        None => None,
        Some(v) => {
            let ghost q = runs_at(t@, k as int, 5).unwrap();
            proof {
                lemma_runs_shape(t@, k as int, 5);
                assert(q[0] < q[1] && q[2] < q[3] && q[4] < q[5] && q[6] < q[7] && q[8] < q[9]) by {
                    assert(q[2 * 0int] < q[2 * 0int + 1]);
                    assert(q[2 * 1int] < q[2 * 1int + 1]);
                    assert(q[2 * 2int] < q[2 * 2int + 1]);
                    assert(q[2 * 3int] < q[2 * 3int + 1]);
                    assert(q[2 * 4int] < q[2 * 4int + 1]);
                }
            }
            let open_at = v[10];
            if open_at < t.len() && t[open_at] == '[' {
                let j = find_char(t, ']', open_at + 1);
                if j < t.len() {
                    let mut w = v;
                    w.set(10, open_at + 1);
                    w.push(j);
                    Some(w)
                } else {
                    None
                }
            } else {
                None
            }
        },
    }
}

fn stats_search_exec(t: &Vec<char>) -> (r: Option<Vec<usize>>)
    ensures
        match stats_search(t@, 0) {
            None => r is None,
            Some(q) => r matches Some(v) && v@.len() == 12 && q.len() == 12 && (forall|i: int|
                0 <= i < 12 ==> v@[i] as int == #[trigger] q[i]) && q[0] <= q[1] && q[2] <= q[3]
                && q[4] <= q[5] && q[6] <= q[7] && q[8] <= q[9] && q[10] <= q[11] && q[11] < t@.len()
                && (forall|i: int| 0 <= i < 12 ==> #[trigger] q[i] <= t@.len()),
        },
{
    let mut k: usize = 0;
    while k < t.len()
        invariant
            0 <= k <= t@.len(),
            stats_search(t@, 0) == stats_search(t@, k as int),
        decreases t.len() - k,
    {
        match stats_at_exec(t, k) {
            Some(v) => {
                return Some(v);
            },
            None => {},
        }
        k = k + 1;
    }
    let r = stats_at_exec(t, k);
    assert(stats_search(t@, k + 1) is None);
    r
}

fn pair_at_exec(t: &Vec<char>, k: usize) -> (r: Option<(usize, usize, usize, usize)>)
    requires
        k <= t@.len(),
    ensures
        r is None <==> pair_at(t@, k as int) is None,
        r matches Some((a, b, c, d)) ==> pair_at(t@, k as int) == Some(
            (a as int, b as int, c as int, d as int),
        ) && k < a <= b < c <= d < t@.len(),
{
    if k < t.len() && t[k] == '(' {
        let e1 = skip_digits(t, k + 1);
        if k + 1 < e1 && e1 < t.len() && t[e1] == ',' {
            let e2 = skip_digits(t, e1 + 1);
            if e1 + 1 < e2 && e2 < t.len() && t[e2] == ')' {
                return Some((k + 1, e1, e1 + 1, e2));
            }
        }
    }
    None
}

fn origins_exec(t: &Vec<char>) -> (r: Option<Vec<Point>>)
    ensures
        match pair_values(t@, pairs_from(t@, 0)) {
            None => r is None,
            Some(l) => r matches Some(v) && v@ == l,
        },
{
    let ghost mut found: Seq<(int, int, int, int)> = Seq::empty();
    let mut out: Vec<Point> = Vec::new();
    let mut failed = false;
    let mut k: usize = 0;
    while k < t.len()
        invariant
            0 <= k <= t@.len(),
            pairs_from(t@, 0) == found + pairs_from(t@, k as int),
            failed <==> pair_values(t@, found) is None,
            !failed ==> pair_values(t@, found) == Some(out@),
        decreases t.len() - k,
    {
        match pair_at_exec(t, k) {
            None => {
                k = k + 1;
            },
            Some((a, b, c, d)) => {
                let x = parse_number(t, a, b, 32767);
                let y = parse_number(t, c, d, 32767);
                let ghost q = (a as int, b as int, c as int, d as int);
                proof {
                    assert((found.push(q)).drop_last() =~= found);
                }
                match (x, y) {
                    (Some(x), Some(y)) => {
                        if !failed {
                            out.push(Point(x as i16, y as i16));
                        }
                    },
                    _ => {
                        failed = true;
                    },
                }
                let after = d + 1;
                let next = if after < t.len() && t[after] == ',' {
                    after + 1
                } else {
                    after
                };
                proof {
                    assert(pairs_from(t@, k as int) == seq![q] + pairs_from(t@, next as int));
                    assert(found + (seq![q] + pairs_from(t@, next as int)) =~= found.push(q) + pairs_from(t@, next as int));
                    found = found.push(q);
                }
                k = next;
            },
        }
    }
    assert(found + pairs_from(t@, k as int) =~= found);
    if failed {
        None
    } else {
        Some(out)
    }
}

pub open spec fn ok_view(res: Result<ParseRestResult, ParseError>, expect: Result<RestView, ()>) -> bool {
    match expect {
        Ok(v) => res matches Ok(a) && rest_view(a) == v,
        Err(_) => res is Err,
    }
}

fn reordering_exec(np: usize, acc: ParseRestResult, r: &Vec<char>) -> (res: Result<ParseRestResult, ParseError>)
    requires
        np < 256,
    ensures
        ok_view(res, reordering_step(np as int, rest_view(acc), r@)),
{
    match bracket_inner_exec(r) {
        None => Ok(acc),
        Some((a, b)) => {
            let inner = slice_chars(r, a, b);
            match parse_list_exec(&inner, 255) {
                None => Err(ParseError),
                Some(list) => {
                    let ghost l = parse_list(split_on(r@.subrange(a as int, b as int), ','), 255).unwrap();
                    if list.len() != np {
                        return Err(ParseError);
                    }
                    let mut x: usize = 0;
                    while x < np
                        invariant
                            np < 256,
                            bracket_inner(r@) == Some((a as int, b as int)),
                            parse_list(split_on(r@.subrange(a as int, b as int), ','), 255) == Some(l),
                            list@.len() == l.len() == np,
                            forall|i: int| 0 <= i < l.len() ==> list@[i] as int == #[trigger] l[i],
                            0 <= x <= np,
                            forall|y: int| 0 <= y < x ==> #[trigger] l.contains(y),
                        decreases np - x,
                    {
                        let mut j: usize = 0;
                        let mut found = false;
                        while j < list.len()
                            invariant
                                bracket_inner(r@) == Some((a as int, b as int)),
                                parse_list(split_on(r@.subrange(a as int, b as int), ','), 255) == Some(l),
                                list@.len() == l.len() == np,
                                0 <= x < np,
                                forall|i: int| 0 <= i < l.len() ==> list@[i] as int == #[trigger] l[i],
                                0 <= j <= list@.len(),
                                found ==> l.contains(x as int),
                                !found ==> forall|i: int| 0 <= i < j ==> l[i] != x as int,
                            decreases list.len() - j,
                        {
                            if list[j] as usize == x {
                                found = true;
                                assert(l[j as int] == x as int);
                            }
                            j = j + 1;
                        }
                        if !found {
                            proof {
                                assert(j == l.len());
                                assert(!l.contains(x as int)) by {
                                    if l.contains(x as int) {
                                        let i = choose|i: int| 0 <= i < l.len() && l[i] == x as int;
                                        assert(l[i] != x as int);
                                    }
                                }
                                assert(!(forall|y: int| 0 <= y < np ==> #[trigger] l.contains(y)));
                            }
                            return Err(ParseError);
                        }
                        x = x + 1;
                    }
                    let mut perm: Vec<u8> = Vec::new();
                    let mut i: usize = 0;
                    while i < list.len()
                        invariant
                            bracket_inner(r@) == Some((a as int, b as int)),
                            parse_list(split_on(r@.subrange(a as int, b as int), ','), 255) == Some(l),
                            list@.len() == l.len() == np,
                            forall|y: int| 0 <= y < np ==> #[trigger] l.contains(y),
                            forall|t: int| 0 <= t < l.len() ==> list@[t] as int == #[trigger] l[t],
                            0 <= i <= list@.len(),
                            perm@ =~= to_u8s(l).subrange(0, i as int),
                        decreases list.len() - i,
                    {
                        perm.push(list[i] as u8);
                        i = i + 1;
                    }
                    assert(perm@ =~= to_u8s(l));
                    Ok(ParseRestResult { reordering: Some(perm), ..acc })
                },
            }
        },
    }
}

fn stats_exec(np: usize, acc: ParseRestResult, r: &Vec<char>) -> (res: Result<ParseRestResult, ParseError>)
    ensures
        ok_view(res, stats_step(np as int, rest_view(acc), r@)),
{
    match stats_inner_exec(r) {
        None => Ok(acc),
        Some((a, b)) => {
            let t = slice_chars(r, a, b);
            match stats_search_exec(&t) {
                None => Ok(acc),
                Some(q) => {
                    let ghost qs = stats_search(t@, 0).unwrap();
                    assert(q[9] as int == qs[9] && qs[9] <= t@.len());
                    assert(q[7] as int == qs[7] && qs[7] <= t@.len());
                    assert(q[5] as int == qs[5] && qs[5] <= t@.len());
                    assert(q[3] as int == qs[3] && qs[3] <= t@.len());
                    assert(q[1] as int == qs[1] && qs[1] <= t@.len());
                    assert(q[0] as int == qs[0] && q[2] as int == qs[2] && q[4] as int == qs[4]);
                    assert(q[6] as int == qs[6] && q[8] as int == qs[8] && q[10] as int == qs[10]);
                    assert(q[11] as int == qs[11]);
                    let v0 = parse_number(&t, q[0], q[1], 65535);
                    let v1 = parse_number(&t, q[2], q[3], 65535);
                    let v2 = parse_number(&t, q[4], q[5], 65535);
                    let v3 = parse_number(&t, q[6], q[7], 65535);
                    let v4 = parse_number(&t, q[8], q[9], 65535);
                    let inner = slice_chars(&t, q[10], q[11]);
                    let sc = parse_list_exec(&inner, 65535);
                    match (v0, v1, v2, v3, v4, sc) {
                        (Some(v0), Some(v1), Some(v2), Some(v3), Some(v4), Some(sc)) => {
                            let ghost l = parse_list(split_on(t@.subrange(qs[10], qs[11]), ','), 65535).unwrap();
                            if sc.len() != np {
                                return Err(ParseError);
                            }
                            let mut scores: Vec<u16> = Vec::new();
                            let mut i: usize = 0;
                            while i < sc.len()
                                invariant
                                    sc@.len() == l.len(),
                                    forall|k: int| 0 <= k < l.len() ==> sc@[k] as int == #[trigger] l[k],
                                    0 <= i <= sc@.len(),
                                    scores@ =~= to_u16s(l).subrange(0, i as int),
                                decreases sc.len() - i,
                            {
                                #[verifier::truncate]
                                let x = sc[i] as u16;
                                scores.push(x);
                                i = i + 1;
                            }
                            assert(scores@ =~= to_u16s(l));
                            let st = Stats {
                                iteration: v0 as u16,
                                filled_count: v1 as u16,
                                head_to_head_count: v2 as u16,
                                ouroboros_count: v3 as u16,
                                bite_count: v4 as u16,
                                scores,
                            };
                            Ok(ParseRestResult { stats: Some(st), ..acc })
                        },
                        _ => Err(ParseError),
                    }
                },
            }
        },
    }
}

fn origins_line_exec(np: usize, acc: ParseRestResult, r: &Vec<char>) -> (res: Result<ParseRestResult, ParseError>)
    ensures
        ok_view(res, origins_step(np as int, rest_view(acc), r@)),
{
    match bracket_inner_exec(r) {
        None => Ok(acc),
        Some((a, b)) => {
            let t = slice_chars(r, a, b);
            match origins_exec(&t) {
                None => Err(ParseError),
                Some(list) => {
                    if list.len() != np {
                        Err(ParseError)
                    } else {
                        Ok(ParseRestResult { origins: Some(list), ..acc })
                    }
                },
            }
        },
    }
}

fn chars_eq(a: &Vec<char>, b: &Vec<char>) -> (r: bool)
    ensures
        r == (a@ == b@),
{
    if a.len() != b.len() {
        return false;
    }
    let mut i: usize = 0;
    while i < a.len()
        invariant
            a@.len() == b@.len(),
            0 <= i <= a@.len(),
            forall|k: int| 0 <= k < i ==> a@[k] == b@[k],
        decreases a.len() - i,
    {
        if a[i] != b[i] {
            return false;
        }
        i = i + 1;
    }
    assert(a@ =~= b@);
    true
}

fn line_exec(np: usize, acc: ParseRestResult, line: &Vec<char>) -> (res: Result<ParseRestResult, ParseError>)
    requires
        np < 256,
    ensures
        ok_view(res, line_step(np as int, rest_view(acc), line@)),
{
    let pieces = split_chars(line, '=');
    if pieces.len() < 2 {
        return Err(ParseError);
    }
    assert(views(pieces@)[0] == pieces@[0]@ && views(pieces@)[1] == pieces@[1]@);
    let l = trim_chars(&pieces[0]);
    let r = trim_chars(&pieces[1]);
    let w_reordering = vec!['r', 'e', 'o', 'r', 'd', 'e', 'r', 'i', 'n', 'g'];
    let w_stats = vec!['s', 't', 'a', 't', 's'];
    let w_origins = vec!['o', 'r', 'i', 'g', 'i', 'n', 's'];
    assert(w_reordering@ =~= reordering_word());
    assert(w_stats@ =~= stats_key());
    assert(w_origins@ =~= origins_word());
    if chars_eq(&l, &w_reordering) {
        reordering_exec(np, acc, &r)
    } else if chars_eq(&l, &w_stats) {
        stats_exec(np, acc, &r)
    } else if chars_eq(&l, &w_origins) {
        origins_line_exec(np, acc, &r)
    } else {
        Ok(acc)
    }
}

/// The views of the metadata lines.
pub open spec fn str_views(v: Seq<&str>) -> Seq<Seq<char>> {
    Seq::new(v.len(), |i: int| v[i]@)
}

proof fn lemma_rest_err_stays(np: int, lines: Seq<Seq<char>>, i: int)
    requires
        0 <= i <= lines.len(),
        rest_spec(np, lines.subrange(0, i)) is Err,
    ensures
        rest_spec(np, lines) is Err,
    decreases lines.len() - i,
{
    if i < lines.len() {
        assert(lines.subrange(0, i + 1).drop_last() =~= lines.subrange(0, i));
        lemma_rest_err_stays(np, lines, i + 1);
    } else {
        assert(lines.subrange(0, i) =~= lines);
    }
}

/// Reads metadata lines given as characters (see `rest_spec`).
pub fn parse_rest_lines(np: usize, rest: &Vec<Vec<char>>) -> (res: Result<ParseRestResult, ParseError>)
    requires
        np < 256,
    ensures
        ok_view(res, rest_spec(np as int, views(rest@))),
{
    let ghost lines = views(rest@);
    let mut acc = ParseRestResult { reordering: None, origins: None, stats: None };
    let mut i: usize = 0;
    assert(lines.subrange(0, 0) =~= Seq::<Seq<char>>::empty());
    while i < rest.len()
        invariant
            np < 256,
            lines == views(rest@),
            0 <= i <= rest@.len(),
            rest_spec(np as int, lines.subrange(0, i as int)) == Ok::<RestView, ()>(rest_view(acc)),
        decreases rest.len() - i,
    {
        assert(lines.subrange(0, i as int + 1).drop_last() =~= lines.subrange(0, i as int));
        assert(lines[i as int] == rest@[i as int]@);
        match line_exec(np, acc, &rest[i]) {
            Ok(a) => {
                acc = a;
            },
            Err(e) => {
                proof {
                    lemma_rest_err_stays(np as int, lines, i as int + 1);
                }
                return Err(e);
            },
        }
        i = i + 1;
    }
    assert(lines.subrange(0, rest@.len() as int) =~= lines);
    Ok(acc)
}

impl crate::model::GameState {
    /// Reads the metadata lines that follow a board of `np` players (see
    /// `rest_spec`).
    pub fn parse_string_rest(np: usize, rest: &Vec<&str>) -> (res: Result<ParseRestResult, ParseError>)
        requires
            np < 256,
        ensures
            ok_view(res, rest_spec(np as int, str_views(rest@))),
    {
        let mut lines: Vec<Vec<char>> = Vec::new();
        let mut i: usize = 0;
        while i < rest.len()
            invariant
                0 <= i <= rest@.len(),
                views(lines@) =~= str_views(rest@).subrange(0, i as int),
            decreases rest.len() - i,
        {
            let line = chars_of(rest[i]);
            let ghost before = lines@;
            lines.push(line);
            assert(views(lines@) =~= views(before).push(line@));
            i = i + 1;
        }
        assert(views(lines@) =~= str_views(rest@));
        parse_rest_lines(np, &lines)
    }
}

} // verus!
