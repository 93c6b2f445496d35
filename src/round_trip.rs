//! Laws relating the text a game state is written as to what reading it
//! gives back.
use vstd::prelude::*;

use crate::metadata::{
    first_word, line_step, origins_word, pair_at, pair_values, pairs_from, parse_list,
    reordering_word, runs_at, stats_at, stats_key, stats_inner, stats_search, stats_view,
    stats_word, to_u16s, word_at, RestView,
};
use crate::board::{lines_of_kind, meta_lines};
use crate::board::{
    board_lines, body_of, cell_of_char, cells_of, flat, filled_in, head_of, last_in_row, last_mark,
    lines_full, mark_at, num_players, owners_ok, parse_fails, parsed_from, players_below, walk,
    width_of,
};
use crate::metadata::rest_spec;
use crate::model::{is_permutation, GameState, Point, Stats};
use crate::render::{
    body_mark, cell_char, grid_text, join_nums, join_points, letter, mark_of, meta_text, point_text,
    row_prefix, sdec, text_of, u16s, u8s, writable,
};
use crate::model::{Cell, Player};
use crate::text::{
    dec, digits_end, first_from, is_digit, is_ws, lemma_dec_round_trip, lemma_dec_shape,
    parse_unsigned, split_on, trim, trim_end, trim_start,
};

verus! {

proof fn lemma_split_word(x: Seq<char>, b: Seq<char>, sep: char)
    requires
        forall|i: int| 0 <= i < b.len() ==> b[i] != sep,
    ensures
        split_on(x + b, sep) == split_on(x, sep).update(
            split_on(x, sep).len() - 1,
            split_on(x, sep).last() + b,
        ),
        split_on(x, sep).len() >= 1,
    decreases b.len(),
{
    crate::text::lemma_split_nonempty(x, sep);
    if b.len() == 0 {
        assert(x + b =~= x);
        assert(split_on(x, sep).last() + b =~= split_on(x, sep).last());
        assert(split_on(x, sep).update(split_on(x, sep).len() - 1, split_on(x, sep).last()) =~= split_on(x, sep));
    } else {
        lemma_split_word(x, b.drop_last(), sep);
        assert((x + b).drop_last() =~= x + b.drop_last());
        assert((x + b).last() == b.last());
        let pre = split_on(x + b.drop_last(), sep);
        let xs = split_on(x, sep);
        assert(b[b.len() - 1] != sep);
        assert(pre.len() == xs.len());
        assert(pre.last() == xs.last() + b.drop_last());
        assert(split_on(x + b, sep) == pre.update(pre.len() - 1, pre.last().push(b.last())));
        assert((xs.last() + b.drop_last()).push(b.last()) =~= xs.last() + b);
        assert(split_on(x + b, sep) =~= split_on(x, sep).update(
            split_on(x, sep).len() - 1,
            split_on(x, sep).last() + b,
        ));
    }
}

proof fn lemma_split_joined(vs: Seq<int>)
    requires
        vs.len() > 0,
        forall|i: int| 0 <= i < vs.len() ==> 0 <= #[trigger] vs[i],
    ensures
        split_on(join_nums(vs), ',') == Seq::new(vs.len(), |i: int| dec(vs[i] as nat)),
    decreases vs.len(),
{
    let last = dec(vs.last() as nat);
    lemma_dec_shape(vs.last() as nat);
    if vs.len() == 1 {
        lemma_split_word(Seq::empty(), last, ',');
        assert(Seq::<char>::empty() + last =~= last);
        assert(split_on(Seq::<char>::empty(), ',') =~= seq![Seq::<char>::empty()]);
        assert(Seq::<char>::empty() + last =~= last);
        assert(split_on(join_nums(vs), ',') =~= Seq::new(vs.len(), |i: int| dec(vs[i] as nat)));
    } else {
        let dl = vs.drop_last();
        lemma_split_joined(dl);
        let head = join_nums(dl) + seq![','];
        assert(head.drop_last() =~= join_nums(dl));
        assert(split_on(head, ',') == split_on(join_nums(dl), ',').push(Seq::empty()));
        lemma_split_word(head, last, ',');
        assert(join_nums(vs) =~= head + last);
        assert(Seq::<char>::empty() + last =~= last);
        assert(split_on(join_nums(vs), ',') =~= Seq::new(vs.len(), |i: int| dec(vs[i] as nat)));
    }
}

proof fn lemma_parse_decs(vs: Seq<int>, max: int)
    requires
        forall|i: int| 0 <= i < vs.len() ==> 0 <= #[trigger] vs[i] <= max,
    ensures
        parse_list(Seq::new(vs.len(), |i: int| dec(vs[i] as nat)), max) == Some(vs),
    decreases vs.len(),
{
    let ps = Seq::new(vs.len(), |i: int| dec(vs[i] as nat));
    if vs.len() > 0 {
        let dl = vs.drop_last();
        lemma_parse_decs(dl, max);
        assert(ps.drop_last() =~= Seq::new(dl.len(), |i: int| dec(dl[i] as nat)));
        lemma_dec_shape(vs.last() as nat);
        lemma_dec_round_trip(vs.last() as nat, max);
        assert(ps.last() == dec(vs.last() as nat));
        assert(dl.push(vs.last()) =~= vs);
    } else {
        assert(vs =~= Seq::<int>::empty());
    }
}

/// A non-empty list of numbers written with commas reads back as the same
/// list, each number no larger than `max`.
pub proof fn lemma_number_list_round_trip(vs: Seq<int>, max: int)
    requires
        vs.len() > 0,
        forall|i: int| 0 <= i < vs.len() ==> 0 <= #[trigger] vs[i] <= max,
    ensures
        parse_list(split_on(join_nums(vs), ','), max) == Some(vs),
{
    lemma_split_joined(vs);
    lemma_parse_decs(vs, max);
}

proof fn lemma_join_chars(vs: Seq<int>)
    requires
        forall|i: int| 0 <= i < vs.len() ==> 0 <= #[trigger] vs[i],
    ensures
        forall|i: int| 0 <= i < join_nums(vs).len() ==> is_digit(#[trigger] join_nums(vs)[i]) || join_nums(vs)[i] == ',',
    decreases vs.len(),
{
    if vs.len() > 0 {
        lemma_join_chars(vs.drop_last());
        lemma_dec_shape(vs.last() as nat);
        if vs.len() == 1 {
            lemma_dec_shape(vs[0] as nat);
        }
        let j = join_nums(vs);
        assert forall|i: int| 0 <= i < j.len() implies is_digit(#[trigger] j[i]) || j[i] == ',' by {
            if vs.len() > 1 {
                let a = join_nums(vs.drop_last());
                if i < a.len() {
                    assert(j[i] == a[i]);
                } else if i > a.len() {
                    assert(j[i] == dec(vs.last() as nat)[i - a.len() - 1]);
                }
            }
        }
    }
}

proof fn lemma_first_at(s: Seq<char>, c: char, from: int, k: int)
    requires
        0 <= from <= k < s.len(),
        s[k] == c,
        forall|i: int| from <= i < k ==> s[i] != c,
    ensures
        first_from(s, c, from) == k,
    decreases k - from,
{
    if from < k {
        lemma_first_at(s, c, from + 1, k);
    }
}

proof fn lemma_trim_keeps(s: Seq<char>)
    requires
        s.len() > 0,
        !is_ws(s[0]),
        !is_ws(s.last()),
    ensures
        trim(s) == s,
{
}

/// The reordering line of the text: `reordering=[c0,c1,…]`.
pub open spec fn reordering_line(perm: Seq<u8>) -> Seq<char> {
    reordering_word() + seq!['=', '['] + join_nums(u8s(perm)) + seq![']']
}

/// The reordering line written for a permutation of `np` players (at least
/// one, fewer than 256) reads back as the same permutation, whatever was
/// read before it.
#[verifier::spinoff_prover]
pub proof fn lemma_reordering_line_round_trip(np: int, acc: RestView, perm: Seq<u8>)
    requires
        0 < perm.len() == np < 256,
        is_permutation(perm),
    ensures
        line_step(np, acc, reordering_line(perm)) == Ok::<RestView, ()>(
            RestView { reordering: Some(perm), ..acc },
        ),
{
    let vs = u8s(perm);
    let j = join_nums(vs);
    let w = reordering_word();
    let rest = seq!['['] + j + seq![']'];
    let line = reordering_line(perm);
    lemma_join_chars(vs);
    assert forall|i: int| 0 <= i < rest.len() implies rest[i] != '=' by {
        if 0 < i < rest.len() - 1 {
            assert(rest[i] == j[i - 1]);
        }
    }
    assert forall|i: int| 0 <= i < w.len() implies w[i] != '=' by {}
    // the line splits at its one `=`
    lemma_split_word(Seq::empty(), w, '=');
    assert(Seq::<char>::empty() + w =~= w);
    assert(split_on(Seq::<char>::empty(), '=') =~= seq![Seq::<char>::empty()]);
    assert(split_on(w, '=') =~= seq![w]);
    let we = w.push('=');
    assert(we.drop_last() =~= w);
    assert(split_on(we, '=') == seq![w].push(Seq::<char>::empty()));
    lemma_split_word(we, rest, '=');
    assert(line =~= we + rest);
    assert(Seq::<char>::empty() + rest =~= rest);
    assert(split_on(line, '=') =~= seq![w, rest]);
    lemma_trim_keeps(w);
    lemma_trim_keeps(rest);
    // the brackets enclose the list
    assert forall|i: int| 1 <= i < rest.len() - 1 implies rest[i] != ']' by {
        assert(rest[i] == j[i - 1]);
        assert(is_digit(j[i - 1]) || j[i - 1] == ',');
    }
    lemma_first_at(rest, '[', 0, 0);
    lemma_first_at(rest, ']', 1, rest.len() - 1);
    assert(rest.subrange(1, rest.len() - 1) =~= j);
    assert forall|i: int| 0 <= i < vs.len() implies 0 <= #[trigger] vs[i] <= 255 by {}
    lemma_number_list_round_trip(vs, 255);
    assert forall|x: int| 0 <= x < np implies #[trigger] vs.contains(x) by {
        assert(perm.contains(x as u8));
        let i = choose|i: int| 0 <= i < perm.len() && perm[i] == x as u8;
        assert(vs[i] == x);
    }
    assert(crate::metadata::to_u8s(vs) =~= perm);
}

proof fn lemma_digits_run(s: Seq<char>, k: int, e: int)
    requires
        0 <= k <= e <= s.len(),
        forall|i: int| k <= i < e ==> is_digit(#[trigger] s[i]),
        e == s.len() || !is_digit(s[e]),
    ensures
        digits_end(s, k) == e,
    decreases e - k,
{
    if k < e {
        lemma_digits_run(s, k + 1, e);
    }
}

/// Coordinates that are written without a sign.
pub open spec fn plain_point(p: Point) -> bool {
    p.0 >= 0 && p.1 >= 0
}

proof fn lemma_pair_at_point(s: Seq<char>, k: int, p: Point)
    requires
        plain_point(p),
        0 <= k,
        k + point_text(p).len() <= s.len(),
        s.subrange(k, k + point_text(p).len()) == point_text(p),
    ensures
        ({
            let l0 = dec(p.0 as nat).len() as int;
            let l1 = dec(p.1 as nat).len() as int;
            &&& point_text(p).len() == l0 + l1 + 3
            &&& pair_at(s, k) == Some((k + 1, k + 1 + l0, k + 2 + l0, k + 2 + l0 + l1))
            &&& parse_unsigned(s.subrange(k + 1, k + 1 + l0), 32767) == Some(p.0 as int)
            &&& parse_unsigned(s.subrange(k + 2 + l0, k + 2 + l0 + l1), 32767) == Some(p.1 as int)
        }),
{
    let d0 = dec(p.0 as nat);
    let d1 = dec(p.1 as nat);
    let l0 = d0.len() as int;
    let l1 = d1.len() as int;
    let pt = point_text(p);
    lemma_dec_shape(p.0 as nat);
    lemma_dec_shape(p.1 as nat);
    lemma_dec_round_trip(p.0 as nat, 32767);
    lemma_dec_round_trip(p.1 as nat, 32767);
    assert(pt =~= seq!['('] + d0 + seq![','] + d1 + seq![')']);
    assert(pt.len() == l0 + l1 + 3);
    assert forall|i: int| 0 <= i < pt.len() implies s[k + i] == #[trigger] pt[i] by {
        assert(s.subrange(k, k + pt.len())[i] == pt[i]);
    }
    assert(s[k] == pt[0]);
    assert forall|i: int| k + 1 <= i < k + 1 + l0 implies is_digit(#[trigger] s[i]) by {
        assert(s[i] == pt[i - k]);
        assert(pt[i - k] == d0[i - k - 1]);
    }
    assert(s[k + 1 + l0] == pt[1 + l0]);
    lemma_digits_run(s, k + 1, k + 1 + l0);
    assert forall|i: int| k + 2 + l0 <= i < k + 2 + l0 + l1 implies is_digit(#[trigger] s[i]) by {
        assert(s[i] == pt[i - k]);
        assert(pt[i - k] == d1[i - k - 2 - l0]);
    }
    assert(s[k + 2 + l0 + l1] == pt[2 + l0 + l1]);
    lemma_digits_run(s, k + 2 + l0, k + 2 + l0 + l1);
    assert(s.subrange(k + 1, k + 1 + l0) =~= d0) by {
        assert forall|i: int| 0 <= i < l0 implies s.subrange(k + 1, k + 1 + l0)[i] == d0[i] by {
            assert(s[k + 1 + i] == pt[1 + i]);
        }
    }
    assert(s.subrange(k + 2 + l0, k + 2 + l0 + l1) =~= d1) by {
        assert forall|i: int| 0 <= i < l1 implies s.subrange(k + 2 + l0, k + 2 + l0 + l1)[i] == d1[i] by {
            assert(s[k + 2 + l0 + i] == pt[2 + l0 + i]);
        }
    }
}

pub open spec fn shift_q(q: (int, int, int, int), d: int) -> (int, int, int, int) {
    (q.0 + d, q.1 + d, q.2 + d, q.3 + d)
}

pub open spec fn shift_qs(qs: Seq<(int, int, int, int)>, d: int) -> Seq<(int, int, int, int)> {
    Seq::new(qs.len(), |i: int| shift_q(qs[i], d))
}

proof fn lemma_digits_end_shift(u: Seq<char>, v: Seq<char>, k: int)
    requires
        0 <= k <= v.len(),
    ensures
        digits_end(u + v, u.len() + k) == u.len() + digits_end(v, k),
    decreases v.len() - k,
{
    if k < v.len() {
        assert((u + v)[u.len() + k] == v[k]);
        lemma_digits_end_shift(u, v, k + 1);
    }
}

proof fn lemma_digits_end_le(v: Seq<char>, k: int)
    requires
        0 <= k <= v.len(),
    ensures
        k <= digits_end(v, k) <= v.len(),
    decreases v.len() - k,
{
    if k < v.len() {
        lemma_digits_end_le(v, k + 1);
    }
}

proof fn lemma_pair_at_shift(u: Seq<char>, v: Seq<char>, k: int)
    requires
        0 <= k <= v.len(),
    ensures
        pair_at(u + v, u.len() + k) == match pair_at(v, k) {
            Some(q) => Some(shift_q(q, u.len() as int)),
            None => None,
        },
        pair_at(v, k) matches Some(q) ==> k < q.0 <= q.1 < q.2 <= q.3 < v.len(),
{
    let t = u + v;
    let d = u.len() as int;
    if k < v.len() {
        assert(t[d + k] == v[k]);
        lemma_digits_end_shift(u, v, k + 1);
        lemma_digits_end_le(v, k + 1);
        let e1 = digits_end(v, k + 1);
        if k + 1 < e1 && e1 < v.len() {
            assert(t[d + e1] == v[e1]);
            lemma_digits_end_shift(u, v, e1 + 1);
            lemma_digits_end_le(v, e1 + 1);
            let e2 = digits_end(v, e1 + 1);
            if e1 + 1 < e2 && e2 < v.len() {
                assert(t[d + e2] == v[e2]);
            }
        }
    }
}

#[verifier::spinoff_prover]
proof fn lemma_pairs_shift(u: Seq<char>, v: Seq<char>, k: int)
    requires
        0 <= k <= v.len(),
    ensures
        pairs_from(u + v, u.len() + k) == shift_qs(pairs_from(v, k), u.len() as int),
        forall|i: int| 0 <= i < pairs_from(v, k).len() ==> k < (#[trigger] pairs_from(v, k)[i]).0 <= pairs_from(v, k)[i].1
            < pairs_from(v, k)[i].2 <= pairs_from(v, k)[i].3 < v.len(),
    decreases v.len() - k,
{
    let t = u + v;
    let d = u.len() as int;
    if k < v.len() {
        lemma_pair_at_shift(u, v, k);
        match pair_at(v, k) {
            Some(q) => {
                let after = q.3 + 1;
                let next = if after < v.len() && v[after] == ',' { after + 1 } else { after };
                if after < v.len() {
                    assert(t[d + after] == v[after]);
                }
                lemma_pairs_shift(u, v, next);
                assert(pairs_from(t, d + k) == seq![shift_q(q, d)] + pairs_from(t, d + next));
                assert(shift_qs(pairs_from(v, k), d) =~= seq![shift_q(q, d)] + shift_qs(pairs_from(v, next), d));
                let r = pairs_from(v, k);
                assert forall|i: int| 0 <= i < r.len() implies k < (#[trigger] r[i]).0 <= r[i].1 < r[i].2 <= r[i].3 < v.len() by {
                    if i > 0 {
                        assert(r[i] == pairs_from(v, next)[i - 1]);
                    }
                }
            },
            None => {
                lemma_pairs_shift(u, v, k + 1);
            },
        }
    } else {
        assert(shift_qs(Seq::empty(), d) =~= Seq::<(int, int, int, int)>::empty());
    }
}

proof fn lemma_pair_values_shift(u: Seq<char>, v: Seq<char>, qs: Seq<(int, int, int, int)>)
    requires
        forall|i: int| 0 <= i < qs.len() ==> 0 <= (#[trigger] qs[i]).0 <= qs[i].1 <= qs[i].2 <= qs[i].3 <= v.len(),
    ensures
        pair_values(u + v, shift_qs(qs, u.len() as int)) == pair_values(v, qs),
    decreases qs.len(),
{
    let d = u.len() as int;
    if qs.len() > 0 {
        lemma_pair_values_shift(u, v, qs.drop_last());
        assert(shift_qs(qs, d).drop_last() =~= shift_qs(qs.drop_last(), d));
        let q = qs.last();
        assert(qs[qs.len() - 1] == q);
        assert((u + v).subrange(q.0 + d, q.1 + d) =~= v.subrange(q.0, q.1));
        assert((u + v).subrange(q.2 + d, q.3 + d) =~= v.subrange(q.2, q.3));
    }
}

#[verifier::spinoff_prover]
proof fn lemma_pair_values_front(t: Seq<char>, q: (int, int, int, int), rest: Seq<(int, int, int, int)>, p: Point)
    requires
        parse_unsigned(t.subrange(q.0, q.1), 32767) == Some(p.0 as int),
        parse_unsigned(t.subrange(q.2, q.3), 32767) == Some(p.1 as int),
    ensures
        pair_values(t, seq![q] + rest) == match pair_values(t, rest) {
            Some(l) => Some(seq![p] + l),
            None => None,
        },
    decreases rest.len(),
{
    if rest.len() == 0 {
        assert(seq![q] + rest =~= seq![q]);
        assert(seq![q].drop_last() =~= Seq::<(int, int, int, int)>::empty());
        assert(seq![q].last() == q);
        assert(pair_values(t, Seq::<(int, int, int, int)>::empty()) == Some(Seq::<Point>::empty()));
        assert(Point(p.0 as int as i16, p.1 as int as i16) == p);
        assert(pair_values(t, seq![q]) == Some(Seq::<Point>::empty().push(p)));
        assert(Seq::<Point>::empty().push(p) =~= seq![p] + Seq::<Point>::empty());
    } else {
        lemma_pair_values_front(t, q, rest.drop_last(), p);
        assert((seq![q] + rest).drop_last() =~= seq![q] + rest.drop_last());
        assert((seq![q] + rest).last() == rest.last());
        match pair_values(t, rest.drop_last()) {
            Some(l) => {
                assert((seq![p] + l).push(Point(
                    parse_unsigned(t.subrange(rest.last().0, rest.last().1), 32767).unwrap() as i16,
                    parse_unsigned(t.subrange(rest.last().2, rest.last().3), 32767).unwrap() as i16,
                )) =~= seq![p] + l.push(Point(
                    parse_unsigned(t.subrange(rest.last().0, rest.last().1), 32767).unwrap() as i16,
                    parse_unsigned(t.subrange(rest.last().2, rest.last().3), 32767).unwrap() as i16,
                )));
            },
            None => {},
        }
    }
}

proof fn lemma_join_front(ps: Seq<Point>)
    requires
        ps.len() >= 2,
    ensures
        join_points(ps) == point_text(ps[0]) + seq![','] + join_points(ps.drop_first()),
    decreases ps.len(),
{
    if ps.len() == 2 {
        assert(ps.drop_last() =~= seq![ps[0]]);
        assert(ps.drop_first() =~= seq![ps[1]]);
        assert(join_points(ps.drop_last()) == point_text(ps[0]));
        assert(join_points(ps.drop_first()) == point_text(ps[1]));
        assert(ps.last() == ps[1]);
    } else {
        lemma_join_front(ps.drop_last());
        assert(ps.drop_last().drop_first() =~= ps.drop_first().drop_last());
        assert(ps.drop_last()[0] == ps[0]);
        assert(ps.drop_first().last() == ps.last());
        assert(join_points(ps.drop_first()) == join_points(ps.drop_first().drop_last()) + seq![','] + point_text(ps.drop_first().last()));
        assert(join_points(ps) =~= point_text(ps[0]) + seq![','] + join_points(ps.drop_first()));
    }
}

/// Points with non-negative coordinates, written as `(r,c)` separated by
/// commas, are found again, in order, by the reader.
#[verifier::spinoff_prover]
pub proof fn lemma_points_round_trip(ps: Seq<Point>)
    requires
        ps.len() > 0,
        forall|i: int| 0 <= i < ps.len() ==> plain_point(#[trigger] ps[i]),
    ensures
        pair_values(join_points(ps), pairs_from(join_points(ps), 0)) == Some(ps),
    decreases ps.len(),
{
    let t = join_points(ps);
    let first = ps[0];
    let first_text = point_text(first);
    assert(plain_point(first));
    if ps.len() == 1 {
        assert(t == first_text);
        assert(t.subrange(0, first_text.len() as int) =~= first_text);
        lemma_pair_at_point(t, 0, first);
        let q0 = pair_at(t, 0).unwrap();
        assert(pairs_from(t, q0.3 + 1) == Seq::<(int, int, int, int)>::empty());
        assert(pairs_from(t, 0) == seq![q0] + Seq::<(int, int, int, int)>::empty());
        lemma_pair_values_front(t, q0, Seq::empty(), first);
        assert(seq![first] + Seq::<Point>::empty() =~= ps);
    } else {
        lemma_join_front(ps);
        let rest = ps.drop_first();
        let j = join_points(rest);
        let u = first_text + seq![','];
        assert(t =~= u + j);
        assert(t.subrange(0, first_text.len() as int) =~= first_text);
        lemma_pair_at_point(t, 0, first);
        let q0 = pair_at(t, 0).unwrap();
        assert(q0.3 + 1 == first_text.len());
        assert(t[first_text.len() as int] == ',');
        assert forall|i: int| 0 <= i < rest.len() implies plain_point(#[trigger] rest[i]) by {
            assert(rest[i] == ps[i + 1]);
        }
        lemma_points_round_trip(rest);
        lemma_pairs_shift(u, j, 0);
        assert(pairs_from(t, 0) == seq![q0] + pairs_from(t, u.len() as int));
        let qs = pairs_from(j, 0);
        assert forall|i: int| 0 <= i < qs.len() implies 0 <= (#[trigger] qs[i]).0 <= qs[i].1 <= qs[i].2 <= qs[i].3 <= j.len() by {}
        lemma_pair_values_shift(u, j, qs);
        lemma_pair_values_front(t, q0, shift_qs(qs, u.len() as int), first);
        assert(seq![first] + rest =~= ps);
    }
}

#[verifier::spinoff_prover]
proof fn lemma_join_points_chars(ps: Seq<Point>)
    requires
        forall|i: int| 0 <= i < ps.len() ==> plain_point(#[trigger] ps[i]),
    ensures
        forall|i: int| 0 <= i < join_points(ps).len() ==> ({
            let c = #[trigger] join_points(ps)[i];
            is_digit(c) || c == ',' || c == '(' || c == ')'
        }),
    decreases ps.len(),
{
    if ps.len() > 0 {
        let last = ps.last();
        assert(plain_point(ps[ps.len() - 1]));
        lemma_dec_shape(last.0 as nat);
        lemma_dec_shape(last.1 as nat);
        let pt = point_text(last);
        let d0 = dec(last.0 as nat);
        let d1 = dec(last.1 as nat);
        assert(pt =~= seq!['('] + d0 + seq![','] + d1 + seq![')']);
        assert forall|i: int| 0 <= i < pt.len() implies ({
            let c = #[trigger] pt[i];
            is_digit(c) || c == ',' || c == '(' || c == ')'
        }) by {
            if 1 <= i < 1 + d0.len() {
                assert(pt[i] == d0[i - 1]);
            } else if 2 + d0.len() <= i < 2 + d0.len() + d1.len() {
                assert(pt[i] == d1[i - 2 - d0.len()]);
            }
        }
        if ps.len() == 1 {
            assert(join_points(ps) == point_text(ps[0]));
        } else {
            let dl = ps.drop_last();
            assert forall|i: int| 0 <= i < dl.len() implies plain_point(#[trigger] dl[i]) by {
                assert(dl[i] == ps[i]);
            }
            lemma_join_points_chars(dl);
            let a = join_points(dl);
            let jn = join_points(ps);
            assert forall|i: int| 0 <= i < jn.len() implies ({
                let c = #[trigger] jn[i];
                is_digit(c) || c == ',' || c == '(' || c == ')'
            }) by {
                if i < a.len() {
                    assert(jn[i] == a[i]);
                } else if i > a.len() {
                    assert(jn[i] == pt[i - a.len() - 1]);
                }
            }
        }
    }
}

/// The origins line of the text: `origins=[(r,c),…]`.
pub open spec fn origins_line(ps: Seq<Point>) -> Seq<char> {
    origins_word() + seq!['=', '['] + join_points(ps) + seq![']']
}

/// The origins line written for `np > 0` players, all coordinates
/// non-negative, reads back as the same origins, whatever was read before it.
#[verifier::spinoff_prover]
pub proof fn lemma_origins_line_round_trip(np: int, acc: RestView, ps: Seq<Point>)
    requires
        0 < ps.len() == np,
        forall|i: int| 0 <= i < ps.len() ==> plain_point(#[trigger] ps[i]),
    ensures
        line_step(np, acc, origins_line(ps)) == Ok::<RestView, ()>(RestView { origins: Some(ps), ..acc }),
{
    let j = join_points(ps);
    let w = origins_word();
    let rest = seq!['['] + j + seq![']'];
    let line = origins_line(ps);
    lemma_join_points_chars(ps);
    assert forall|i: int| 0 <= i < rest.len() implies rest[i] != '=' by {
        if 0 < i < rest.len() - 1 {
            assert(rest[i] == j[i - 1]);
        }
    }
    assert forall|i: int| 0 <= i < w.len() implies w[i] != '=' by {}
    lemma_split_word(Seq::empty(), w, '=');
    assert(Seq::<char>::empty() + w =~= w);
    assert(split_on(Seq::<char>::empty(), '=') =~= seq![Seq::<char>::empty()]);
    assert(split_on(w, '=') =~= seq![w]);
    let we = w.push('=');
    assert(we.drop_last() =~= w);
    assert(split_on(we, '=') == seq![w].push(Seq::<char>::empty()));
    lemma_split_word(we, rest, '=');
    assert(line =~= we + rest);
    assert(Seq::<char>::empty() + rest =~= rest);
    assert(split_on(line, '=') =~= seq![w, rest]);
    lemma_trim_keeps(w);
    lemma_trim_keeps(rest);
    assert(trim(w) != reordering_word()) by {
        assert(w.len() != reordering_word().len());
    }
    assert(trim(w) != crate::metadata::stats_key()) by {
        assert(w.len() != crate::metadata::stats_key().len());
    }
    assert forall|i: int| 1 <= i < rest.len() - 1 implies rest[i] != ']' by {
        assert(rest[i] == j[i - 1]);
    }
    lemma_first_at(rest, '[', 0, 0);
    lemma_first_at(rest, ']', 1, rest.len() - 1);
    assert(rest.subrange(1, rest.len() - 1) =~= j);
    lemma_points_round_trip(ps);
}

proof fn lemma_nums_front(vs: Seq<int>)
    requires
        vs.len() >= 2,
    ensures
        join_nums(vs) == sdec(vs[0]) + seq![','] + join_nums(vs.drop_first()),
    decreases vs.len(),
{
    if vs.len() == 2 {
        assert(vs.drop_last() =~= seq![vs[0]]);
        assert(vs.drop_first() =~= seq![vs[1]]);
        assert(join_nums(vs.drop_last()) == sdec(vs[0]));
        assert(join_nums(vs.drop_first()) == sdec(vs[1]));
        assert(vs.last() == vs[1]);
    } else {
        lemma_nums_front(vs.drop_last());
        assert(vs.drop_last().drop_first() =~= vs.drop_first().drop_last());
        assert(vs.drop_last()[0] == vs[0]);
        assert(vs.drop_first().last() == vs.last());
        assert(join_nums(vs.drop_first()) == join_nums(vs.drop_first().drop_last()) + seq![','] + sdec(vs.drop_first().last()));
        assert(join_nums(vs) =~= sdec(vs[0]) + seq![','] + join_nums(vs.drop_first()));
    }
}

pub open spec fn shift_ints(q: Seq<int>, d: int) -> Seq<int> {
    Seq::new(q.len(), |i: int| q[i] + d)
}

proof fn lemma_runs_shift(u: Seq<char>, v: Seq<char>, k: int, c: nat)
    requires
        0 <= k <= v.len(),
    ensures
        runs_at(u + v, u.len() + k, c) == match runs_at(v, k, c) {
            Some(q) => Some(shift_ints(q, u.len() as int)),
            None => None,
        },
    decreases c,
{
    let d = u.len() as int;
    if c == 0 {
        assert(shift_ints(seq![k], d) =~= seq![d + k]);
    } else {
        lemma_digits_end_shift(u, v, k);
        lemma_digits_end_le(v, k);
        let e = digits_end(v, k);
        if k < e && e < v.len() {
            assert((u + v)[d + e] == v[e]);
            if v[e] == ',' {
                lemma_runs_shift(u, v, e + 1, (c - 1) as nat);
                match runs_at(v, e + 1, (c - 1) as nat) {
                    Some(r) => {
                        assert(shift_ints(seq![k, e] + r, d) =~= seq![d + k, d + e] + shift_ints(r, d));
                    },
                    None => {},
                }
            }
        }
    }
}

/// What the digit runs of written numbers look like to the reader.
pub open spec fn runs_cover(t: Seq<char>, q: Seq<int>, vs: Seq<int>, base: int) -> bool {
    &&& q.len() == 2 * vs.len() + 1
    &&& forall|i: int| 0 <= i < vs.len() ==> 0 <= #[trigger] q[2 * i] <= q[2 * i + 1] <= t.len()
        && t.subrange(q[2 * i], q[2 * i + 1]) == dec(vs[i] as nat)
    &&& q[2 * vs.len() as int] == base
}

#[verifier::spinoff_prover]
proof fn lemma_runs_of_join(vs: Seq<int>, w: Seq<char>)
    requires
        vs.len() > 0,
        forall|i: int| 0 <= i < vs.len() ==> 0 <= #[trigger] vs[i],
    ensures
        runs_at(join_nums(vs) + seq![','] + w, 0, vs.len() as nat) matches Some(q) && runs_cover(
            join_nums(vs) + seq![','] + w,
            q,
            vs,
            join_nums(vs).len() as int + 1,
        ),
    decreases vs.len(),
{
    let t = join_nums(vs) + seq![','] + w;
    let d0 = dec(vs[0] as nat);
    lemma_dec_shape(vs[0] as nat);
    let u = d0 + seq![','];
    let rest_t = if vs.len() == 1 {
        w
    } else {
        join_nums(vs.drop_first()) + seq![','] + w
    };
    if vs.len() == 1 {
        assert(join_nums(vs) == sdec(vs[0]));
    } else {
        lemma_nums_front(vs);
    }
    assert(t =~= u + rest_t);
    assert forall|i: int| 0 <= i < d0.len() implies is_digit(#[trigger] t[i]) by {
        assert(t[i] == d0[i]);
    }
    assert(t[d0.len() as int] == ',');
    lemma_digits_run(t, 0, d0.len() as int);
    lemma_runs_shift(u, rest_t, 0, (vs.len() - 1) as nat);
    assert(t.subrange(0, d0.len() as int) =~= d0);
    if vs.len() == 1 {
        let q = seq![0int, d0.len() as int, u.len() as int];
        assert(runs_at(rest_t, 0, 0) == Some(seq![0int]));
        assert(shift_ints(seq![0int], u.len() as int) =~= seq![u.len() as int]);
        assert(runs_at(t, 0, 1) == Some(seq![0int, d0.len() as int] + seq![u.len() as int]));
        assert(seq![0int, d0.len() as int] + seq![u.len() as int] =~= q);
        assert forall|i: int| 0 <= i < vs.len() implies 0 <= #[trigger] q[2 * i] <= q[2 * i + 1] <= t.len()
            && t.subrange(q[2 * i], q[2 * i + 1]) == dec(vs[i] as nat) by {
            assert(i == 0);
        }
    } else {
        let rs = vs.drop_first();
        assert forall|i: int| 0 <= i < rs.len() implies 0 <= #[trigger] rs[i] by {
            assert(rs[i] == vs[i + 1]);
        }
        lemma_runs_of_join(rs, w);
        let q1 = runs_at(rest_t, 0, rs.len() as nat).unwrap();
        let sq = shift_ints(q1, u.len() as int);
        let q = seq![0int, d0.len() as int] + sq;
        assert(runs_at(t, 0, vs.len() as nat) == Some(q));
        assert forall|i: int| 0 <= i < vs.len() implies 0 <= #[trigger] q[2 * i] <= q[2 * i + 1] <= t.len()
            && t.subrange(q[2 * i], q[2 * i + 1]) == dec(vs[i] as nat) by {
            if i > 0 {
                let k = i - 1;
                assert(q[2 * i] == q1[2 * k] + u.len());
                assert(q[2 * i + 1] == q1[2 * k + 1] + u.len());
                assert(0 <= q1[2 * k] <= q1[2 * k + 1] <= rest_t.len());
                assert(rest_t.subrange(q1[2 * k], q1[2 * k + 1]) == dec(rs[k] as nat));
                assert(t.subrange(q[2 * i], q[2 * i + 1]) =~= rest_t.subrange(q1[2 * k], q1[2 * k + 1]));
                assert(rs[k] == vs[i]);
            }
        }
        assert(q[2 * vs.len() as int] == q1[2 * rs.len() as int] + u.len());
        assert(join_nums(vs).len() == u.len() + join_nums(rs).len());
    }
}

/// The five counters of `st`, in the order they are written.
pub open spec fn counters(st: Stats) -> Seq<int> {
    seq![
        st.iteration as int,
        st.filled_count as int,
        st.head_to_head_count as int,
        st.ouroboros_count as int,
        st.bite_count as int,
    ]
}

/// The stats line of the text: `stats=Stats(i,f,h,o,b,[s0,s1,…])`.
pub open spec fn stats_line(st: Stats) -> Seq<char> {
    stats_key() + seq!['='] + stats_word() + join_nums(counters(st)) + seq![',', '['] + join_nums(
        u16s(st.scores@),
    ) + seq![']', ')']
}

/// The stats line written for `np > 0` players reads back as the same
/// statistics, whatever was read before it.
#[verifier::spinoff_prover]
#[verifier::rlimit(60)]
pub proof fn lemma_stats_line_round_trip(np: int, acc: RestView, st: Stats)
    requires
        0 < st.scores@.len() == np,
    ensures
        line_step(np, acc, stats_line(st)) == Ok::<RestView, ()>(
            RestView { stats: Some(stats_view(st)), ..acc },
        ),
{
    let five = counters(st);
    let sc = u16s(st.scores@);
    let j5 = join_nums(five);
    let js = join_nums(sc);
    let w = stats_key();
    let tail = seq!['['] + js + seq![']'];
    let t = j5 + seq![','] + tail;
    let rest = stats_word() + t + seq![')'];
    let line = stats_line(st);
    assert forall|i: int| 0 <= i < five.len() implies 0 <= #[trigger] five[i] <= 65535 by {}
    assert forall|i: int| 0 <= i < sc.len() implies 0 <= #[trigger] sc[i] <= 65535 by {}
    lemma_join_chars(five);
    lemma_join_chars(sc);
    assert forall|i: int| 0 <= i < t.len() implies t[i] != '=' && t[i] != ')' by {
        if i < j5.len() {
            assert(t[i] == j5[i]);
        } else if j5.len() + 1 < i < t.len() - 1 {
            assert(t[i] == js[i - j5.len() - 2]);
        }
    }
    assert forall|i: int| 0 <= i < rest.len() implies rest[i] != '=' by {
        if 6 <= i < rest.len() - 1 {
            assert(rest[i] == t[i - 6]);
        }
    }
    assert forall|i: int| 0 <= i < w.len() implies w[i] != '=' by {}
    // the line splits at its one `=`
    lemma_split_word(Seq::empty(), w, '=');
    assert(Seq::<char>::empty() + w =~= w);
    assert(split_on(Seq::<char>::empty(), '=') =~= seq![Seq::<char>::empty()]);
    assert(split_on(w, '=') =~= seq![w]);
    let we = w.push('=');
    assert(we.drop_last() =~= w);
    assert(split_on(we, '=') == seq![w].push(Seq::<char>::empty()));
    lemma_split_word(we, rest, '=');
    assert(line =~= we + rest);
    assert(Seq::<char>::empty() + rest =~= rest);
    assert(split_on(line, '=') =~= seq![w, rest]);
    lemma_trim_keeps(w);
    lemma_trim_keeps(rest);
    assert(trim(w) != reordering_word()) by {
        assert(w.len() != reordering_word().len());
    }
    // `Stats(` opens the line and its `)` closes it
    assert(rest.subrange(0, 6) =~= stats_word());
    assert(word_at(rest, 0, stats_word()));
    assert(first_word(rest, stats_word(), 0) == 0);
    assert forall|i: int| 6 <= i < rest.len() - 1 implies rest[i] != ')' by {
        assert(rest[i] == t[i - 6]);
    }
    lemma_first_at(rest, ')', 6, rest.len() - 1);
    assert(stats_inner(rest) == Some((6int, rest.len() - 1)));
    assert(rest.subrange(6, rest.len() - 1) =~= t);
    // the five counters, then the bracketed scores
    lemma_runs_of_join(five, tail);
    let q = runs_at(t, 0, 5).unwrap();
    let open_at = q[10];
    assert(open_at == j5.len() + 1);
    assert(t[open_at] == '[');
    assert forall|i: int| open_at + 1 <= i < t.len() - 1 implies t[i] != ']' by {
        assert(t[i] == js[i - open_at - 1]);
    }
    lemma_first_at(t, ']', open_at + 1, t.len() - 1);
    let qq = q.update(10, open_at + 1).push(t.len() - 1);
    assert(stats_at(t, 0) == Some(qq));
    assert(stats_search(t, 0) == Some(qq));
    assert(t.subrange(qq[10], qq[11]) =~= js);
    lemma_number_list_round_trip(sc, 65535);
    assert forall|i: int| 0 <= i < 5 implies parse_unsigned(t.subrange(#[trigger] qq[2 * i], qq[2 * i + 1]), 65535)
        == Some(five[i]) by {
        assert(qq[2 * i] == q[2 * i] && qq[2 * i + 1] == q[2 * i + 1]);
        assert(t.subrange(q[2 * i], q[2 * i + 1]) == dec(five[i] as nat));
        lemma_dec_round_trip(five[i] as nat, 65535);
    }
    assert(parse_unsigned(t.subrange(qq[0], qq[1]), 65535) == Some(five[0])) by {
        assert(qq[2 * 0int] == qq[0]);
    }
    assert(parse_unsigned(t.subrange(qq[2], qq[3]), 65535) == Some(five[1])) by {
        assert(qq[2 * 1int] == qq[2]);
    }
    assert(parse_unsigned(t.subrange(qq[4], qq[5]), 65535) == Some(five[2])) by {
        assert(qq[2 * 2int] == qq[4]);
    }
    assert(parse_unsigned(t.subrange(qq[6], qq[7]), 65535) == Some(five[3])) by {
        assert(qq[2 * 3int] == qq[6]);
    }
    assert(parse_unsigned(t.subrange(qq[8], qq[9]), 65535) == Some(five[4])) by {
        assert(qq[2 * 4int] == qq[8]);
    }
    assert(to_u16s(sc) =~= st.scores@);
}

/// The metadata text is cut into its three lines.
#[verifier::spinoff_prover]
proof fn lemma_meta_lines(gs: GameState)
    requires
        forall|i: int| 0 <= i < gs.origins@.len() ==> plain_point(#[trigger] gs.origins@[i]),
    ensures
        meta_lines(meta_text(gs)) == seq![
            reordering_line(gs.reordering@),
            stats_line(gs.stats),
            origins_line(gs.origins@),
        ],
        split_on(meta_text(gs), '\n') == seq![
            reordering_line(gs.reordering@),
            stats_line(gs.stats),
            origins_line(gs.origins@),
        ],
        lines_of_kind(split_on(meta_text(gs), '\n'), true) == Seq::<Seq<char>>::empty(),
{
    let l1 = reordering_line(gs.reordering@);
    let l2 = stats_line(gs.stats);
    let l3 = origins_line(gs.origins@);
    let text = meta_text(gs);
    assert(text =~= l1 + seq!['\n'] + l2 + seq!['\n'] + l3);
    lemma_join_chars(u8s(gs.reordering@));
    lemma_join_chars(counters(gs.stats));
    lemma_join_chars(u16s(gs.stats.scores@));
    lemma_join_points_chars(gs.origins@);
    let j1 = join_nums(u8s(gs.reordering@));
    let j5 = join_nums(counters(gs.stats));
    let js = join_nums(u16s(gs.stats.scores@));
    let jp = join_points(gs.origins@);
    assert forall|i: int| 0 <= i < l1.len() implies l1[i] != '\n' by {
        if 12 <= i < l1.len() - 1 {
            assert(l1[i] == j1[i - 12]);
        }
    }
    assert forall|i: int| 0 <= i < l2.len() implies l2[i] != '\n' by {
        if 12 <= i < 12 + j5.len() {
            assert(l2[i] == j5[i - 12]);
        } else if 14 + j5.len() <= i < l2.len() - 2 {
            assert(l2[i] == js[i - 14 - j5.len()]);
        }
    }
    assert forall|i: int| 0 <= i < l3.len() implies l3[i] != '\n' by {
        if 9 <= i < l3.len() - 1 {
            assert(l3[i] == jp[i - 9]);
        }
    }
    lemma_split_word(Seq::empty(), l1, '\n');
    assert(Seq::<char>::empty() + l1 =~= l1);
    assert(split_on(Seq::<char>::empty(), '\n') =~= seq![Seq::<char>::empty()]);
    assert(split_on(l1, '\n') =~= seq![l1]);
    let a = l1.push('\n');
    assert(a.drop_last() =~= l1);
    assert(split_on(a, '\n') == seq![l1].push(Seq::<char>::empty()));
    lemma_split_word(a, l2, '\n');
    assert(Seq::<char>::empty() + l2 =~= l2);
    assert(split_on(a + l2, '\n') =~= seq![l1, l2]);
    let b = (a + l2).push('\n');
    assert(b.drop_last() =~= a + l2);
    assert(split_on(b, '\n') == seq![l1, l2].push(Seq::<char>::empty()));
    lemma_split_word(b, l3, '\n');
    assert(Seq::<char>::empty() + l3 =~= l3);
    assert(text =~= b + l3);
    let pieces = seq![l1, l2, l3];
    assert(split_on(text, '\n') =~= pieces);
    lemma_trim_keeps(l1);
    lemma_trim_keeps(l2);
    lemma_trim_keeps(l3);
    let e = Seq::<Seq<char>>::empty();
    assert(seq![l1].drop_last() =~= e);
    assert(seq![l1, l2].drop_last() =~= seq![l1]);
    assert(pieces.drop_last() =~= seq![l1, l2]);
    assert(lines_of_kind(e, false) == e);
    assert(lines_of_kind(seq![l1], false) == e.push(l1));
    assert(e.push(l1) =~= seq![l1]);
    assert(lines_of_kind(seq![l1, l2], false) == seq![l1].push(l2));
    assert(seq![l1].push(l2) =~= seq![l1, l2]);
    assert(lines_of_kind(pieces, false) == seq![l1, l2].push(l3));
    assert(seq![l1, l2].push(l3) =~= pieces);
    assert(l1[0] == 'r' && l2[0] == 's' && l3[0] == 'o');
    assert(trim(l1) == l1 && trim(l2) == l2 && trim(l3) == l3);
    assert(seq![l1].last() == l1);
    assert(seq![l1, l2].last() == l2);
    assert(pieces.last() == l3);
    assert(lines_of_kind(e, true) == e);
    assert(lines_of_kind(seq![l1], true) == e);
    assert(lines_of_kind(seq![l1, l2], true) == e);
    assert(lines_of_kind(pieces, true) == e);
}

/// The metadata text written for a game state with at least one player
/// (its reordering a permutation of the players, one score and one origin
/// per player, origins without negative coordinates) reads back as the
/// same reordering, statistics and origins.
#[verifier::spinoff_prover]
pub proof fn lemma_metadata_round_trip(gs: GameState)
    requires
        0 < gs.players@.len() < 256,
        gs.reordering@.len() == gs.players@.len(),
        is_permutation(gs.reordering@),
        gs.stats.scores@.len() == gs.players@.len(),
        gs.origins@.len() == gs.players@.len(),
        forall|i: int| 0 <= i < gs.origins@.len() ==> plain_point(#[trigger] gs.origins@[i]),
    ensures
        rest_spec(gs.players@.len() as int, meta_lines(meta_text(gs))) == Ok::<RestView, ()>(
            RestView {
                reordering: Some(gs.reordering@),
                origins: Some(gs.origins@),
                stats: Some(stats_view(gs.stats)),
            },
        ),
{
    let np = gs.players@.len() as int;
    let l1 = reordering_line(gs.reordering@);
    let l2 = stats_line(gs.stats);
    let l3 = origins_line(gs.origins@);
    lemma_meta_lines(gs);
    let ls = seq![l1, l2, l3];
    assert(ls.drop_last() =~= seq![l1, l2]);
    assert(seq![l1, l2].drop_last() =~= seq![l1]);
    assert(seq![l1].drop_last() =~= Seq::<Seq<char>>::empty());
    let r0 = RestView { reordering: None, origins: None, stats: None };
    lemma_reordering_line_round_trip(np, r0, gs.reordering@);
    let r1 = RestView { reordering: Some(gs.reordering@), ..r0 };
    lemma_stats_line_round_trip(np, r1, gs.stats);
    let r2 = RestView { stats: Some(stats_view(gs.stats)), ..r1 };
    lemma_origins_line_round_trip(np, r2, gs.origins@);
    let e = Seq::<Seq<char>>::empty();
    assert(rest_spec(np, e) == Ok::<RestView, ()>(r0));
    assert(rest_spec(np, seq![l1]) == Ok::<RestView, ()>(r1));
    assert(rest_spec(np, seq![l1, l2]) == Ok::<RestView, ()>(r2));
    assert(rest_spec(np, ls) == Ok::<RestView, ()>(RestView { origins: Some(gs.origins@), ..r2 }));
}

proof fn lemma_split_after_line(a: Seq<char>, w: Seq<char>, sep: char)
    requires
        forall|i: int| 0 <= i < a.len() ==> a[i] != sep,
    ensures
        split_on(a + seq![sep] + w, sep) == seq![a] + split_on(w, sep),
    decreases w.len(),
{
    crate::text::lemma_split_nonempty(w, sep);
    if w.len() == 0 {
        lemma_split_word(Seq::empty(), a, sep);
        assert(Seq::<char>::empty() + a =~= a);
        assert(split_on(Seq::<char>::empty(), sep) =~= seq![Seq::<char>::empty()]);
        assert(split_on(a, sep) =~= seq![a]);
        assert((a + seq![sep] + w).drop_last() =~= a);
        assert(split_on(a + seq![sep] + w, sep) =~= seq![a] + split_on(w, sep));
    } else {
        lemma_split_after_line(a, w.drop_last(), sep);
        crate::text::lemma_split_nonempty(w.drop_last(), sep);
        assert((a + seq![sep] + w).drop_last() =~= a + seq![sep] + w.drop_last());
        assert((a + seq![sep] + w).last() == w.last());
        assert(split_on(a + seq![sep] + w, sep) =~= seq![a] + split_on(w, sep));
    }
}

/// The marks written are `.` or a player's letter.
proof fn lemma_mark_chars(players: Seq<Player>, k: int, i: int, j: int)
    requires
        0 <= k <= players.len() <= 26,
    ensures
        mark_of(players, k, i, j) == '.' || (exists|x: int| 0 <= x < 26 && (mark_of(players, k, i, j) == letter(x, true) || mark_of(players, k, i, j) == letter(x, false))),
    decreases k,
{
    if k > 0 {
        lemma_mark_chars(players, k - 1, i, j);
        let body = players[k - 1].0@;
        lemma_body_mark_chars(body, k - 1, i, j, body.len() as int, mark_of(players, k - 1, i, j));
    }
}

proof fn lemma_body_mark_chars(body: Seq<Point>, k: int, i: int, j: int, l: int, prev: char)
    requires
        0 <= k < 26,
        l <= body.len(),
        prev == '.' || (exists|x: int| 0 <= x < 26 && (prev == letter(x, true) || prev == letter(x, false))),
    ensures
        ({
            let c = body_mark(body, k, i, j, l, prev);
            c == '.' || (exists|x: int| 0 <= x < 26 && (c == letter(x, true) || c == letter(x, false)))
        }),
    decreases l,
{
    if l > 0 {
        lemma_body_mark_chars(body, k, i, j, l - 1, prev);
    }
}

proof fn lemma_mark_not_space(c: char)
    requires
        c == '.' || (exists|x: int| 0 <= x < 26 && (c == letter(x, true) || c == letter(x, false))),
    ensures
        !is_ws(c),
        c != '\n',
        c != '*',
{
    if c != '.' {
        let x = choose|x: int| 0 <= x < 26 && (c == letter(x, true) || c == letter(x, false));
        assert(letter(x, true) as int == 65 + x);
        assert(letter(x, false) as int == 97 + x);
    }
}

/// What each written row holds: two characters per cell.
proof fn lemma_row(gs: GameState, i: int, j: int)
    requires
        writable(gs),
        0 <= i < gs.field.m,
        0 <= j <= gs.field.n,
    ensures
        row_prefix(gs, i, j).len() == 2 * j,
        forall|t: int| 0 <= t < j ==> #[trigger] row_prefix(gs, i, j)[2 * t] == cell_char(gs.field.cells@[i]@[t]),
        forall|t: int| 0 <= t < j ==> #[trigger] row_prefix(gs, i, j)[2 * t + 1] == mark_of(
            gs.players@,
            gs.players@.len() as int,
            i,
            t,
        ),
    decreases j,
{
    if j > 0 {
        lemma_row(gs, i, j - 1);
        let r = row_prefix(gs, i, j);
        let p = row_prefix(gs, i, j - 1);
        assert forall|t: int| 0 <= t < j implies #[trigger] r[2 * t] == cell_char(gs.field.cells@[i]@[t]) by {
            if t < j - 1 {
                assert(r[2 * t] == p[2 * t]);
            }
        }
        assert forall|t: int| 0 <= t < j implies #[trigger] r[2 * t + 1] == mark_of(
            gs.players@,
            gs.players@.len() as int,
            i,
            t,
        ) by {
            if t < j - 1 {
                assert(r[2 * t + 1] == p[2 * t + 1]);
            }
        }
    }
}

proof fn lemma_row_no_newline(gs: GameState, i: int)
    requires
        writable(gs),
        0 <= i < gs.field.m,
    ensures
        forall|t: int| 0 <= t < row_prefix(gs, i, gs.field.n as int).len() ==> #[trigger] row_prefix(gs, i, gs.field.n as int)[t] != '\n',
{
    let n = gs.field.n as int;
    let r = row_prefix(gs, i, n);
    lemma_row(gs, i, n);
    assert forall|t: int| 0 <= t < r.len() implies #[trigger] r[t] != '\n' by {
        let h = t / 2;
        if t % 2 == 0 {
            assert(t == 2 * h);
            assert(r[2 * h] == cell_char(gs.field.cells@[i]@[h]));
            let c = gs.field.cells@[i]@[h];
            if let Cell::Owned(d) = c {
                assert(d <= 9);
                assert(((d + 48) as u8 as char) as int == d + 48);
            }
        } else {
            assert(t == 2 * h + 1);
            lemma_mark_chars(gs.players@, gs.players@.len() as int, i, h);
            lemma_mark_not_space(mark_of(gs.players@, gs.players@.len() as int, i, h));
        }
    }
}

/// The rows of the first `i` written lines.
pub open spec fn rows_of(gs: GameState, i: int) -> Seq<Seq<char>> {
    Seq::new(i as nat, |r: int| row_prefix(gs, r, gs.field.n as int))
}

proof fn lemma_grid_split(gs: GameState, i: int, w: Seq<char>)
    requires
        writable(gs),
        0 <= i <= gs.field.m,
    ensures
        split_on(grid_text(gs, i) + w, '\n') == rows_of(gs, i) + split_on(w, '\n'),
    decreases i,
{
    if i == 0 {
        assert(grid_text(gs, 0) + w =~= w);
        assert(rows_of(gs, 0) + split_on(w, '\n') =~= split_on(w, '\n'));
    } else {
        let row = row_prefix(gs, i - 1, gs.field.n as int);
        let w2 = row + seq!['\n'] + w;
        lemma_grid_split(gs, i - 1, w2);
        lemma_row_no_newline(gs, i - 1);
        lemma_split_after_line(row, w, '\n');
        assert(grid_text(gs, i) + w =~= grid_text(gs, i - 1) + w2);
        assert(rows_of(gs, i - 1) + (seq![row] + split_on(w, '\n')) =~= rows_of(gs, i) + split_on(w, '\n'));
    }
}

proof fn lemma_kind_concat(x: Seq<Seq<char>>, y: Seq<Seq<char>>, star: bool)
    ensures
        lines_of_kind(x + y, star) == lines_of_kind(x, star) + lines_of_kind(y, star),
    decreases y.len(),
{
    if y.len() == 0 {
        assert(x + y =~= x);
        assert(lines_of_kind(x, star) + lines_of_kind(y, star) =~= lines_of_kind(x, star));
    } else {
        lemma_kind_concat(x, y.drop_last(), star);
        assert((x + y).drop_last() =~= x + y.drop_last());
        assert((x + y).last() == y.last());
        assert(lines_of_kind(x + y, star) =~= lines_of_kind(x, star) + lines_of_kind(y, star));
    }
}

/// The board of a game state is writable and its first column is border.
pub open spec fn bordered(gs: GameState) -> bool {
    &&& writable(gs)
    &&& 1 <= gs.field.m
    &&& 1 <= gs.field.n
    &&& forall|i: int| 0 <= i < gs.field.m ==> #[trigger] gs.field.cells@[i]@[0] == Cell::Border
}

proof fn lemma_rows_kind(gs: GameState, i: int)
    requires
        bordered(gs),
        0 <= i <= gs.field.m,
    ensures
        lines_of_kind(rows_of(gs, i), true) == rows_of(gs, i),
        lines_of_kind(rows_of(gs, i), false) == Seq::<Seq<char>>::empty(),
        forall|r: int| 0 <= r < i ==> (#[trigger] rows_of(gs, i)[r]).len() == 2 * gs.field.n,
    decreases i,
{
    if i > 0 {
        lemma_rows_kind(gs, i - 1);
        let n = gs.field.n as int;
        let row = row_prefix(gs, i - 1, n);
        lemma_row(gs, i - 1, n);
        assert(row[2 * 0int] == cell_char(gs.field.cells@[i - 1]@[0]));
        assert(gs.field.cells@[i - 1]@[0] == Cell::Border);
        assert(row[2 * (n - 1) + 1] == mark_of(gs.players@, gs.players@.len() as int, i - 1, n - 1));
        lemma_mark_chars(gs.players@, gs.players@.len() as int, i - 1, n - 1);
        lemma_mark_not_space(mark_of(gs.players@, gs.players@.len() as int, i - 1, n - 1));
        assert(row.last() == row[2 * (n - 1) + 1]);
        lemma_trim_keeps(row);
        assert(rows_of(gs, i).drop_last() =~= rows_of(gs, i - 1));
        assert(rows_of(gs, i).last() == row);
        assert(rows_of(gs, i - 1).push(row) =~= rows_of(gs, i));
    } else {
        assert(rows_of(gs, 0) =~= Seq::<Seq<char>>::empty());
    }
}

proof fn lemma_width(ls: Seq<Seq<char>>, n: int)
    requires
        ls.len() >= 1,
        n >= 0,
        forall|r: int| 0 <= r < ls.len() ==> (#[trigger] ls[r]).len() == 2 * n,
    ensures
        width_of(ls) == n,
    decreases ls.len(),
{
    if ls.len() > 1 {
        lemma_width(ls.drop_last(), n);
    } else {
        assert(width_of(ls.drop_last()) == 0);
    }
    assert(ls.last() == ls[ls.len() - 1]);
    assert(ls.last().len() as int / 2 == n);
}

/// The text written for a game state whose board has a border down its
/// first column reads back, line by line, as the same cells; and, with at
/// least one player (reordering a permutation of the players, one score and
/// one origin each, origins without negative coordinates), as the same
/// reordering, statistics and origins.
pub proof fn lemma_text_round_trip(gs: GameState)
    requires
        bordered(gs),
        0 < gs.players@.len() < 256,
        gs.reordering@.len() == gs.players@.len(),
        is_permutation(gs.reordering@),
        gs.stats.scores@.len() == gs.players@.len(),
        gs.origins@.len() == gs.players@.len(),
        forall|i: int| 0 <= i < gs.origins@.len() ==> plain_point(#[trigger] gs.origins@[i]),
    ensures
        board_lines(text_of(gs)) == rows_of(gs, gs.field.m as int),
        board_lines(text_of(gs)).len() == gs.field.m,
        width_of(board_lines(text_of(gs))) == gs.field.n,
        lines_full(board_lines(text_of(gs)), gs.field.n as int),
        forall|i: int| 0 <= i < gs.field.m ==> #[trigger] cells_of(board_lines(text_of(gs)), gs.field.n as int)[i]
            == gs.field.cells@[i]@,
        rest_spec(gs.players@.len() as int, meta_lines(text_of(gs))) == Ok::<RestView, ()>(
            RestView {
                reordering: Some(gs.reordering@),
                origins: Some(gs.origins@),
                stats: Some(stats_view(gs.stats)),
            },
        ),
{
    let m = gs.field.m as int;
    let n = gs.field.n as int;
    let rows = rows_of(gs, m);
    lemma_grid_split(gs, m, meta_text(gs));
    lemma_meta_lines(gs);
    let mp = split_on(meta_text(gs), '\n');
    lemma_rows_kind(gs, m);
    lemma_kind_concat(rows, mp, true);
    lemma_kind_concat(rows, mp, false);
    assert(board_lines(text_of(gs)) =~= rows);
    assert(meta_lines(text_of(gs)) =~= meta_lines(meta_text(gs)));
    lemma_width(rows, n);
    assert forall|i: int| 0 <= i < rows.len() implies (#[trigger] rows[i]).len() >= 2 * n by {}
    assert forall|i: int| 0 <= i < m implies #[trigger] cells_of(rows, n)[i] == gs.field.cells@[i]@ by {
        lemma_row(gs, i, n);
        assert forall|j: int| 0 <= j < n implies cells_of(rows, n)[i][j] == #[trigger] gs.field.cells@[i]@[j] by {
            let c = gs.field.cells@[i]@[j];
            assert(rows[i][2 * j] == cell_char(c));
            if let Cell::Owned(d) = c {
                assert(d <= 9);
                assert(((d + 48) as u8 as char) as int == d + 48);
            }
        }
        assert(cells_of(rows, n)[i] =~= gs.field.cells@[i]@);
    }
    lemma_metadata_round_trip(gs);
}

/// Player bodies that can be told apart in the text: each non-empty, no cell
/// shared by two bodies or visited twice by one.
pub open spec fn bodies_apart(players: Seq<Player>) -> bool {
    &&& forall|k: int| 0 <= k < players.len() ==> (#[trigger] players[k]).0@.len() > 0
    &&& forall|k: int, l: int, k2: int, l2: int|
        0 <= k < players.len() && 0 <= k2 < players.len() && 0 <= l < players[k].0@.len() && 0 <= l2
            < players[k2].0@.len() && (k != k2 || l != l2) ==> #[trigger] players[k].0@[l]
            != #[trigger] players[k2].0@[l2]
}

proof fn lemma_body_mark_at(body: Seq<Point>, k: int, i: int, j: int, big_l: int, prev: char, l: int)
    requires
        0 <= l < big_l <= body.len(),
        body[l].0 == i && body[l].1 == j,
        forall|a: int, b: int| 0 <= a < b < body.len() ==> body[a] != body[b],
    ensures
        body_mark(body, k, i, j, big_l, prev) == letter(k, l == body.len() - 1),
    decreases big_l,
{
    if !(body[big_l - 1].0 == i && body[big_l - 1].1 == j) {
        lemma_body_mark_at(body, k, i, j, big_l - 1, prev, l);
    } else if big_l - 1 != l {
        assert(body[big_l - 1] == body[l]);
    }
}

proof fn lemma_body_mark_absent(body: Seq<Point>, k: int, i: int, j: int, big_l: int, prev: char)
    requires
        0 <= big_l <= body.len(),
        forall|l: int| 0 <= l < big_l ==> !(body[l].0 == i && body[l].1 == j),
    ensures
        body_mark(body, k, i, j, big_l, prev) == prev,
    decreases big_l,
{
    if big_l > 0 {
        lemma_body_mark_absent(body, k, i, j, big_l - 1, prev);
    }
}

/// A body cell carries its player's letter, capital at the head.
proof fn lemma_mark_of_body(players: Seq<Player>, big_k: int, k: int, l: int)
    requires
        bodies_apart(players),
        0 <= k < big_k <= players.len(),
        0 <= l < players[k].0@.len(),
    ensures
        mark_of(players, big_k, players[k].0@[l].0 as int, players[k].0@[l].1 as int) == letter(
            k,
            l == players[k].0@.len() - 1,
        ),
    decreases big_k,
{
    let p = players[k].0@[l];
    let body = players[big_k - 1].0@;
    if k == big_k - 1 {
        assert forall|a: int, b: int| 0 <= a < b < body.len() implies body[a] != body[b] by {
            assert(players[k].0@[a] != players[k].0@[b]);
        }
        lemma_body_mark_at(body, k, p.0 as int, p.1 as int, body.len() as int, mark_of(players, big_k - 1, p.0 as int, p.1 as int), l);
    } else {
        lemma_mark_of_body(players, big_k - 1, k, l);
        assert forall|l2: int| 0 <= l2 < body.len() implies !(body[l2].0 == p.0 && body[l2].1 == p.1) by {
            assert(players[big_k - 1].0@[l2] != players[k].0@[l]);
        }
        lemma_body_mark_absent(body, big_k - 1, p.0 as int, p.1 as int, body.len() as int, mark_of(players, big_k - 1, p.0 as int, p.1 as int));
    }
}

/// A cell outside every body carries no letter.
proof fn lemma_mark_of_empty(players: Seq<Player>, big_k: int, i: int, j: int)
    requires
        0 <= big_k <= players.len(),
        forall|k: int, l: int| 0 <= k < big_k && 0 <= l < players[k].0@.len() ==> !(players[k].0@[l].0 == i
            && players[k].0@[l].1 == j),
    ensures
        mark_of(players, big_k, i, j) == '.',
    decreases big_k,
{
    if big_k > 0 {
        lemma_mark_of_empty(players, big_k - 1, i, j);
        let body = players[big_k - 1].0@;
        assert forall|l: int| 0 <= l < body.len() implies !(body[l].0 == i && body[l].1 == j) by {
            assert(!(players[big_k - 1].0@[l].0 == i && players[big_k - 1].0@[l].1 == j));
        }
        lemma_body_mark_absent(body, big_k - 1, i, j, body.len() as int, mark_of(players, big_k - 1, i, j));
    }
}

proof fn lemma_last_in_row(lines: Seq<Seq<char>>, i: int, code: int, jj: int, t: Option<int>)
    requires
        jj >= 0,
        forall|j: int| 0 <= j < jj ==> ((mark_at(lines, i, j) as int == code) <==> t == Some(j)),
    ensures
        last_in_row(lines, i, code, jj) == match t {
            Some(x) => if 0 <= x < jj {
                t
            } else {
                None::<int>
            },
            None => None::<int>,
        },
    decreases jj,
{
    if jj > 0 {
        lemma_last_in_row(lines, i, code, jj - 1, t);
    }
}

proof fn lemma_last_mark(lines: Seq<Seq<char>>, n: int, code: int, ii: int, t: Option<(int, int)>)
    requires
        n >= 0,
        ii >= 0,
        t matches Some((a, b)) ==> 0 <= a && 0 <= b < n && a <= i16::MAX && b <= i16::MAX,
        forall|i: int, j: int| 0 <= i < ii && 0 <= j < n ==> ((mark_at(lines, i, j) as int == code) <==> t == Some((i, j))),
    ensures
        last_mark(lines, n, code, ii) == match t {
            Some((a, b)) => if a < ii {
                Some(Point(a as i16, b as i16))
            } else {
                None::<Point>
            },
            None => None::<Point>,
        },
    decreases ii,
{
    if ii > 0 {
        let row_t = match t {
            Some((a, b)) => if a == ii - 1 { Some(b) } else { None },
            None => None,
        };
        assert forall|j: int| 0 <= j < n implies ((mark_at(lines, ii - 1, j) as int == code) <==> row_t == Some(j)) by {
        }
        lemma_last_in_row(lines, ii - 1, code, n, row_t);
        lemma_last_mark(lines, n, code, ii - 1, t);
    }
}

/// The conditions under which a written game state reads back whole.
pub open spec fn readable(gs: GameState) -> bool {
    &&& bordered(gs)
    &&& gs.field.m <= crate::model::MAX_SIDE
    &&& gs.field.n <= crate::model::MAX_SIDE
    &&& 0 < gs.players@.len() <= 26
    &&& bodies_apart(gs.players@)
}

/// The head of player `k`.
pub open spec fn head_point(gs: GameState, k: int) -> Point {
    gs.players@[k].0@.last()
}

proof fn lemma_code_at(gs: GameState, i: int, j: int, c: int)
    requires
        readable(gs),
        0 <= i < gs.field.m,
        0 <= j < gs.field.n,
        0 <= c < 26,
    ensures
        (mark_of(gs.players@, gs.players@.len() as int, i, j) as int == 65 + c) <==> (c < gs.players@.len()
            && head_point(gs, c).0 == i && head_point(gs, c).1 == j),
{
    let ps = gs.players@;
    let np = ps.len() as int;
    if exists|k: int, l: int| 0 <= k < np && 0 <= l < ps[k].0@.len() && ps[k].0@[l].0 == i && ps[k].0@[l].1 == j {
        let (k, l) = choose|k: int, l: int| 0 <= k < np && 0 <= l < ps[k].0@.len() && ps[k].0@[l].0 == i && ps[k].0@[l].1 == j;
        lemma_mark_of_body(ps, np, k, l);
        let last = ps[k].0@.len() - 1;
        assert(letter(k, true) as int == 65 + k);
        assert(letter(k, false) as int == 97 + k);
        if c < np && head_point(gs, c).0 == i && head_point(gs, c).1 == j {
            let lc = ps[c].0@.len() - 1;
            assert(ps[c].0@[lc] == ps[k].0@[l]);
            assert(ps[c].0@.len() > 0);
        }
    } else {
        lemma_mark_of_empty(ps, np, i, j);
        if c < np {
            assert(ps[c].0@.len() > 0);
            let lc = ps[c].0@.len() - 1;
            assert(!(ps[c].0@[lc].0 == i && ps[c].0@[lc].1 == j));
        }
    }
}

proof fn lemma_heads(gs: GameState, c: int)
    requires
        readable(gs),
        0 <= c < 26,
    ensures
        head_of(rows_of(gs, gs.field.m as int), gs.field.n as int, c) == (if c < gs.players@.len() {
            Some(head_point(gs, c))
        } else {
            None::<Point>
        }),
{
    let m = gs.field.m as int;
    let n = gs.field.n as int;
    let rows = rows_of(gs, m);
    let t = if c < gs.players@.len() {
        Some((head_point(gs, c).0 as int, head_point(gs, c).1 as int))
    } else {
        None::<(int, int)>
    };
    if c < gs.players@.len() {
        assert(gs.players@[c].0@.len() > 0);
        let l = gs.players@[c].0@.len() - 1;
        assert(0 <= gs.players@[c].0@[l].0 < m && 0 <= gs.players@[c].0@[l].1 < n);
    }
    assert forall|i: int, j: int| 0 <= i < m && 0 <= j < n implies ((mark_at(rows, i, j) as int == 'A' as int + c) <==> t == Some((i, j))) by {
        lemma_row(gs, i, n);
        assert(rows[i][2 * j + 1] == mark_of(gs.players@, gs.players@.len() as int, i, j));
        lemma_code_at(gs, i, j, c);
    }
    lemma_last_mark(rows, n, 'A' as int + c, m, t);
}

proof fn lemma_player_count(gs: GameState, k: int)
    requires
        readable(gs),
        gs.players@.len() <= k <= 26,
    ensures
        players_below(rows_of(gs, gs.field.m as int), gs.field.n as int, k) == gs.players@.len(),
    decreases k,
{
    let np = gs.players@.len() as int;
    lemma_heads(gs, k - 1);
    if k > np {
        lemma_player_count(gs, k - 1);
    }
}

/// The cells of a game state, row by row.
pub open spec fn cell_rows(gs: GameState) -> Seq<Seq<Cell>> {
    Seq::new(gs.field.m as nat, |i: int| gs.field.cells@[i]@)
}

/// A game state reads back whole from the text it is written as: reading
/// is not refused, and what it reads is described by the same cells,
/// bodies, names, reordering, origins and statistics as the state itself.
/// This holds of a state whose board has a border down its first column,
/// with one to 26 players whose bodies are non-empty and apart, each body
/// the one the head-first walk over the written letters rebuilds, names
/// `player-k`, owners among the players, at most 65535 claimed cells, a
/// reordering that permutes the players, one score and one origin per
/// player, and origins without negative coordinates.
pub proof fn lemma_state_round_trip(gs: GameState)
    requires
        readable(gs),
        gs.reordering@.len() == gs.players@.len(),
        is_permutation(gs.reordering@),
        gs.stats.scores@.len() == gs.players@.len(),
        gs.origins@.len() == gs.players@.len(),
        forall|i: int| 0 <= i < gs.origins@.len() ==> plain_point(#[trigger] gs.origins@[i]),
        owners_ok(flat(cell_rows(gs)), gs.players@.len() as int),
        filled_in(flat(cell_rows(gs))) <= 65535,
        gs.player_names@.len() == gs.players@.len(),
        forall|k: int| 0 <= k < gs.players@.len() ==> (#[trigger] gs.player_names@[k])@ == crate::text::player_name_spec(k as nat),
        forall|k: int|
            0 <= k < gs.players@.len() ==> (#[trigger] gs.players@[k]).0@ == walk(
                rows_of(gs, gs.field.m as int),
                gs.field.m as int,
                gs.field.n as int,
                'a' as int + k,
                seq![head_point(gs, k)],
                (gs.field.m * gs.field.n) as nat,
            ),
    ensures
        !parse_fails(text_of(gs)),
        parsed_from(gs, text_of(gs)),
{
    let m = gs.field.m as int;
    let n = gs.field.n as int;
    let np = gs.players@.len() as int;
    let rows = rows_of(gs, m);
    lemma_text_round_trip(gs);
    lemma_player_count(gs, 26);
    assert(num_players(rows, n) == np);
    assert(cells_of(rows, n) =~= cell_rows(gs));
    assert forall|k: int| 0 <= k < np implies (#[trigger] gs.players@[k]).0@ == body_of(rows, n, k) by {
        lemma_heads(gs, k);
    }
}

} // verus!
