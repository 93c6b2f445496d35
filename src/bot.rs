//! The planner: ring search for a closing point, the random sampler of
//! unclaimed cells, and the per-turn state machine that commits to a route
//! and follows it one step at a time.
use vstd::prelude::*;

use rand::prng::IsaacRng;

use crate::geometry::{
    build_path, build_path_spec, direction, direction_spec, dist_spec, distance, in_bounds,
    is_walk_from, lemma_build_path, lemma_concat_walk, may_be_selected, may_be_selected_spec,
    to_cartesian, to_cartesian_spec, P,
};
use crate::model::{default_cell, Cell, Field, GameState, Move, MAX_SIDE};
use crate::random::{
    coin_step, gen_bool, gen_range_i16, isaac_from_entropy, isaac_from_seed, range_step, seeded,
};

verus! {

// ===== board access in Cartesian space =====

/// The cell under Cartesian point `c`.
pub open spec fn cell_at(f: Field, c: P) -> Cell {
    f.cell_spec(f.m - 1 - c.1, c.0 as int)
}

pub fn cell_of(field: &Field, c: &P) -> (r: Cell)
    requires
        field.wf(),
        in_bounds(*c, field.m as int, field.n as int),
    ensures
        r == cell_at(*field, *c),
{
    let i: usize = field.m - 1 - (c.1 as usize);
    let j: usize = c.0 as usize;
    field.cells[i][j]
}

/// A legal closing point for a loop that left `base` toward `arrow`: a Border
/// or Owned cell on the permitted side of `arrow`.
pub open spec fn closing_ok(f: Field, base: P, arrow: P, c: P) -> bool {
    cell_at(f, c) != Cell::Empty && may_be_selected_spec(base, arrow, c)
}

pub fn border_or_owned_partial(field: &Field, base: &P, arrow: &P, c: &P) -> (r: bool)
    requires
        field.wf(),
        in_bounds(*c, field.m as int, field.n as int),
    ensures
        r == closing_ok(*field, *base, *arrow, *c),
{
    let cell = cell_of(field, c);
    let owned = match cell {
        Cell::Empty => false,
        _ => true,
    };
    owned && may_be_selected(base, arrow, c)
}

// ===== ring search =====

pub open spec fn clamp(v: int, hi: int) -> int {
    if v < 0 {
        0
    } else if v > hi {
        hi
    } else {
        v
    }
}

/// Candidate `k` of edge `s` on the diamond of radius `r` around `src`,
/// clamped onto a board of `m` rows and `n` columns.
pub open spec fn ring_point(src: P, m: int, n: int, r: int, k: int, s: int) -> P {
    let x = if s == 0 {
        src.0 - k
    } else if s == 1 {
        src.0 - r + k
    } else if s == 2 {
        src.0 + k
    } else {
        src.0 + r - k
    };
    let y = if s == 0 {
        src.1 + r - k
    } else if s == 1 {
        src.1 - k
    } else if s == 2 {
        src.1 - r + k
    } else {
        src.1 + k
    };
    P(clamp(x, n - 1) as i16, clamp(y, m - 1) as i16)
}

/// The candidates are visited by radius `1 <= r < m + n`, then `k < r`,
/// then edge `s < 4`.
pub open spec fn ring_valid(m: int, n: int, r: int, k: int, s: int) -> bool {
    1 <= r < m + n && 0 <= k < r && 0 <= s < 4
}

pub open spec fn ring_before(r1: int, k1: int, s1: int, r: int, k: int, s: int) -> bool {
    r1 < r || (r1 == r && (k1 < k || (k1 == k && s1 < s)))
}

/// Candidate `(r, k, s)` is the first one in visiting order that is a legal
/// closing point.
pub open spec fn first_closing(f: Field, src: P, base: P, arrow: P, r: int, k: int, s: int) -> bool {
    &&& ring_valid(f.m as int, f.n as int, r, k, s)
    &&& closing_ok(f, base, arrow, ring_point(src, f.m as int, f.n as int, r, k, s))
    &&& forall|r1: int, k1: int, s1: int|
        ring_valid(f.m as int, f.n as int, r1, k1, s1) && ring_before(r1, k1, s1, r, k, s)
            ==> !closing_ok(f, base, arrow, #[trigger] ring_point(src, f.m as int, f.n as int, r1, k1, s1))
}

/// What the ring search finds: the first legal closing point in visiting
/// order, if any.
pub open spec fn ring_search_spec(f: Field, src: P, base: P, arrow: P) -> Option<P> {
    if exists|r: int, k: int, s: int| first_closing(f, src, base, arrow, r, k, s) {
        let (r, k, s) = choose|r: int, k: int, s: int| first_closing(f, src, base, arrow, r, k, s);
        Some(ring_point(src, f.m as int, f.n as int, r, k, s))
    } else {
        None
    }
}

proof fn lemma_first_closing_unique(
    f: Field,
    src: P,
    base: P,
    arrow: P,
    r: int,
    k: int,
    s: int,
    r2: int,
    k2: int,
    s2: int,
)
    requires
        first_closing(f, src, base, arrow, r, k, s),
        first_closing(f, src, base, arrow, r2, k2, s2),
    ensures
        r == r2 && k == k2 && s == s2,
{
    let m = f.m as int;
    let n = f.n as int;
    if ring_before(r, k, s, r2, k2, s2) {
        assert(!closing_ok(f, base, arrow, ring_point(src, m, n, r, k, s)));
    } else if ring_before(r2, k2, s2, r, k, s) {
        assert(!closing_ok(f, base, arrow, ring_point(src, m, n, r2, k2, s2)));
    }
}

fn ring_candidate(field: &Field, src: &P, r: i32, k: i32, s: i32) -> (c: P)
    requires
        field.wf(),
        in_bounds(*src, field.m as int, field.n as int),
        ring_valid(field.m as int, field.n as int, r as int, k as int, s as int),
    ensures
        c == ring_point(*src, field.m as int, field.n as int, r as int, k as int, s as int),
        in_bounds(c, field.m as int, field.n as int),
{
    let xs = src.0 as i32;
    let ys = src.1 as i32;
    let (x, y) = if s == 0 {
        (xs - k, ys + r - k)
    } else if s == 1 {
        (xs - r + k, ys - k)
    } else if s == 2 {
        (xs + k, ys - r + k)
    } else {
        (xs + r - k, ys + k)
    };
    let hx = field.n as i32 - 1;
    let hy = field.m as i32 - 1;
    let cx: i32 = if x < 0 {
        0
    } else if x > hx {
        hx
    } else {
        x
    };
    let cy: i32 = if y < 0 {
        0
    } else if y > hy {
        hy
    } else {
        y
    };
    P(cx as i16, cy as i16)
}

/// Expanding-ring search around `src` for a legal closing point of a loop
/// that left `base` toward `arrow`. Out-of-board candidates are clamped onto
/// the board before they are tested, so several candidates near a corner may
/// test the same point; the first one in visiting order wins.
pub fn find_closest(field: &Field, src: &P, base: &P, arrow: &P) -> (res: Option<P>)
    requires
        field.wf(),
        in_bounds(*src, field.m as int, field.n as int),
    ensures
        res == ring_search_spec(*field, *src, *base, *arrow),
        res matches Some(c) ==> in_bounds(c, field.m as int, field.n as int) && closing_ok(
            *field,
            *base,
            *arrow,
            c,
        ),
{
    let ghost f = *field;
    let ghost m = field.m as int;
    let ghost n = field.n as int;
    let bound: i32 = field.m as i32 + field.n as i32;
    let mut r: i32 = 1;
    while r < bound
        invariant
            field.wf(),
            f == *field,
            m == field.m,
            n == field.n,
            bound == m + n,
            in_bounds(*src, m, n),
            1 <= r <= bound,
            forall|r1: int, k1: int, s1: int|
                ring_valid(m, n, r1, k1, s1) && r1 < r ==> !closing_ok(
                    f,
                    *base,
                    *arrow,
                    #[trigger] ring_point(*src, m, n, r1, k1, s1),
                ),
        decreases bound - r,
    {
        let mut k: i32 = 0;
        while k < r
            invariant
                field.wf(),
                f == *field,
                m == field.m,
                n == field.n,
                bound == m + n,
                in_bounds(*src, m, n),
                1 <= r < bound,
                0 <= k <= r,
                forall|r1: int, k1: int, s1: int|
                    ring_valid(m, n, r1, k1, s1) && (r1 < r || (r1 == r && k1 < k)) ==> !closing_ok(
                        f,
                        *base,
                        *arrow,
                        #[trigger] ring_point(*src, m, n, r1, k1, s1),
                    ),
            decreases r - k,
        {
            let mut s: i32 = 0;
            while s < 4
                invariant
                    field.wf(),
                    f == *field,
                    m == field.m,
                    n == field.n,
                    in_bounds(*src, m, n),
                    1 <= r < bound,
                    bound == m + n,
                    0 <= k < r,
                    0 <= s <= 4,
                    forall|r1: int, k1: int, s1: int|
                        ring_valid(m, n, r1, k1, s1) && ring_before(r1, k1, s1, r as int, k as int, s as int)
                            ==> !closing_ok(
                            f,
                            *base,
                            *arrow,
                            #[trigger] ring_point(*src, m, n, r1, k1, s1),
                        ),
                decreases 4 - s,
            {
                let c = ring_candidate(field, src, r, k, s);
                if border_or_owned_partial(field, base, arrow, &c) {
                    proof {
                        assert(first_closing(f, *src, *base, *arrow, r as int, k as int, s as int));
                        let (r2, k2, s2) = choose|r2: int, k2: int, s2: int|
                            first_closing(f, *src, *base, *arrow, r2, k2, s2);
                        lemma_first_closing_unique(
                            f,
                            *src,
                            *base,
                            *arrow,
                            r as int,
                            k as int,
                            s as int,
                            r2,
                            k2,
                            s2,
                        );
                    }
                    return Some(c);
                }
                s = s + 1;
            }
            k = k + 1;
        }
        r = r + 1;
    }
    proof {
        if exists|r1: int, k1: int, s1: int| first_closing(f, *src, *base, *arrow, r1, k1, s1) {
            let (r1, k1, s1) = choose|r1: int, k1: int, s1: int|
                first_closing(f, *src, *base, *arrow, r1, k1, s1);
            assert(!closing_ok(f, *base, *arrow, ring_point(*src, m, n, r1, k1, s1)));
        }
    }
    None
}

/// If a legal closing point lies right next to `src` on the board, the ring
/// search ends on the first ring: it finds a legal closing point on the board
/// at distance at most 1 from `src`, and at distance exactly 1 unless `src`
/// itself is legal (an off-board candidate of the first ring is clamped back
/// onto `src` at the board's edge).
pub proof fn lemma_ring_search_first_ring(f: Field, src: P, base: P, arrow: P, nb: P)
    requires
        f.wf(),
        in_bounds(src, f.m as int, f.n as int),
        in_bounds(nb, f.m as int, f.n as int),
        dist_spec(src, nb) == 1,
        closing_ok(f, base, arrow, nb),
    ensures
        ring_search_spec(f, src, base, arrow) matches Some(c) && in_bounds(c, f.m as int, f.n as int)
            && closing_ok(f, base, arrow, c) && dist_spec(src, c) <= 1 && (!closing_ok(
            f,
            base,
            arrow,
            src,
        ) ==> dist_spec(src, c) == 1),
{
    let m = f.m as int;
    let n = f.n as int;
    let ok0 = closing_ok(f, base, arrow, ring_point(src, m, n, 1, 0, 0));
    let ok1 = closing_ok(f, base, arrow, ring_point(src, m, n, 1, 0, 1));
    let ok2 = closing_ok(f, base, arrow, ring_point(src, m, n, 1, 0, 2));
    let ok3 = closing_ok(f, base, arrow, ring_point(src, m, n, 1, 0, 3));
    if nb.0 == src.0 && nb.1 == src.1 + 1 {
        assert(nb == ring_point(src, m, n, 1, 0, 0));
    } else if nb.0 == src.0 - 1 {
        assert(nb == ring_point(src, m, n, 1, 0, 1));
    } else if nb.0 == src.0 {
        assert(nb == ring_point(src, m, n, 1, 0, 2));
    } else {
        assert(nb == ring_point(src, m, n, 1, 0, 3));
    }
    let s: int = if ok0 {
        0
    } else if ok1 {
        1
    } else if ok2 {
        2
    } else {
        3
    };
    assert forall|r1: int, k1: int, s1: int|
        ring_valid(m, n, r1, k1, s1) && ring_before(r1, k1, s1, 1, 0, s) implies !closing_ok(
        f,
        base,
        arrow,
        #[trigger] ring_point(src, m, n, r1, k1, s1),
    ) by {
        assert(r1 == 1 && k1 == 0);
    }
    assert(first_closing(f, src, base, arrow, 1, 0, s));
    let (r2, k2, s2) = choose|r2: int, k2: int, s2: int| first_closing(f, src, base, arrow, r2, k2, s2);
    lemma_first_closing_unique(f, src, base, arrow, 1, 0, s, r2, k2, s2);
}

// ===== random sampler =====

/// The points of `s` whose cell is unclaimed, in their order.
pub open spec fn empties_of(f: Field, s: Seq<P>) -> Seq<P>
    decreases s.len(),
{
    if s.len() == 0 {
        s
    } else {
        let rest = empties_of(f, s.drop_last());
        if cell_at(f, s.last()) == Cell::Empty {
            rest.push(s.last())
        } else {
            rest
        }
    }
}

pub open spec fn all_in_bounds(s: Seq<P>, m: int, n: int) -> bool {
    forall|i: int| 0 <= i < s.len() ==> in_bounds(#[trigger] s[i], m, n)
}

proof fn lemma_empties_in_bounds(f: Field, s: Seq<P>)
    requires
        all_in_bounds(s, f.m as int, f.n as int),
    ensures
        all_in_bounds(empties_of(f, s), f.m as int, f.n as int),
        empties_of(f, s).len() <= s.len(),
    decreases s.len(),
{
    if s.len() > 0 {
        lemma_empties_in_bounds(f, s.drop_last());
    }
}

/// Keeps the drawn points whose cell is unclaimed, in draw order.
pub fn keep_empty(field: &Field, pts: &Vec<P>) -> (r: Vec<P>)
    requires
        field.wf(),
        all_in_bounds(pts@, field.m as int, field.n as int),
    ensures
        r@ == empties_of(*field, pts@),
{
    let mut out: Vec<P> = Vec::new();
    let mut i: usize = 0;
    while i < pts.len()
        invariant
            field.wf(),
            all_in_bounds(pts@, field.m as int, field.n as int),
            0 <= i <= pts.len(),
            out@ == empties_of(*field, pts@.subrange(0, i as int)),
        decreases pts.len() - i,
    {
        let p = pts[i];
        assert(pts@.subrange(0, i as int + 1).drop_last() =~= pts@.subrange(0, i as int));
        let cell = cell_of(field, &p);
        if cell == Cell::Empty {
            out.push(p);
        }
        i = i + 1;
    }
    assert(pts@.subrange(0, pts@.len() as int) =~= pts@);
    out
}

/// The first `count` points drawn from generator `g` on a board of `m` rows
/// and `n` columns (x first, then y), and the generator afterwards.
pub open spec fn draws(g: IsaacRng, m: int, n: int, count: nat) -> (Seq<P>, IsaacRng)
    decreases count,
{
    if count == 0 {
        (Seq::empty(), g)
    } else {
        let (pre, g1) = draws(g, m, n, (count - 1) as nat);
        let (x, g2) = range_step(g1, 0, n as i16);
        let (y, g3) = range_step(g2, 0, m as i16);
        (pre.push(P(x, y)), g3)
    }
}

/// Draws `attempts` points uniformly over the board, x first, then y.
pub fn draw_points(rng: &mut IsaacRng, m: usize, n: usize, attempts: usize) -> (r: Vec<P>)
    requires
        1 <= m <= MAX_SIDE,
        1 <= n <= MAX_SIDE,
    ensures
        r@.len() == attempts,
        all_in_bounds(r@, m as int, n as int),
        (r@, *final(rng)) == draws(*old(rng), m as int, n as int, attempts as nat),
{
    let ghost g0 = *rng;
    let mut buf: Vec<P> = Vec::new();
    let mut i: usize = 0;
    while i < attempts
        invariant
            1 <= m <= MAX_SIDE,
            1 <= n <= MAX_SIDE,
            0 <= i <= attempts,
            buf@.len() == i,
            all_in_bounds(buf@, m as int, n as int),
            (buf@, *rng) == draws(g0, m as int, n as int, i as nat),
        decreases attempts - i,
    {
        let x = gen_range_i16(rng, 0, n as i16);
        let y = gen_range_i16(rng, 0, m as i16);
        buf.push(P(x, y));
        i = i + 1;
    }
    buf
}

// ===== ordering by distance =====

/// Inserts `p` after every point of `s` that is not farther from `h`.
pub open spec fn insert_by_distance(h: P, s: Seq<P>, p: P) -> Seq<P>
    decreases s.len(),
{
    if s.len() == 0 {
        seq![p]
    } else if dist_spec(h, s.last()) <= dist_spec(h, p) {
        s.push(p)
    } else {
        insert_by_distance(h, s.drop_last(), p).push(s.last())
    }
}

/// `s` ordered by distance to `h`, points at equal distance in their order
/// in `s` (a stable sort).
pub open spec fn sort_by_distance(h: P, s: Seq<P>) -> Seq<P>
    decreases s.len(),
{
    if s.len() == 0 {
        s
    } else {
        insert_by_distance(h, sort_by_distance(h, s.drop_last()), s.last())
    }
}

proof fn lemma_insert_at(h: P, s: Seq<P>, p: P, j: int)
    requires
        0 <= j <= s.len(),
        forall|t: int| j <= t < s.len() ==> dist_spec(h, #[trigger] s[t]) > dist_spec(h, p),
        j > 0 ==> dist_spec(h, s[j - 1]) <= dist_spec(h, p),
    ensures
        insert_by_distance(h, s, p) == s.insert(j, p),
    decreases s.len(),
{
    if s.len() == 0 {
        assert(s.insert(j, p) =~= seq![p]);
    } else if j == s.len() {
        assert(s.insert(j, p) =~= s.push(p));
    } else {
        assert(dist_spec(h, s[s.len() - 1]) > dist_spec(h, p));
        lemma_insert_at(h, s.drop_last(), p, j);
        assert(s.drop_last().insert(j, p).push(s.last()) =~= s.insert(j, p));
    }
}

proof fn lemma_sorted_members(h: P, s: Seq<P>, m: int, n: int)
    requires
        all_in_bounds(s, m, n),
    ensures
        sort_by_distance(h, s).len() == s.len(),
        all_in_bounds(sort_by_distance(h, s), m, n),
    decreases s.len(),
{
    if s.len() > 0 {
        let rest = sort_by_distance(h, s.drop_last());
        lemma_sorted_members(h, s.drop_last(), m, n);
        lemma_insert_members(h, rest, s.last(), m, n);
    }
}

proof fn lemma_insert_members(h: P, s: Seq<P>, p: P, m: int, n: int)
    requires
        all_in_bounds(s, m, n),
        in_bounds(p, m, n),
    ensures
        insert_by_distance(h, s, p).len() == s.len() + 1,
        all_in_bounds(insert_by_distance(h, s, p), m, n),
    decreases s.len(),
{
    if s.len() > 0 && dist_spec(h, s.last()) > dist_spec(h, p) {
        lemma_insert_members(h, s.drop_last(), p, m, n);
    }
}

/// Sorts the points by distance to `head`, keeping the order of points at
/// equal distance.
pub fn sort_by_distance_to(head: &P, pts: &Vec<P>, m: usize, n: usize) -> (r: Vec<P>)
    requires
        1 <= m <= MAX_SIDE,
        1 <= n <= MAX_SIDE,
        in_bounds(*head, m as int, n as int),
        all_in_bounds(pts@, m as int, n as int),
    ensures
        r@ == sort_by_distance(*head, pts@),
{
    let mut out: Vec<P> = Vec::new();
    let mut i: usize = 0;
    while i < pts.len()
        invariant
            1 <= m <= MAX_SIDE,
            1 <= n <= MAX_SIDE,
            in_bounds(*head, m as int, n as int),
            all_in_bounds(pts@, m as int, n as int),
            0 <= i <= pts.len(),
            out@ == sort_by_distance(*head, pts@.subrange(0, i as int)),
            all_in_bounds(out@, m as int, n as int),
        decreases pts.len() - i,
    {
        let p = pts[i];
        let ghost before = out@;
        assert(pts@.subrange(0, i as int + 1).drop_last() =~= pts@.subrange(0, i as int));
        let d = distance(head, &p);
        let mut j: usize = out.len();
        while j > 0 && distance(head, &out[j - 1]) > d
            invariant
                out@ == before,
                all_in_bounds(out@, m as int, n as int),
                in_bounds(*head, m as int, n as int),
                1 <= m <= MAX_SIDE,
                1 <= n <= MAX_SIDE,
                d == dist_spec(*head, p),
                0 <= j <= out.len(),
                forall|t: int| j <= t < out@.len() ==> dist_spec(*head, #[trigger] out@[t]) > d,
            decreases j,
        {
            j = j - 1;
        }
        proof {
            lemma_insert_at(*head, out@, p, j as int);
            lemma_insert_members(*head, out@, p, m as int, n as int);
        }
        out.insert(j, p);
        i = i + 1;
    }
    assert(pts@.subrange(0, pts@.len() as int) =~= pts@);
    out
}

// ===== the planner =====

pub open spec fn min_spec(a: int, b: int) -> int {
    if a < b {
        a
    } else {
        b
    }
}

/// The target picked from the drawn points: among the unclaimed ones, ordered
/// by distance to `head`, the fifth, or the last if there are fewer than five.
pub open spec fn target_spec(f: Field, head: P, samples: Seq<P>) -> Option<P> {
    let c = sort_by_distance(head, empties_of(f, samples));
    if c.len() == 0 {
        None
    } else {
        Some(c[min_spec(4, c.len() - 1)])
    }
}

/// Picks the target cell of a new plan from the drawn points.
pub fn choose_target(field: &Field, head: &P, samples: &Vec<P>) -> (r: Option<P>)
    requires
        field.wf(),
        in_bounds(*head, field.m as int, field.n as int),
        all_in_bounds(samples@, field.m as int, field.n as int),
    ensures
        r == target_spec(*field, *head, samples@),
        r matches Some(t) ==> in_bounds(t, field.m as int, field.n as int),
{
    let empties = keep_empty(field, samples);
    proof {
        lemma_empties_in_bounds(*field, samples@);
        lemma_sorted_members(*head, empties@, field.m as int, field.n as int);
    }
    let sorted = sort_by_distance_to(head, &empties, field.m, field.n);
    if sorted.len() == 0 {
        None
    } else {
        let k: usize = if 4 < sorted.len() - 1 {
            4
        } else {
            sorted.len() - 1
        };
        Some(sorted[k])
    }
}

/// The route committed to when planning from `head` toward target `t`: the
/// outbound leg (horizontal first exactly when the target is not straight
/// above or below), then, when the ring search around `t` finds a closing
/// point, the closing leg to it with the coin deciding its axis order.
pub open spec fn planned_route(f: Field, head: P, t: P, coin: bool) -> Seq<P> {
    let d = direction_spec(head, t);
    let out = build_path_spec(head, t, d == Move::Left || d == Move::Right);
    match ring_search_spec(f, t, head, t) {
        Some(b) => out + build_path_spec(t, b, coin),
        None => out,
    }
}

/// A planned route is a 4-connected walk that starts next to the head, and
/// it passes through the target.
pub proof fn lemma_planned_route_is_walk(f: Field, head: P, t: P, coin: bool)
    ensures
        is_walk_from(head, planned_route(f, head, t, coin)),
        head != t ==> planned_route(f, head, t, coin).contains(t),
{
    let d = direction_spec(head, t);
    let hf = d == Move::Left || d == Move::Right;
    let out = build_path_spec(head, t, hf);
    lemma_build_path(head, t, hf);
    if head != t {
        assert(out[out.len() - 1] == t);
    }
    match ring_search_spec(f, t, head, t) {
        Some(b) => {
            let close = build_path_spec(t, b, coin);
            lemma_build_path(t, b, coin);
            lemma_concat_walk(head, t, out, close);
            if head != t {
                assert((out + close)[out.len() - 1] == t);
            }
        },
        None => {},
    }
}

/// What a plan looks like: its target is the fifth closest drawn unclaimed
/// point (or the farthest of fewer); the route starts with the outbound leg,
/// which reaches the target after as many steps as the target is far, and,
/// when the ring search finds a closing point, goes on to end at it; that
/// point is claimed and on the permitted side of the target.
pub proof fn lemma_plan_shape(f: Field, head: P, samples: Seq<P>, coin: bool)
    ensures
        match target_spec(f, head, samples) {
            None => sort_by_distance(head, empties_of(f, samples)).len() == 0,
            Some(t) => {
                let c = sort_by_distance(head, empties_of(f, samples));
                let d = direction_spec(head, t);
                let out = build_path_spec(head, t, d == Move::Left || d == Move::Right);
                let route = planned_route(f, head, t, coin);
                &&& c.len() > 0
                &&& t == c[min_spec(4, c.len() - 1)]
                &&& out.len() == dist_spec(head, t)
                &&& route.subrange(0, out.len() as int) == out
                &&& head != t ==> route[out.len() - 1] == t
                &&& match ring_search_spec(f, t, head, t) {
                    Some(b) => {
                        &&& closing_ok(f, head, t, b)
                        &&& route == out + build_path_spec(t, b, coin)
                        &&& route.len() > 0 ==> route.last() == b
                    },
                    None => route == out,
                }
            },
        },
{
    match target_spec(f, head, samples) {
        None => {},
        Some(t) => {
            let d = direction_spec(head, t);
            let hf = d == Move::Left || d == Move::Right;
            let out = build_path_spec(head, t, hf);
            lemma_build_path(head, t, hf);
            match ring_search_spec(f, t, head, t) {
                Some(b) => {
                    let (r, k, s) = choose|r: int, k: int, s: int| first_closing(f, t, head, t, r, k, s);
                    let close = build_path_spec(t, b, coin);
                    lemma_build_path(t, b, coin);
                    let route = out + close;
                    assert(route.subrange(0, out.len() as int) =~= out);
                    if head != t {
                        assert(route[out.len() - 1] == out[out.len() - 1]);
                    }
                    if route.len() > 0 {
                        if close.len() > 0 {
                            assert(route.last() == close.last());
                        } else {
                            assert(t == b);
                            assert(route =~= out);
                        }
                    }
                },
                None => {
                    assert(out.subrange(0, out.len() as int) =~= out);
                },
            }
        },
    }
}

/// What the planner keeps between turns: the previous and the current body
/// (Cartesian, head first), the committed route and the index of its next
/// waypoint.
pub struct PlanView {
    pub cur: Seq<P>,
    pub last: Seq<P>,
    pub route: Seq<P>,
    pub next: int,
}

/// The planner state just after registration.
pub open spec fn initial_view() -> PlanView {
    PlanView { cur: Seq::empty(), last: Seq::empty(), route: Seq::empty(), next: 0 }
}

/// A route is committed and has waypoints left.
pub open spec fn following(v: PlanView) -> bool {
    v.route.len() > 0 && v.next < v.route.len()
}

/// The state once the new body is seen: bodies shift, and a body that shrank
/// drops the committed route.
pub open spec fn observed(v: PlanView, body: Seq<P>) -> PlanView {
    if 0 < body.len() < v.cur.len() {
        PlanView { cur: body, last: v.cur, route: Seq::empty(), next: 0 }
    } else {
        PlanView { cur: body, last: v.cur, ..v }
    }
}

/// Planning from `head`: the move and the state it leaves.
pub open spec fn plan_spec(v: PlanView, f: Field, head: P, samples: Seq<P>, coin: bool) -> (PlanView, Move) {
    match target_spec(f, head, samples) {
        None => (v, Move::Stop),
        Some(t) => {
            let route = planned_route(f, head, t, coin);
            if route.len() == 0 {
                (PlanView { route: route, next: 0, ..v }, Move::Stop)
            } else {
                (PlanView { route: route, next: 1, ..v }, direction_spec(head, route[0]))
            }
        },
    }
}

/// One turn of the planner: given the state, the board, the body (head
/// first), the drawn points and the coin, the next state and the move.
pub open spec fn turn_spec(v: PlanView, f: Field, body: Seq<P>, samples: Seq<P>, coin: bool) -> (PlanView, Move) {
    let v1 = observed(v, body);
    if body.len() == 0 {
        (v1, Move::Stop)
    } else if following(v1) {
        (PlanView { next: v1.next + 1, ..v1 }, direction_spec(body[0], v1.route[v1.next]))
    } else {
        plan_spec(v1, f, body[0], samples, coin)
    }
}

/// A turn draws points (and perhaps a coin) only when it plans.
pub open spec fn plans(v: PlanView, body: Seq<P>) -> bool {
    body.len() > 0 && !following(observed(v, body))
}

/// The per-player state carried from turn to turn.
#[derive(Clone, Debug)]
pub struct Planner {
    pub cur_me: Vec<P>,
    pub last_me: Vec<P>,
    pub path: Vec<P>,
    pub next_head_pos: usize,
}

impl View for Planner {
    type V = PlanView;

    open spec fn view(&self) -> PlanView {
        PlanView {
            cur: self.cur_me@,
            last: self.last_me@,
            route: self.path@,
            next: self.next_head_pos as int,
        }
    }
}

impl Planner {
    pub fn new() -> (r: Planner)
        ensures
            r@ == initial_view(),
    {
        Planner { cur_me: Vec::new(), last_me: Vec::new(), path: Vec::new(), next_head_pos: 0 }
    }

    /// Takes in the new body; drops the route when the body shrank.
    fn observe(&mut self, body: Vec<P>)
        ensures
            final(self)@ == observed(old(self)@, body@),
    {
        let shrunk = body.len() > 0 && body.len() < self.cur_me.len();
        let mut prev = body;
        std::mem::swap(&mut self.cur_me, &mut prev);
        self.last_me = prev;
        if shrunk {
            self.path = Vec::new();
            self.next_head_pos = 0;
        }
    }

    fn is_following(&self) -> (r: bool)
        ensures
            r == following(self@),
    {
        !self.path.is_empty() && self.next_head_pos < self.path.len()
    }

    fn follow(&mut self, head: &P) -> (r: Move)
        requires
            following(old(self)@),
        ensures
            final(self)@ == (PlanView { next: old(self)@.next + 1, ..old(self)@ }),
            r == direction_spec(*head, old(self)@.route[old(self)@.next]),
    {
        let r = direction(head, &self.path[self.next_head_pos]);
        assert(self.next_head_pos < self.path.len());
        self.next_head_pos = self.next_head_pos + 1;
        r
    }

    /// Commits to the route toward `target` and takes its first step.
    fn commit(&mut self, field: &Field, head: &P, target: &P, closing: Option<P>, coin: bool) -> (r: Move)
        requires
            closing == ring_search_spec(*field, *target, *head, *target),
        ensures
            final(self)@ == (PlanView { route: planned_route(*field, *head, *target, coin), next: (if planned_route(*field, *head, *target, coin).len() == 0 { 0int } else { 1int }), ..old(self)@ }),
            r == (if planned_route(*field, *head, *target, coin).len() == 0 { Move::Stop } else { direction_spec(*head, planned_route(*field, *head, *target, coin)[0]) }),
    {
        let d = direction(head, target);
        let horz = d == Move::Left || d == Move::Right;
        let mut path = build_path(head, target, horz);
        match closing {
            Some(b) => {
                let mut appendix = build_path(target, &b, coin);
                path.append(&mut appendix);
            },
            None => {},
        }
        self.path = path;
        if self.path.len() == 0 {
            self.next_head_pos = 0;
            Move::Stop
        } else {
            self.next_head_pos = 1;
            direction(head, &self.path[0])
        }
    }

    /// One turn with the drawn points and the coin given: the body is the
    /// player's, Cartesian, head first.
    pub fn step(&mut self, field: &Field, body: Vec<P>, samples: &Vec<P>, coin: bool) -> (r: Move)
        requires
            field.wf(),
            all_in_bounds(body@, field.m as int, field.n as int),
            all_in_bounds(samples@, field.m as int, field.n as int),
        ensures
            (final(self)@, r) == turn_spec(old(self)@, *field, body@, samples@, coin),
    {
        self.observe(body);
        if self.cur_me.len() == 0 {
            return Move::Stop;
        }
        let head = self.cur_me[0];
        assert(in_bounds(head, field.m as int, field.n as int));
        if self.is_following() {
            return self.follow(&head);
        }
        match choose_target(field, &head, samples) {
            None => Move::Stop,
            Some(t) => {
                let closing = find_closest(field, &t, &head, &t);
                self.commit(field, &head, &t, closing, coin)
            },
        }
    }
}

/// A body shrinking between two turns drops the committed route: the move
/// that follows is the planning move, whatever route had been committed.
pub proof fn lemma_shrink_replans(
    v1: PlanView,
    v2: PlanView,
    f: Field,
    body: Seq<P>,
    samples: Seq<P>,
    coin: bool,
)
    requires
        v1.cur == v2.cur,
        0 < body.len() < v1.cur.len(),
    ensures
        turn_spec(v1, f, body, samples, coin) == turn_spec(v2, f, body, samples, coin),
        turn_spec(v1, f, body, samples, coin) == plan_spec(
            PlanView { cur: body, last: v1.cur, route: Seq::empty(), next: 0 },
            f,
            body[0],
            samples,
            coin,
        ),
{
}

/// One turn's input: the board, the body (Cartesian, head first), the drawn
/// points and the coin.
pub open spec fn run_spec(v: PlanView, turns: Seq<(Field, Seq<P>, Seq<P>, bool)>) -> Seq<Move>
    decreases turns.len(),
{
    if turns.len() == 0 {
        Seq::empty()
    } else {
        let (f, body, samples, coin) = turns[0];
        let (v2, mv) = turn_spec(v, f, body, samples, coin);
        seq![mv] + run_spec(v2, turns.drop_first())
    }
}

/// Two planners that start from the same state and are handed the same
/// boards, bodies and draws emit the same moves, turn after turn.
pub proof fn lemma_planner_deterministic(
    v1: PlanView,
    v2: PlanView,
    turns: Seq<(Field, Seq<P>, Seq<P>, bool)>,
)
    requires
        v1 == v2,
    ensures
        run_spec(v1, turns) == run_spec(v2, turns),
        run_spec(v1, turns).len() == turns.len(),
    decreases turns.len(),
{
    if turns.len() > 0 {
        let (f, body, samples, coin) = turns[0];
        let (w, mv) = turn_spec(v1, f, body, samples, coin);
        lemma_planner_deterministic(w, w, turns.drop_first());
    }
}

/// The body of player `idx` in Cartesian space, head first.
pub open spec fn body_spec(gs: GameState, idx: int) -> Seq<P> {
    let pts = gs.players@[idx].0@;
    Seq::new(pts.len(), |i: int| to_cartesian_spec(pts[pts.len() - 1 - i], gs.field.m as int))
}

/// The body of player `idx` in Cartesian space, head first.
pub fn player(gs: &GameState, idx: usize) -> (r: Vec<P>)
    requires
        gs.field.wf(),
        idx < gs.players@.len(),
        gs.body_in_board(idx as int),
    ensures
        r@ == body_spec(*gs, idx as int),
        all_in_bounds(r@, gs.field.m as int, gs.field.n as int),
{
    let pts = &gs.players[idx].0;
    let mut out: Vec<P> = Vec::new();
    let mut i: usize = pts.len();
    while i > 0
        invariant
            gs.field.wf(),
            idx < gs.players@.len(),
            gs.body_in_board(idx as int),
            *pts == gs.players@[idx as int].0,
            0 <= i <= pts.len(),
            out@.len() == pts.len() - i,
            forall|t: int| 0 <= t < out@.len() ==> #[trigger] out@[t] == to_cartesian_spec(pts@[pts.len() - 1 - t], gs.field.m as int),
            all_in_bounds(out@, gs.field.m as int, gs.field.n as int),
        decreases i,
    {
        i = i - 1;
        assert(0 <= pts@[i as int].0 < gs.field.m && 0 <= pts@[i as int].1 < gs.field.n);
        let c = to_cartesian(&pts[i], gs.field.m);
        out.push(c);
    }
    assert(out@ =~= body_spec(*gs, idx as int));
    out
}

/// A turn of player `idx` on `gs` that took the state from `v` to `w` and
/// emitted `r`, having drawn `samples` (twenty of them when it planned) and
/// `coin`.
pub open spec fn drawn_turn(
    gs: GameState,
    idx: int,
    v: PlanView,
    w: PlanView,
    r: Move,
    samples: Seq<P>,
    coin: bool,
) -> bool {
    &&& all_in_bounds(samples, gs.field.m as int, gs.field.n as int)
    &&& plans(v, body_spec(gs, idx)) ==> samples.len() == 20
    &&& (w, r) == turn_spec(v, gs.field, body_spec(gs, idx), samples, coin)
}

/// A whole turn of a player with planner state `v` and generator `g`, on
/// board `f` with body `body`: the new state, the move and the generator
/// afterwards. Twenty points are drawn only when the turn plans, and a coin
/// only when the plan closes its loop.
pub open spec fn bot_turn(v: PlanView, g: IsaacRng, f: Field, body: Seq<P>) -> (PlanView, Move, IsaacRng) {
    if !plans(v, body) {
        let (w, mv) = turn_spec(v, f, body, Seq::empty(), false);
        (w, mv, g)
    } else {
        let (samples, g1) = draws(g, f.m as int, f.n as int, 20);
        let closes = match target_spec(f, body[0], samples) {
            Some(t) => ring_search_spec(f, t, body[0], t) is Some,
            None => false,
        };
        let (coin, g2) = if closes { coin_step(g1) } else { (false, g1) };
        let (w, mv) = turn_spec(v, f, body, samples, coin);
        (w, mv, g2)
    }
}

/// A player driven by the planner, with its own random generator.
#[derive(Debug)]
pub struct Bot2 {
    idx: usize,
    random: IsaacRng,
    planner: Planner,
}

impl Bot2 {
    pub closed spec fn idx_spec(&self) -> usize {
        self.idx
    }

    pub closed spec fn plan_view(&self) -> PlanView {
        self.planner@
    }

    /// The player's random generator.
    pub closed spec fn generator(&self) -> IsaacRng {
        self.random
    }

    /// The cursor into the committed route is never negative.
    pub proof fn lemma_cursor_nonnegative(&self)
        ensures
            self.plan_view().next >= 0,
    {
    }

/// A player of index `idx` with a generator seeded by the system, or from
    /// seed 0 when the system offers no entropy (`reset` reseeds it before a
    /// match in any case).
    pub fn new(idx: u8) -> (r: Bot2)
        ensures
            r.idx_spec() == idx,
            r.plan_view() == initial_view(),
    {
        let random = match isaac_from_entropy() {
            Some(g) => g,
            None => isaac_from_seed(0),
        };
        Bot2 { idx: idx as usize, random, planner: Planner::new() }
    }

    /// Registers the player of index `idx` for a match: the planner
    /// state starts afresh and the generator is seeded from `seed`.
    pub fn reset(&mut self, _gs: &GameState, idx: u8, seed: u64)
        ensures
            final(self).idx_spec() == idx,
            final(self).plan_view() == initial_view(),
            final(self).generator() == seeded(seed),
    {
        self.idx = idx as usize;
        self.random = isaac_from_seed(seed);
        self.planner = Planner::new();
    }

    /// The player's move for this turn. Twenty points are drawn when the turn
    /// plans, and a coin when the plan closes its loop; the move and the new
    /// state are those of `turn_spec` for what was drawn.
    pub fn do_move(&mut self, gs: &GameState) -> (r: Move)
        requires
            gs.field.wf(),
            old(self).idx_spec() < gs.players@.len(),
            gs.body_in_board(old(self).idx_spec() as int),
        ensures
            final(self).idx_spec() == old(self).idx_spec(),
            !plans(old(self).plan_view(), body_spec(*gs, old(self).idx_spec() as int))
                ==> final(self).generator() == old(self).generator(),
            (final(self).plan_view(), r, final(self).generator()) == bot_turn(
                old(self).plan_view(),
                old(self).generator(),
                gs.field,
                body_spec(*gs, old(self).idx_spec() as int),
            ),
            exists|samples: Seq<P>, coin: bool|
                drawn_turn(
                    *gs,
                    old(self).idx_spec() as int,
                    old(self).plan_view(),
                    final(self).plan_view(),
                    r,
                    samples,
                    coin,
                ),
    {
        let field = &gs.field;
        let body = player(gs, self.idx);
        self.planner.observe(body);
        if self.planner.cur_me.len() == 0 {
            assert(drawn_turn(*gs, old(self).idx_spec() as int, old(self).plan_view(), self.plan_view(), Move::Stop, Seq::empty(), false));
            return Move::Stop;
        }
        let head = self.planner.cur_me[0];
        if self.planner.is_following() {
            let r = self.planner.follow(&head);
            assert(drawn_turn(*gs, old(self).idx_spec() as int, old(self).plan_view(), self.plan_view(), r, Seq::empty(), false));
            return r;
        }
        let samples = draw_points(&mut self.random, field.m, field.n, 20);
        match choose_target(field, &head, &samples) {
            None => {
                assert(drawn_turn(*gs, old(self).idx_spec() as int, old(self).plan_view(), self.plan_view(), Move::Stop, samples@, false));
                Move::Stop
            },
            Some(t) => {
                let closing = find_closest(field, &t, &head, &t);
                let coin = if closing.is_some() {
                    gen_bool(&mut self.random)
                } else {
                    false
                };
                let r = self.planner.commit(field, &head, &t, closing, coin);
                assert(drawn_turn(*gs, old(self).idx_spec() as int, old(self).plan_view(), self.plan_view(), r, samples@, coin));
                r
            },
        }
    }
}

/// Two players in the same state, with the same generator, that play a turn
/// on the same board emit the same move and stay in the same state. Both
/// start alike after `reset` with the same seed, so their moves agree turn
/// after turn.
pub proof fn lemma_same_state_same_turn(
    a: Bot2,
    a2: Bot2,
    ra: Move,
    b: Bot2,
    b2: Bot2,
    rb: Move,
    gs: GameState,
)
    requires
        a.idx_spec() == b.idx_spec(),
        a.plan_view() == b.plan_view(),
        a.generator() == b.generator(),
        a2.idx_spec() == a.idx_spec(),
        b2.idx_spec() == b.idx_spec(),
        (a2.plan_view(), ra, a2.generator()) == bot_turn(
            a.plan_view(),
            a.generator(),
            gs.field,
            body_spec(gs, a.idx_spec() as int),
        ),
        (b2.plan_view(), rb, b2.generator()) == bot_turn(
            b.plan_view(),
            b.generator(),
            gs.field,
            body_spec(gs, b.idx_spec() as int),
        ),
    ensures
        ra == rb,
        a2.idx_spec() == b2.idx_spec(),
        a2.plan_view() == b2.plan_view(),
        a2.generator() == b2.generator(),
{
}

/// On a 5×5 board with a border round unclaimed cells, a planner at (2,2)
/// whose draws are the four cells next to the corners and (2,1) targets the
/// farthest of them, (3,3): it leaves right, reaches the target on its second
/// step, and closes the loop on the border cell (3,4) above it, whatever the
/// coin.
pub proof fn lemma_small_board_plan(v: PlanView, f: Field, coin: bool)
    requires
        f.wf(),
        f.m == 5,
        f.n == 5,
        forall|i: int, j: int| 0 <= i < 5 && 0 <= j < 5 ==> f.cell_spec(i, j) == default_cell(5, 5, i, j),
    ensures
        plan_spec(v, f, P(2, 2), seq![P(1, 1), P(3, 1), P(1, 3), P(3, 3), P(2, 1)], coin) == (
        PlanView { route: seq![P(3, 2), P(3, 3), P(3, 4)], next: 1, ..v },
        Move::Right,
    ),
{
    let head = P(2, 2);
    let samples = seq![P(1, 1), P(3, 1), P(1, 3), P(3, 3), P(2, 1)];
    // every drawn cell is unclaimed
    assert(cell_at(f, P(1, 1)) == Cell::Empty);
    assert(cell_at(f, P(3, 1)) == Cell::Empty);
    assert(cell_at(f, P(1, 3)) == Cell::Empty);
    assert(cell_at(f, P(3, 3)) == Cell::Empty);
    assert(cell_at(f, P(2, 1)) == Cell::Empty);
    reveal_with_fuel(empties_of, 6);
    assert(samples.drop_last() =~= seq![P(1, 1), P(3, 1), P(1, 3), P(3, 3)]);
    assert(seq![P(1, 1), P(3, 1), P(1, 3), P(3, 3)].drop_last() =~= seq![P(1, 1), P(3, 1), P(1, 3)]);
    assert(seq![P(1, 1), P(3, 1), P(1, 3)].drop_last() =~= seq![P(1, 1), P(3, 1)]);
    assert(seq![P(1, 1), P(3, 1)].drop_last() =~= seq![P(1, 1)]);
    assert(seq![P(1, 1)].drop_last() =~= Seq::<P>::empty());
    assert(empties_of(f, seq![P(1, 1)]) =~= seq![P(1, 1)]);
    assert(empties_of(f, seq![P(1, 1), P(3, 1)]) =~= seq![P(1, 1), P(3, 1)]);
    assert(empties_of(f, seq![P(1, 1), P(3, 1), P(1, 3)]) =~= seq![P(1, 1), P(3, 1), P(1, 3)]);
    assert(empties_of(f, seq![P(1, 1), P(3, 1), P(1, 3), P(3, 3)]) =~= seq![P(1, 1), P(3, 1), P(1, 3), P(3, 3)]);
    assert(empties_of(f, samples) =~= samples);
    // ordered by distance: (2,1) first, the others keep their order
    reveal_with_fuel(sort_by_distance, 6);
    reveal_with_fuel(insert_by_distance, 6);
    let s1 = seq![P(1, 1)];
    let s2 = seq![P(1, 1), P(3, 1)];
    let s3 = seq![P(1, 1), P(3, 1), P(1, 3)];
    let s4 = seq![P(1, 1), P(3, 1), P(1, 3), P(3, 3)];
    assert(sort_by_distance(head, Seq::<P>::empty()) =~= Seq::<P>::empty());
    assert(sort_by_distance(head, s1) =~= s1);
    assert(sort_by_distance(head, s2) =~= s2);
    assert(sort_by_distance(head, s3) =~= s3);
    assert(sort_by_distance(head, s4) =~= s4);
    let sorted = seq![P(2, 1), P(1, 1), P(3, 1), P(1, 3), P(3, 3)];
    assert(s4.drop_last() =~= s3);
    assert(s3.drop_last() =~= s2);
    assert(s2.drop_last() =~= s1);
    assert(s1.drop_last() =~= Seq::<P>::empty());
    assert(insert_by_distance(head, Seq::<P>::empty(), P(2, 1)) =~= seq![P(2, 1)]);
    assert(insert_by_distance(head, s1, P(2, 1)) =~= seq![P(2, 1), P(1, 1)]);
    assert(insert_by_distance(head, s2, P(2, 1)) =~= seq![P(2, 1), P(1, 1), P(3, 1)]);
    assert(insert_by_distance(head, s3, P(2, 1)) =~= seq![P(2, 1), P(1, 1), P(3, 1), P(1, 3)]);
    assert(insert_by_distance(head, s4, P(2, 1)) =~= sorted);
    assert(sort_by_distance(head, samples) =~= sorted);
    let t = P(3, 3);
    assert(target_spec(f, head, samples) == Some(t));
    // the ring search closes on (3,4), the first candidate of the first ring
    let b = P(3, 4);
    assert(ring_point(t, 5, 5, 1, 0, 0) == b);
    assert(cell_at(f, b) == Cell::Border);
    assert(first_closing(f, t, head, t, 1, 0, 0)) by {
        assert forall|r1: int, k1: int, s1: int|
            ring_valid(5, 5, r1, k1, s1) && ring_before(r1, k1, s1, 1, 0, 0) implies !closing_ok(
            f,
            head,
            t,
            #[trigger] ring_point(t, 5, 5, r1, k1, s1),
        ) by {}
    }
    let (r2, k2, s2) = choose|r2: int, k2: int, s2: int| first_closing(f, t, head, t, r2, k2, s2);
    lemma_first_closing_unique(f, t, head, t, 1, 0, 0, r2, k2, s2);
    assert(ring_search_spec(f, t, head, t) == Some(b));
    // the route: right to (3,2), up to the target, up again to the border
    reveal(crate::geometry::hrun);
    reveal(crate::geometry::vrun);
    assert(crate::geometry::hrun(2, 2, 3) =~= seq![P(3, 2)]);
    assert(crate::geometry::vrun(3, 2, 3) =~= seq![P(3, 3)]);
    assert(crate::geometry::vrun(3, 3, 4) =~= seq![P(3, 4)]);
    assert(crate::geometry::hrun(4, 3, 3) =~= Seq::<P>::empty());
    assert(crate::geometry::vrun(3, 3, 3) =~= Seq::<P>::empty());
    assert(crate::geometry::hrun(3, 3, 3) =~= Seq::<P>::empty());
    assert(build_path_spec(head, t, true) =~= seq![P(3, 2), P(3, 3)]);
    assert(build_path_spec(t, b, coin) =~= seq![P(3, 4)]);
    assert(planned_route(f, head, t, coin) =~= seq![P(3, 2), P(3, 3), P(3, 4)]);
}

} // verus!
