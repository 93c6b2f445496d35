//! Cartesian planning geometry: coordinate transform, Manhattan distance,
//! directions, the L-shaped path synthesizer and the visibility guard.
use vstd::prelude::*;

use crate::model::{Move, Point};

verus! {

/// A point in Cartesian space: `P(x, y)`, x to the right, y up, origin at the
/// bottom-left of the board.
#[derive(Clone, Copy, PartialEq, Eq, Structural, Debug, Hash)]
pub struct P(pub i16, pub i16);

pub open spec fn abs_spec(v: int) -> int {
    if v < 0 { -v } else { v }
}

/// Manhattan distance between two Cartesian points.
pub open spec fn dist_spec(p: P, q: P) -> int {
    abs_spec(p.0 - q.0) + abs_spec(p.1 - q.1)
}

/// Two points are 4-directionally adjacent.
pub open spec fn adjacent(p: P, q: P) -> bool {
    dist_spec(p, q) == 1
}

/// Matrix point `p` of a board with `m` rows, seen in Cartesian space.
pub open spec fn to_cartesian_spec(p: Point, m: int) -> P {
    P(p.1, (m - 1 - p.0) as i16)
}

/// Cartesian point `c` of a board with `m` rows, seen in matrix space.
pub open spec fn to_grid_spec(c: P, m: int) -> Point {
    Point((m - 1 - c.1) as i16, c.0)
}

/// `p` lies on a board of `m` rows and `n` columns.
pub open spec fn point_in_board(p: Point, m: int, n: int) -> bool {
    0 <= p.0 < m && 0 <= p.1 < n
}

/// `c` lies on a board of `m` rows and `n` columns.
pub open spec fn in_bounds(c: P, m: int, n: int) -> bool {
    0 <= c.0 < n && 0 <= c.1 < m
}

/// Converts a matrix point to Cartesian coordinates: `x = column`,
/// `y = rows - 1 - row`.
pub fn to_cartesian(p: &Point, m: usize) -> (r: P)
    requires
        1 <= m <= i16::MAX,
        0 <= p.0 < m,
    ensures
        r == to_cartesian_spec(*p, m as int),
{
    P(p.1, (m as i16) - 1 - p.0)
}

/// Converts a Cartesian point back to matrix coordinates.
pub fn to_grid(c: &P, m: usize) -> (r: Point)
    requires
        1 <= m <= i16::MAX,
        0 <= c.1 < m,
    ensures
        r == to_grid_spec(*c, m as int),
{
    Point((m as i16) - 1 - c.1, c.0)
}

/// The two transforms are inverse: every point of a board of `m` rows comes
/// back unchanged from Cartesian space, and so does every Cartesian point.
pub proof fn lemma_coordinates_round_trip(p: Point, c: P, m: int, n: int)
    requires
        1 <= m <= i16::MAX,
        point_in_board(p, m, n),
        in_bounds(c, m, n),
    ensures
        to_grid_spec(to_cartesian_spec(p, m), m) == p,
        in_bounds(to_cartesian_spec(p, m), m, n),
        to_cartesian_spec(to_grid_spec(c, m), m) == c,
        point_in_board(to_grid_spec(c, m), m, n),
{
}

/// Manhattan distance `|Δx| + |Δy|`.
pub fn distance(p: &P, q: &P) -> (r: i16)
    requires
        dist_spec(*p, *q) <= i16::MAX,
    ensures
        r == dist_spec(*p, *q),
{
    let dx: i32 = p.0 as i32 - q.0 as i32;
    let dy: i32 = p.1 as i32 - q.1 as i32;
    let ax: i32 = if dx < 0 { -dx } else { dx };
    let ay: i32 = if dy < 0 { -dy } else { dy };
    (ax + ay) as i16
}

/// The move from `src` toward `dst`: on the same column Down when `dst` is not
/// above `src`, else Up; otherwise Left when `dst` is to the left, else Right.
/// A diagonal step is classified by its horizontal part.
pub open spec fn direction_spec(src: P, dst: P) -> Move {
    if dst.0 == src.0 {
        if dst.1 <= src.1 { Move::Down } else { Move::Up }
    } else if dst.0 < src.0 {
        Move::Left
    } else {
        Move::Right
    }
}

pub fn direction(src: &P, dst: &P) -> (r: Move)
    ensures
        r == direction_spec(*src, *dst),
{
    if dst.0 == src.0 && dst.1 <= src.1 {
        Move::Down
    } else if dst.0 == src.0 && dst.1 > src.1 {
        Move::Up
    } else if dst.0 < src.0 {
        Move::Left
    } else {
        Move::Right
    }
}

pub open spec fn sign(v: int) -> int {
    if v < 0 { -1 } else if v == 0 { 0 } else { 1 }
}

/// Whether `cur` lies on the permitted side of `arrow`, given the heading from
/// `base` to `arrow`, so that a closing leg from `arrow` toward `cur` does not
/// run back across the segment `base`→`arrow`.
///
/// Heading straight along an axis, `cur` must not lie behind `arrow` on that
/// axis; heading diagonally, `cur` must lie in the quadrant ahead of `arrow`.
/// With no heading at all (`base == arrow`) any point off both of `arrow`'s
/// lines is permitted.
pub open spec fn may_be_selected_spec(base: P, arrow: P, cur: P) -> bool {
    let hx = sign(arrow.0 - base.0);
    let hy = sign(arrow.1 - base.1);
    if hx == 0 && hy == 0 {
        cur.0 != arrow.0 && cur.1 != arrow.1
    } else {
        (hx > 0 ==> arrow.0 <= cur.0) && (hx < 0 ==> cur.0 <= arrow.0) && (hy > 0 ==> arrow.1
            <= cur.1) && (hy < 0 ==> cur.1 <= arrow.1)
    }
}

pub fn may_be_selected(base: &P, arrow: &P, cur: &P) -> (r: bool)
    ensures
        r == may_be_selected_spec(*base, *arrow, *cur),
{
    let (xb, yb) = (base.0, base.1);
    let (xa, ya) = (arrow.0, arrow.1);
    let (xc, yc) = (cur.0, cur.1);
    if xb == xa && yb < ya {
        ya <= yc
    } else if xb > xa && yb < ya {
        xc <= xa && ya <= yc
    } else if xb > xa && yb == ya {
        xc <= xa
    } else if xb > xa && yb > ya {
        xc <= xa && yc <= ya
    } else if xb == xa && yb > ya {
        yc <= ya
    } else if xb < xa && yb > ya {
        xa <= xc && yc <= ya
    } else if xb < xa && yb == ya {
        xa <= xc
    } else if xb < xa && yb < ya {
        xa <= xc && ya <= yc
    } else {
        xa != xc && ya != yc
    }
}

/// The `i`-th value strictly after `a` on the way to `b`.
pub open spec fn run_at(a: int, b: int, i: int) -> int {
    if a <= b {
        a + 1 + i
    } else {
        a - 1 - i
    }
}

/// The straight run along the x-axis at height `y`, from `a` (excluded) to `b`
/// (included).
#[verifier::opaque]
pub open spec fn hrun(y: i16, a: i16, b: i16) -> Seq<P> {
    Seq::new(abs_spec(b - a) as nat, |i: int| P(run_at(a as int, b as int, i) as i16, y))
}

/// The straight run along the y-axis at abscissa `x`, from `a` (excluded) to
/// `b` (included).
#[verifier::opaque]
pub open spec fn vrun(x: i16, a: i16, b: i16) -> Seq<P> {
    Seq::new(abs_spec(b - a) as nat, |i: int| P(x, run_at(a as int, b as int, i) as i16))
}

/// The L-shaped route from `src` (excluded) to `dst` (included): the
/// horizontal run first, then the vertical one, or the other way round.
pub open spec fn build_path_spec(src: P, dst: P, horz_first: bool) -> Seq<P> {
    if horz_first {
        hrun(src.1, src.0, dst.0) + vrun(dst.0, src.1, dst.1)
    } else {
        vrun(src.0, src.1, dst.1) + hrun(dst.1, src.0, dst.0)
    }
}

fn push_hrun(path: &mut Vec<P>, y: i16, a: i16, b: i16)
    ensures
        final(path)@ == old(path)@ + hrun(y, a, b),
{
    let ghost start = path@;
    let mut x: i16 = a;
    proof {
        reveal(hrun);
        assert(hrun(y, a, a) =~= Seq::<P>::empty());
    }
    if a <= b {
        while x < b
            invariant
                a <= x <= b,
                path@ == start + hrun(y, a, x),
            decreases b - x,
        {
            x = x + 1;
            path.push(P(x, y));
            reveal(hrun);
            assert(hrun(y, a, x) =~= hrun(y, a, (x - 1) as i16).push(P(x, y)));
        }
    } else {
        while x > b
            invariant
                b <= x <= a,
                path@ == start + hrun(y, a, x),
            decreases x - b,
        {
            x = x - 1;
            path.push(P(x, y));
            reveal(hrun);
            assert(hrun(y, a, x) =~= hrun(y, a, (x + 1) as i16).push(P(x, y)));
        }
    }
    assert(path@ =~= start + hrun(y, a, b));
}

fn push_vrun(path: &mut Vec<P>, x: i16, a: i16, b: i16)
    ensures
        final(path)@ == old(path)@ + vrun(x, a, b),
{
    let ghost start = path@;
    let mut y: i16 = a;
    proof {
        reveal(vrun);
        assert(vrun(x, a, a) =~= Seq::<P>::empty());
    }
    if a <= b {
        while y < b
            invariant
                a <= y <= b,
                path@ == start + vrun(x, a, y),
            decreases b - y,
        {
            y = y + 1;
            path.push(P(x, y));
            reveal(vrun);
            assert(vrun(x, a, y) =~= vrun(x, a, (y - 1) as i16).push(P(x, y)));
        }
    } else {
        while y > b
            invariant
                b <= y <= a,
                path@ == start + vrun(x, a, y),
            decreases y - b,
        {
            y = y - 1;
            path.push(P(x, y));
            reveal(vrun);
            assert(vrun(x, a, y) =~= vrun(x, a, (y + 1) as i16).push(P(x, y)));
        }
    }
    assert(path@ =~= start + vrun(x, a, b));
}

/// Builds the L-shaped route from `src` to `dst` (see `build_path_spec`).
pub fn build_path(src: &P, dst: &P, horz_first: bool) -> (r: Vec<P>)
    ensures
        r@ == build_path_spec(*src, *dst, horz_first),
{
    let mut path: Vec<P> = Vec::new();
    if horz_first {
        push_hrun(&mut path, src.1, src.0, dst.0);
        push_vrun(&mut path, dst.0, src.1, dst.1);
    } else {
        push_vrun(&mut path, src.0, src.1, dst.1);
        push_hrun(&mut path, dst.1, src.0, dst.0);
    }
    assert(path@ =~= build_path_spec(*src, *dst, horz_first));
    path
}

/// `s` is a 4-connected walk that starts next to `src`.
pub open spec fn is_walk_from(src: P, s: Seq<P>) -> bool {
    forall|i: int|
        0 <= i < s.len() ==> adjacent(if i == 0 { src } else { s[i - 1] }, #[trigger] s[i])
}

/// No point occurs twice in `s`.
pub open spec fn no_duplicates(s: Seq<P>) -> bool {
    forall|i: int, j: int| 0 <= i < j < s.len() ==> s[i] != s[j]
}

proof fn lemma_run_at(a: i16, b: i16, i: int)
    requires
        0 <= i < abs_spec(b - a),
    ensures
        run_at(a as int, b as int, i) as i16 as int == run_at(a as int, b as int, i),
        (a <= b ==> a < run_at(a as int, b as int, i) <= b),
        (b < a ==> b <= run_at(a as int, b as int, i) < a),
{
}

#[verifier::spinoff_prover]
#[verifier::rlimit(60)]
proof fn lemma_hrun(y: i16, a: i16, b: i16)
    ensures
        is_walk_from(P(a, y), hrun(y, a, b)),
        no_duplicates(hrun(y, a, b)),
        hrun(y, a, b).len() == abs_spec(b - a),
        hrun(y, a, b).len() > 0 ==> hrun(y, a, b).last() == P(b, y),
        forall|i: int| 0 <= i < hrun(y, a, b).len() ==> (#[trigger] hrun(y, a, b)[i]).1 == y
            && hrun(y, a, b)[i].0 != a && (a <= b ==> a < hrun(y, a, b)[i].0 <= b) && (b < a
            ==> b <= hrun(y, a, b)[i].0 < a),
{
    reveal(hrun);
    let s = hrun(y, a, b);
    assert forall|i: int| 0 <= i < s.len() implies #[trigger] s[i].0 as int == run_at(a as int, b as int, i)
        && s[i].1 == y && s[i].0 != a && (a <= b ==> a < s[i].0 <= b) && (b < a ==> b <= s[i].0 < a) by {
        lemma_run_at(a, b, i);
    }
    assert forall|i: int| 0 <= i < s.len() implies adjacent(
        if i == 0 { P(a, y) } else { s[i - 1] },
        #[trigger] s[i],
    ) by {
        if i > 0 {
            assert(s[i - 1].0 as int == run_at(a as int, b as int, i - 1));
        }
    }
    assert forall|i: int, j: int| 0 <= i < j < s.len() implies s[i] != s[j] by {
        assert(s[i].0 as int == run_at(a as int, b as int, i));
        assert(s[j].0 as int == run_at(a as int, b as int, j));
    }
    if s.len() > 0 {
        assert(s[s.len() - 1].0 as int == run_at(a as int, b as int, s.len() - 1));
    }
}

#[verifier::spinoff_prover]
#[verifier::rlimit(60)]
proof fn lemma_vrun(x: i16, a: i16, b: i16)
    ensures
        is_walk_from(P(x, a), vrun(x, a, b)),
        no_duplicates(vrun(x, a, b)),
        vrun(x, a, b).len() == abs_spec(b - a),
        vrun(x, a, b).len() > 0 ==> vrun(x, a, b).last() == P(x, b),
        forall|i: int| 0 <= i < vrun(x, a, b).len() ==> (#[trigger] vrun(x, a, b)[i]).0 == x
            && vrun(x, a, b)[i].1 != a && (a <= b ==> a < vrun(x, a, b)[i].1 <= b) && (b < a
            ==> b <= vrun(x, a, b)[i].1 < a),
{
    reveal(vrun);
    let s = vrun(x, a, b);
    assert forall|i: int| 0 <= i < s.len() implies #[trigger] s[i].1 as int == run_at(a as int, b as int, i)
        && s[i].0 == x && s[i].1 != a && (a <= b ==> a < s[i].1 <= b) && (b < a ==> b <= s[i].1 < a) by {
        lemma_run_at(a, b, i);
    }
    assert forall|i: int| 0 <= i < s.len() implies adjacent(
        if i == 0 { P(x, a) } else { s[i - 1] },
        #[trigger] s[i],
    ) by {
        if i > 0 {
            assert(s[i - 1].1 as int == run_at(a as int, b as int, i - 1));
        }
    }
    assert forall|i: int, j: int| 0 <= i < j < s.len() implies s[i] != s[j] by {
        assert(s[i].1 as int == run_at(a as int, b as int, i));
        assert(s[j].1 as int == run_at(a as int, b as int, j));
    }
    if s.len() > 0 {
        assert(s[s.len() - 1].1 as int == run_at(a as int, b as int, s.len() - 1));
    }
}

/// Two walks chain into one when the second starts where the first ends.
pub proof fn lemma_concat_walk(src: P, mid: P, s1: Seq<P>, s2: Seq<P>)
    requires
        is_walk_from(src, s1),
        is_walk_from(mid, s2),
        s1.len() == 0 ==> mid == src,
        s1.len() > 0 ==> s1.last() == mid,
    ensures
        is_walk_from(src, s1 + s2),
{
    let s = s1 + s2;
    assert forall|i: int| 0 <= i < s.len() implies adjacent(
        if i == 0 { src } else { s[i - 1] },
        #[trigger] s[i],
    ) by {
        if i < s1.len() {
            assert(s[i] == s1[i]);
        } else {
            assert(s[i] == s2[i - s1.len()]);
        }
    }
}

/// The synthesized route from `src` to `dst` is a 4-connected walk starting
/// next to `src`, as long as the Manhattan distance, ending exactly at `dst`,
/// never visiting `src`, and never visiting a point twice; it is empty exactly
/// when `src == dst`.
pub proof fn lemma_build_path(src: P, dst: P, horz_first: bool)
    ensures
        is_walk_from(src, build_path_spec(src, dst, horz_first)),
        build_path_spec(src, dst, horz_first).len() == dist_spec(src, dst),
        build_path_spec(src, dst, horz_first).len() > 0 ==> build_path_spec(
            src,
            dst,
            horz_first,
        ).last() == dst,
        build_path_spec(src, dst, horz_first).len() == 0 <==> src == dst,
        no_duplicates(build_path_spec(src, dst, horz_first)),
        !build_path_spec(src, dst, horz_first).contains(src),
{
    if horz_first {
        lemma_build_path_horizontal_first(src, dst);
    } else {
        lemma_build_path_vertical_first(src, dst);
    }
}

/// Two runs, the first of them all on one line through `src`'s side, the
/// second all off it, chain into a walk without repeats.
proof fn lemma_l_shape(src: P, corner: P, dst: P, s1: Seq<P>, s2: Seq<P>, first: spec_fn(P) -> bool)
    requires
        is_walk_from(src, s1),
        is_walk_from(corner, s2),
        s1.len() == 0 ==> corner == src,
        s1.len() > 0 ==> s1.last() == corner,
        s2.len() == 0 ==> dst == corner,
        s2.len() > 0 ==> s2.last() == dst,
        no_duplicates(s1),
        no_duplicates(s2),
        forall|i: int| 0 <= i < s1.len() ==> first(#[trigger] s1[i]) && s1[i] != src,
        forall|i: int| 0 <= i < s2.len() ==> !first(#[trigger] s2[i]),
        first(src),
    ensures
        is_walk_from(src, s1 + s2),
        (s1 + s2).len() > 0 ==> (s1 + s2).last() == dst,
        no_duplicates(s1 + s2),
        !(s1 + s2).contains(src),
{
    let s = s1 + s2;
    lemma_concat_walk(src, corner, s1, s2);
    assert forall|i: int, j: int| 0 <= i < j < s.len() implies s[i] != s[j] by {
        if j < s1.len() {
            assert(s1[i] != s1[j]);
        } else if i >= s1.len() {
            assert(s2[i - s1.len()] != s2[j - s1.len()]);
        } else {
            assert(first(s1[i]));
            assert(!first(s2[j - s1.len()]));
        }
    }
    if s.contains(src) {
        let k = choose|k: int| 0 <= k < s.len() && s[k] == src;
        if k < s1.len() {
            assert(s1[k] != src);
        } else {
            assert(!first(s2[k - s1.len()]));
        }
    }
    if s.len() > 0 {
        if s2.len() > 0 {
            assert(s.last() == s2.last());
        } else {
            assert(s.last() == s1.last());
        }
    }
}

proof fn lemma_build_path_horizontal_first(src: P, dst: P)
    ensures
        is_walk_from(src, build_path_spec(src, dst, true)),
        build_path_spec(src, dst, true).len() == dist_spec(src, dst),
        build_path_spec(src, dst, true).len() > 0 ==> build_path_spec(src, dst, true).last() == dst,
        no_duplicates(build_path_spec(src, dst, true)),
        !build_path_spec(src, dst, true).contains(src),
{
    let s1 = hrun(src.1, src.0, dst.0);
    let s2 = vrun(dst.0, src.1, dst.1);
    lemma_hrun(src.1, src.0, dst.0);
    lemma_vrun(dst.0, src.1, dst.1);
    lemma_l_shape(src, P(dst.0, src.1), dst, s1, s2, |p: P| p.1 == src.1);
}

proof fn lemma_build_path_vertical_first(src: P, dst: P)
    ensures
        is_walk_from(src, build_path_spec(src, dst, false)),
        build_path_spec(src, dst, false).len() == dist_spec(src, dst),
        build_path_spec(src, dst, false).len() > 0 ==> build_path_spec(src, dst, false).last() == dst,
        no_duplicates(build_path_spec(src, dst, false)),
        !build_path_spec(src, dst, false).contains(src),
{
    let s1 = vrun(src.0, src.1, dst.1);
    let s2 = hrun(dst.1, src.0, dst.0);
    lemma_vrun(src.0, src.1, dst.1);
    lemma_hrun(dst.1, src.0, dst.0);
    lemma_l_shape(src, P(src.0, dst.1), dst, s1, s2, |p: P| p.0 == src.0);
}

} // verus!
