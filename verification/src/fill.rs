use vstd::prelude::*;
use vstd::arithmetic::div_mod::lemma_fundamental_div_mod_converse;
use crate::color::Color;
use crate::framebuffer::Framebuffer;
use crate::line::{imax, imin, pt_ints, seg_end};

verus! {

/// The mathematical value of one scanline edge. The crossing of the edge with
/// row y has the exact rational abscissa `num_at(y) / den`, where
/// `num_at(y) = num + step * (y - y_lo)` and `y_lo = y_max - den`; `den` is
/// the edge's (positive) vertical extent and `step` the signed horizontal
/// extent, so `step / den` is the inverse slope. The edge spans rows
/// `y_lo <= y < y_max`.
pub struct ERep {
    pub y_max: int,
    pub num: int,
    pub den: int,
    pub step: int,
}

/// The normalized edge of the polygon side from a to b (a.1 != b.1): the
/// lower endpoint gives the starting abscissa, `y_max` is the higher y.
pub open spec fn side_rep(a: (int, int), b: (int, int)) -> ERep {
    if a.1 < b.1 {
        ERep { y_max: b.1, num: a.0 * (b.1 - a.1), den: b.1 - a.1, step: b.0 - a.0 }
    } else {
        ERep { y_max: a.1, num: b.0 * (a.1 - b.1), den: a.1 - b.1, step: a.0 - b.0 }
    }
}

/// The edges of the first n sides of the polygon, horizontal sides skipped.
pub open spec fn edges_upto(pts: Seq<(int, int)>, n: int) -> Seq<ERep>
    decreases n,
{
    if n <= 0 {
        Seq::empty()
    } else {
        edges_upto(pts, n - 1) + (if pts[n - 1].1 == seg_end(pts, n - 1).1 {
            Seq::<ERep>::empty()
        } else {
            seq![side_rep(pts[n - 1], seg_end(pts, n - 1))]
        })
    }
}

/// All edges of the polygon, in side order; horizontal sides contribute none.
pub open spec fn poly_edges(pts: Seq<(int, int)>) -> Seq<ERep> {
    edges_upto(pts, pts.len() as int)
}

/// The smallest y among the first n vertices.
pub open spec fn min_y_upto(pts: Seq<(int, int)>, n: int) -> int
    decreases n,
{
    if n <= 1 { pts[0].1 } else { imin(min_y_upto(pts, n - 1), pts[n - 1].1) }
}

/// The largest y among the first n vertices.
pub open spec fn max_y_upto(pts: Seq<(int, int)>, n: int) -> int
    decreases n,
{
    if n <= 1 { pts[0].1 } else { imax(max_y_upto(pts, n - 1), pts[n - 1].1) }
}

/// The smallest vertex y of the polygon.
pub open spec fn seq_min_y(pts: Seq<(int, int)>) -> int
    recommends pts.len() >= 1,
{
    min_y_upto(pts, pts.len() as int)
}

/// The largest vertex y of the polygon.
pub open spec fn seq_max_y(pts: Seq<(int, int)>) -> int
    recommends pts.len() >= 1,
{
    max_y_upto(pts, pts.len() as int)
}

/// An edge is filed in the table only when its start row lies within the
/// outer polygon's row range; edges starting outside it are silently ignored.
pub open spec fn in_range(r: ERep, y_min: int, y_max: int) -> bool {
    y_min <= r.y_max - r.den <= y_max
}

/// The edges whose start row the table covers, in filing order.
pub open spec fn ranged(s: Seq<ERep>, y_min: int, y_max: int) -> Seq<ERep>
    decreases s.len(),
{
    if s.len() == 0 {
        Seq::empty()
    } else {
        let rest = ranged(s.drop_last(), y_min, y_max);
        if in_range(s.last(), y_min, y_max) { rest.push(s.last()) } else { rest }
    }
}

/// The edges of the first k hole polygons, concatenated in order.
pub open spec fn holes_edges(holes: Seq<Seq<(int, int)>>, k: int) -> Seq<ERep>
    decreases k,
{
    if k <= 0 {
        Seq::empty()
    } else {
        holes_edges(holes, k - 1) + poly_edges(holes[k - 1])
    }
}

/// Every edge the fill works with: the outer polygon's edges, then each
/// hole's, restricted to start rows within the outer polygon's row range.
pub open spec fn table_reps(outer: Seq<(int, int)>, holes: Seq<Seq<(int, int)>>) -> Seq<ERep> {
    ranged(poly_edges(outer) + holes_edges(holes, holes.len() as int),
        seq_min_y(outer), seq_max_y(outer))
}

/// The edges whose start row is y, in filing order.
pub open spec fn filed_at(s: Seq<ERep>, y: int) -> Seq<ERep>
    decreases s.len(),
{
    if s.len() == 0 {
        Seq::empty()
    } else {
        let rest = filed_at(s.drop_last(), y);
        if s.last().y_max - s.last().den == y { rest.push(s.last()) } else { rest }
    }
}

/// The edges still spanning row y (those with y < y_max).
pub open spec fn retained(s: Seq<ERep>, y: int) -> Seq<ERep>
    decreases s.len(),
{
    if s.len() == 0 {
        Seq::empty()
    } else {
        let rest = retained(s.drop_last(), y);
        if s.last().y_max > y { rest.push(s.last()) } else { rest }
    }
}

/// Every crossing abscissa advanced by one row: num grows by step.
pub open spec fn advanced(s: Seq<ERep>) -> Seq<ERep> {
    s.map_values(|r: ERep| ERep { y_max: r.y_max, num: r.num + r.step, den: r.den, step: r.step })
}

/// The crossing of a is at or left of the crossing of b (dens are positive,
/// so the exact rational comparison cross-multiplies).
pub open spec fn le_key(a: ERep, b: ERep) -> bool {
    a.num * b.den <= b.num * a.den
}

/// Where r is inserted into s: after every entry whose key is at or left of
/// r's, so insertion keeps entries with equal keys in arrival order.
pub open spec fn insert_pos(s: Seq<ERep>, r: ERep) -> int
    decreases s.len(),
{
    if s.len() == 0 {
        0
    } else if le_key(s[0], r) {
        1 + insert_pos(s.skip(1), r)
    } else {
        0
    }
}

/// Stable insertion sort of the edges by crossing abscissa.
pub open spec fn insort(s: Seq<ERep>) -> Seq<ERep>
    decreases s.len(),
{
    if s.len() == 0 {
        Seq::empty()
    } else {
        let sorted = insort(s.drop_last());
        sorted.insert(insert_pos(sorted, s.last()), s.last())
    }
}

/// The sorted active edge list with which row y is emitted: the previous
/// row's list advanced one row, plus the edges starting at y, minus the edges
/// that no longer span y, sorted by crossing abscissa.
pub open spec fn row_state(table: Seq<ERep>, y_min: int, y: int) -> Seq<ERep>
    decreases y - y_min
        when y >= y_min

{
    let prev = if y == y_min {
        Seq::<ERep>::empty()
    } else {
        advanced(row_state(table, y_min, y - 1))
    };
    insort(retained(prev + filed_at(table, y), y))
}

/// Ceiling of num / den for den > 0 (division here is Euclidean, so `/`
/// rounds down and the remainder is never negative).
pub open spec fn ceil_div(num: int, den: int) -> int
    recommends den > 0,
{
    if num % den == 0 { num / den } else { num / den + 1 }
}

/// The crossing abscissa of s[i], rounded up to the first covered column.
pub open spec fn col_of(s: Seq<ERep>, i: int) -> int {
    ceil_div(s[i].num, s[i].den)
}

/// Column x is covered by a consecutive pair of the sorted active list at or
/// after (even) index i: each pair (i, i+1) spans `[ceil(x_i), ceil(x_i+1))`;
/// a final unpaired entry covers nothing.
pub open spec fn cols_range(s: Seq<ERep>, i: int, x: int) -> bool
    decreases s.len() - i,
{
    if i + 1 < s.len() {
        (col_of(s, i) <= x < col_of(s, i + 1)) || cols_range(s, i + 2, x)
    } else {
        false
    }
}

/// Column x is covered by a pair of the first i entries (i even).
pub open spec fn cols_upto(s: Seq<ERep>, i: int, x: int) -> bool
    decreases i,
{
    if i < 2 {
        false
    } else {
        cols_upto(s, i - 2, x) || (col_of(s, i - 2) <= x < col_of(s, i - 1))
    }
}

/// Column x is covered by some consecutive pair of the sorted active list.
pub open spec fn pairs_cols(s: Seq<ERep>, x: int) -> bool {
    cols_range(s, 0, x)
}

/// The scanline fill covers pixel (px, py): py lies in the half-open row
/// range of the outer polygon, and px falls in a span of row py's active
/// edge pairs (the even-odd rule; hole edges take part in the same parity
/// count).
pub open spec fn fill_on(outer: Seq<(int, int)>, holes: Seq<Seq<(int, int)>>,
    px: int, py: int) -> bool
    recommends outer.len() >= 1,
{
    let y_min = seq_min_y(outer);
    let y_max = seq_max_y(outer);
    &&& y_min <= py < y_max
    &&& pairs_cols(row_state(table_reps(outer, holes), y_min, py), px)
}

/// One edge of the scanline fill, in executable form; see `ERep` for the
/// meaning of the fields.
#[derive(Clone, Copy, PartialEq, Eq, Structural, Debug)]
pub struct Edge {
    pub y_max: i32,
    pub num: i128,
    pub den: i128,
    pub step: i128,
}

impl Edge {
    /// The mathematical value of this edge.
    pub open spec fn rep(self) -> ERep {
        ERep {
            y_max: self.y_max as int,
            num: self.num as int,
            den: self.den as int,
            step: self.step as int,
        }
    }
}

/// The edge values of an executable edge sequence.
pub open spec fn reps_of(s: Seq<Edge>) -> Seq<ERep> {
    s.map_values(|e: Edge| e.rep())
}

/// Coarse bounds under which all edge arithmetic stays far inside i128:
/// den and step come from i32 differences, and num never strays beyond
/// 2^65 (the starting numerator is at most 2^63 in magnitude and grows by
/// at most 2^32 per row for at most 2^32 + 1 rows).
pub open spec fn edge_ok(r: ERep) -> bool {
    &&& 1 <= r.den <= 0x1_0000_0000
    &&& -0x1_0000_0000 <= r.step <= 0x1_0000_0000
    &&& -0x2_0000_0000_0000_0000 <= r.num <= 0x2_0000_0000_0000_0000
}

/// Ceiling division of num by den, exactly.
fn ceil_div_i128(num: i128, den: i128) -> (q: i128)
    requires
        0 < den <= 0x1_0000_0000,
        -0x2_0000_0000_0000_0000 <= num <= 0x2_0000_0000_0000_0000,
    ensures
        q as int == ceil_div(num as int, den as int),
        -0x2_0000_0000_0000_0000 <= q <= 0x2_0000_0000_0000_0000,
{
    let d = den as u128;
    if num >= 0 {
        let n = num as u128;
        let qq = (n + d - 1) / d;
        proof {
            let ni = n as int;
            let di = d as int;
            vstd::arithmetic::div_mod::lemma_fundamental_div_mod(ni, di);
            vstd::arithmetic::div_mod::lemma_mod_pos_bound(ni, di);
            let q0 = ni / di;
            let r0 = ni % di;
            assert(q0 >= 0) by (nonlinear_arith)
                requires
                    ni >= 0,
                    di > 0,
                    ni == di * q0 + r0,
                    0 <= r0 < di,
            ;
            assert(di * q0 >= q0) by (nonlinear_arith)
                requires
                    di >= 1,
                    q0 >= 0,
            ;
            if r0 == 0 {
                assert(ni + di - 1 == q0 * di + (di - 1)) by (nonlinear_arith)
                    requires
                        ni == di * q0,
                ;
                lemma_fundamental_div_mod_converse(ni + di - 1, di, q0, di - 1);
            } else {
                assert(ni + di - 1 == (q0 + 1) * di + (r0 - 1)) by (nonlinear_arith)
                    requires
                        ni == di * q0 + r0,
                ;
                lemma_fundamental_div_mod_converse(ni + di - 1, di, q0 + 1, r0 - 1);
            }
            assert(qq as int == ceil_div(ni, di));
        }
        qq as i128
    } else {
        let m = (-num) as u128;
        let qq = m / d;
        proof {
            let mi = m as int;
            let di = d as int;
            vstd::arithmetic::div_mod::lemma_fundamental_div_mod(mi, di);
            vstd::arithmetic::div_mod::lemma_mod_pos_bound(mi, di);
            let q0 = mi / di;
            let rm = mi % di;
            assert(q0 >= 0) by (nonlinear_arith)
                requires
                    mi >= 0,
                    di > 0,
                    mi == di * q0 + rm,
                    0 <= rm < di,
            ;
            assert(di * q0 >= q0) by (nonlinear_arith)
                requires
                    di >= 1,
                    q0 >= 0,
            ;
            if rm == 0 {
                assert(num as int == (-q0) * di + 0) by (nonlinear_arith)
                    requires
                        mi == di * q0,
                        num as int == -mi,
                ;
                lemma_fundamental_div_mod_converse(num as int, di, -q0, 0);
            } else {
                assert(num as int == (-q0 - 1) * di + (di - rm)) by (nonlinear_arith)
                    requires
                        mi == di * q0 + rm,
                        num as int == -mi,
                ;
                lemma_fundamental_div_mod_converse(num as int, di, -q0 - 1, di - rm);
            }
            assert(-q0 == ceil_div(num as int, di));
        }
        -(qq as i128)
    }
}

/// The exact rational comparison of two crossing abscissas.
fn le_edge(a: &Edge, b: &Edge) -> (r: bool)
    requires
        edge_ok(a.rep()),
        edge_ok(b.rep()),
    ensures
        r == le_key(a.rep(), b.rep()),
{
    proof {
        assert(-0x2_0000_0000_0000_0000_0000_0000 <= a.rep().num * b.rep().den
            <= 0x2_0000_0000_0000_0000_0000_0000) by (nonlinear_arith)
            requires
                edge_ok(a.rep()),
                edge_ok(b.rep()),
        ;
        assert(-0x2_0000_0000_0000_0000_0000_0000 <= b.rep().num * a.rep().den
            <= 0x2_0000_0000_0000_0000_0000_0000) by (nonlinear_arith)
            requires
                edge_ok(a.rep()),
                edge_ok(b.rep()),
        ;
    }
    a.num * b.den <= b.num * a.den
}

proof fn lemma_reps_push(s: Seq<Edge>, e: Edge)
    ensures
        reps_of(s.push(e)) == reps_of(s).push(e.rep()),
{
    assert(reps_of(s.push(e)) =~= reps_of(s).push(e.rep()));
}

proof fn lemma_filed_push(s: Seq<ERep>, e: ERep, y: int)
    ensures
        filed_at(s.push(e), y) == (if e.y_max - e.den == y {
            filed_at(s, y).push(e)
        } else {
            filed_at(s, y)
        }),
{
    assert(s.push(e).drop_last() =~= s);
}

proof fn lemma_retained_push(s: Seq<ERep>, e: ERep, y: int)
    ensures
        retained(s.push(e), y) == (if e.y_max > y {
            retained(s, y).push(e)
        } else {
            retained(s, y)
        }),
{
    assert(s.push(e).drop_last() =~= s);
}

proof fn lemma_ranged_push(s: Seq<ERep>, e: ERep, y_min: int, y_max: int)
    ensures
        ranged(s.push(e), y_min, y_max) == (if in_range(e, y_min, y_max) {
            ranged(s, y_min, y_max).push(e)
        } else {
            ranged(s, y_min, y_max)
        }),
{
    assert(s.push(e).drop_last() =~= s);
}

proof fn lemma_filed_concat(s: Seq<ERep>, t: Seq<ERep>, y: int)
    ensures
        filed_at(s + t, y) == filed_at(s, y) + filed_at(t, y),
    decreases t.len(),
{
    if t.len() == 0 {
        assert(s + t =~= s);
        assert(filed_at(s, y) + filed_at(t, y) =~= filed_at(s, y));
    } else {
        lemma_filed_concat(s, t.drop_last(), y);
        assert((s + t).drop_last() =~= s + t.drop_last());
        assert((s + t).last() == t.last());
        if t.last().y_max - t.last().den == y {
            assert(filed_at(s, y) + filed_at(t.drop_last(), y).push(t.last())
                =~= (filed_at(s, y) + filed_at(t.drop_last(), y)).push(t.last()));
        }
    }
}

proof fn lemma_ranged_concat(s: Seq<ERep>, t: Seq<ERep>, y_min: int, y_max: int)
    ensures
        ranged(s + t, y_min, y_max) == ranged(s, y_min, y_max) + ranged(t, y_min, y_max),
    decreases t.len(),
{
    if t.len() == 0 {
        assert(s + t =~= s);
        assert(ranged(s, y_min, y_max) + ranged(t, y_min, y_max)
            =~= ranged(s, y_min, y_max));
    } else {
        lemma_ranged_concat(s, t.drop_last(), y_min, y_max);
        assert((s + t).drop_last() =~= s + t.drop_last());
        assert((s + t).last() == t.last());
        if in_range(t.last(), y_min, y_max) {
            assert(ranged(s, y_min, y_max) + ranged(t.drop_last(), y_min, y_max).push(t.last())
                =~= (ranged(s, y_min, y_max) + ranged(t.drop_last(), y_min, y_max)).push(
                    t.last()));
        }
    }
}

proof fn lemma_insert_pos_props(s: Seq<ERep>, r: ERep)
    ensures
        0 <= insert_pos(s, r) <= s.len(),
        forall|k: int| 0 <= k < insert_pos(s, r) ==> le_key(#[trigger] s[k], r),
        insert_pos(s, r) < s.len() ==> !le_key(s[insert_pos(s, r)], r),
    decreases s.len(),
{
    if s.len() > 0 && le_key(s[0], r) {
        lemma_insert_pos_props(s.skip(1), r);
        assert forall|k: int| 0 <= k < insert_pos(s, r) implies le_key(#[trigger] s[k], r) by {
            if k >= 1 {
                assert(s.skip(1)[k - 1] == s[k]);
                assert(le_key(s.skip(1)[k - 1], r));
            }
        }
        if insert_pos(s, r) < s.len() {
            assert(s.skip(1)[insert_pos(s, r) - 1] == s[insert_pos(s, r)]);
        }
    }
}

/// The number of non-horizontal sides among the polygon's first n sides.
pub open spec fn non_horizontal_upto(pts: Seq<(int, int)>, n: int) -> int
    decreases n,
{
    if n <= 0 {
        0
    } else {
        non_horizontal_upto(pts, n - 1) + (if pts[n - 1].1 == seg_end(pts, n - 1).1 {
            0int
        } else {
            1int
        })
    }
}

proof fn lemma_edges_upto_len(pts: Seq<(int, int)>, n: int)
    ensures
        edges_upto(pts, n).len() == non_horizontal_upto(pts, n),
    decreases n,
{
    if n > 0 {
        lemma_edges_upto_len(pts, n - 1);
    }
}

/// Horizontal polygon sides contribute no edges: a polygon yields exactly one
/// edge per non-horizontal side (so a rectangle yields two edges, not four).
pub proof fn lemma_horizontal_sides_skipped(pts: Seq<(int, int)>)
    ensures
        poly_edges(pts).len() == non_horizontal_upto(pts, pts.len() as int),
{
    lemma_edges_upto_len(pts, pts.len() as int);
}

/// The smallest vertex y of a non-empty polygon.
fn min_y(pts: &Vec<(i32, i32)>) -> (m: i32)
    requires
        pts@.len() >= 1,
    ensures
        m as int == seq_min_y(pt_ints(pts@)),
{
    let mut m: i32 = pts[0].1;
    let mut i: usize = 1;
    while i < pts.len()
        invariant
            1 <= i <= pts@.len(),
            m as int == min_y_upto(pt_ints(pts@), i as int),
        decreases pts@.len() - i,
    {
        if pts[i].1 < m {
            m = pts[i].1;
        }
        i = i + 1;
    }
    m
}

/// The largest vertex y of a non-empty polygon.
fn max_y(pts: &Vec<(i32, i32)>) -> (m: i32)
    requires
        pts@.len() >= 1,
    ensures
        m as int == seq_max_y(pt_ints(pts@)),
{
    let mut m: i32 = pts[0].1;
    let mut i: usize = 1;
    while i < pts.len()
        invariant
            1 <= i <= pts@.len(),
            m as int == max_y_upto(pt_ints(pts@), i as int),
        decreases pts@.len() - i,
    {
        if pts[i].1 > m {
            m = pts[i].1;
        }
        i = i + 1;
    }
    m
}

/// Stable insertion sort of the active edges by crossing abscissa.
fn sort_edges(input: &Vec<Edge>) -> (out: Vec<Edge>)
    requires
        forall|k: int| 0 <= k < input@.len() ==> edge_ok(#[trigger] input@[k].rep()),
    ensures
        reps_of(out@) == insort(reps_of(input@)),
        forall|k: int| 0 <= k < out@.len()
            ==> exists|j: int| 0 <= j < input@.len() && #[trigger] out@[k] == input@[j],
{
    let mut out: Vec<Edge> = Vec::new();
    let mut i: usize = 0;
    while i < input.len()
        invariant
            i <= input@.len(),
            forall|k: int| 0 <= k < input@.len() ==> edge_ok(#[trigger] input@[k].rep()),
            reps_of(out@) == insort(reps_of(input@.take(i as int))),
            out@.len() == i,
            forall|k: int| 0 <= k < out@.len() ==> edge_ok(#[trigger] out@[k].rep()),
            forall|k: int| 0 <= k < out@.len()
                ==> exists|j: int| 0 <= j < input@.len() && #[trigger] out@[k] == input@[j],
        decreases input@.len() - i,
    {
        let e = input[i];
        let mut j: usize = 0;
        while j < out.len() && le_edge(&out[j], &e)
            invariant
                j <= out@.len(),
                edge_ok(e.rep()),
                forall|k: int| 0 <= k < j ==> le_key(#[trigger] reps_of(out@)[k], e.rep()),
                forall|k: int| 0 <= k < out@.len() ==> edge_ok(#[trigger] out@[k].rep()),
            decreases out@.len() - j,
        {
            j = j + 1;
        }
        proof {
            lemma_insert_pos_props(reps_of(out@), e.rep());
            let p = insert_pos(reps_of(out@), e.rep());
            if (j as int) < p {
                assert(le_key(reps_of(out@)[j as int], e.rep()));
                assert(false);
            }
            if p < j as int {
                assert(le_key(reps_of(out@)[p], e.rep()));
                assert(false);
            }
            assert(j as int == p);
        }
        let ghost out0 = out@;
        out.insert(j, e);
        proof {
            assert(reps_of(out@) =~= reps_of(out0).insert(j as int, e.rep()));
            assert(reps_of(input@.take(i as int + 1))
                =~= reps_of(input@.take(i as int)).push(e.rep()));
            assert(reps_of(input@.take(i as int + 1)).drop_last()
                =~= reps_of(input@.take(i as int)));
            assert(forall|k: int| 0 <= k < out@.len()
                ==> out@[k] == (if k < j as int {
                    out0[k]
                } else if k == j as int {
                    e
                } else {
                    out0[k - 1]
                }));
        }
        i = i + 1;
    }
    proof {
        assert(input@.take(input@.len() as int) =~= input@);
    }
    out
}

/// Drops the edges that no longer span row y.
fn keep_active(v: &Vec<Edge>, y: i32) -> (out: Vec<Edge>)
    ensures
        reps_of(out@) == retained(reps_of(v@), y as int),
        forall|k: int| 0 <= k < out@.len()
            ==> exists|j: int| 0 <= j < v@.len() && #[trigger] out@[k] == v@[j],
{
    let mut out: Vec<Edge> = Vec::new();
    let mut i: usize = 0;
    while i < v.len()
        invariant
            i <= v@.len(),
            reps_of(out@) == retained(reps_of(v@.take(i as int)), y as int),
            forall|k: int| 0 <= k < out@.len()
                ==> exists|j: int| 0 <= j < v@.len() && #[trigger] out@[k] == v@[j],
        decreases v@.len() - i,
    {
        let e = v[i];
        proof {
            assert(reps_of(v@.take(i as int + 1))
                =~= reps_of(v@.take(i as int)).push(e.rep()));
            lemma_retained_push(reps_of(v@.take(i as int)), e.rep(), y as int);
        }
        if e.y_max > y {
            let ghost out0 = out@;
            out.push(e);
            proof {
                lemma_reps_push(out0, e);
            }
        }
        i = i + 1;
    }
    proof {
        assert(v@.take(v@.len() as int) =~= v@);
    }
    out
}

/// Advances every crossing abscissa by one row.
fn advance_edges(v: &Vec<Edge>) -> (out: Vec<Edge>)
    requires
        forall|k: int| 0 <= k < v@.len() ==> edge_ok(#[trigger] v@[k].rep()),
    ensures
        reps_of(out@) == advanced(reps_of(v@)),
{
    let mut out: Vec<Edge> = Vec::new();
    let mut i: usize = 0;
    while i < v.len()
        invariant
            i <= v@.len(),
            forall|k: int| 0 <= k < v@.len() ==> edge_ok(#[trigger] v@[k].rep()),
            out@.len() == i,
            forall|k: int| 0 <= k < i ==> #[trigger] reps_of(out@)[k]
                == advanced(reps_of(v@))[k],
        decreases v@.len() - i,
    {
        let e = v[i];
        proof {
            assert(edge_ok(v@[i as int].rep()));
        }
        let ghost out0 = out@;
        out.push(Edge { y_max: e.y_max, num: e.num + e.step, den: e.den, step: e.step });
        proof {
            assert(forall|k: int| 0 <= k < i ==> #[trigger] reps_of(out@)[k]
                == reps_of(out0)[k]);
        }
        i = i + 1;
    }
    proof {
        assert(reps_of(out@) =~= advanced(reps_of(v@)));
    }
    out
}

/// The hole polygons as mathematical integer point sequences.
pub open spec fn holes_ints(s: Seq<Vec<(i32, i32)>>) -> Seq<Seq<(int, int)>> {
    s.map_values(|v: Vec<(i32, i32)>| pt_ints(v@))
}

/// Bounds on an edge after `slack` rows of advancement: the numerator starts
/// at magnitude at most 2^63 and each row adds at most 2^32.
pub open spec fn slack_ok(r: ERep, slack: int) -> bool {
    &&& 1 <= r.den <= 0x1_0000_0000
    &&& -0x1_0000_0000 <= r.step <= 0x1_0000_0000
    &&& -0x8000_0000_0000_0000 - slack * 0x1_0000_0000 <= r.num
        <= 0x8000_0000_0000_0000 + slack * 0x1_0000_0000
}

/// Files every non-horizontal side of the polygon into the table: side i's
/// edge goes to row `y_start - y_min`. An edge whose start row lies outside
/// the table's range is silently ignored (a hole may extend beyond the outer
/// polygon's row range; such rows are clipped).
pub fn add_edges(table: &mut Vec<Vec<Edge>>, pts: &Vec<(i32, i32)>, y_min: i32, y_max: i32)
    requires
        y_min <= y_max,
        old(table)@.len() == y_max as int - y_min as int + 1,
        forall|row: int, k: int| 0 <= row < old(table)@.len()
            && 0 <= k < old(table)@[row]@.len()
            ==> slack_ok(#[trigger] old(table)@[row]@[k].rep(), 0),
    ensures
        final(table)@.len() == old(table)@.len(),
        forall|row: int| 0 <= row < final(table)@.len()
            ==> reps_of(#[trigger] final(table)@[row]@) == reps_of(old(table)@[row]@)
                + filed_at(ranged(poly_edges(pt_ints(pts@)), y_min as int, y_max as int),
                    y_min as int + row),
        forall|row: int, k: int| 0 <= row < final(table)@.len()
            && 0 <= k < final(table)@[row]@.len()
            ==> slack_ok(#[trigger] final(table)@[row]@[k].rep(), 0),
{
    let ghost s = pt_ints(pts@);
    let ghost t0 = old(table)@;
    let n = pts.len();
    let mut i: usize = 0;
    proof {
        assert(forall|row: int| 0 <= row < t0.len()
            ==> reps_of(t0[row]@) + filed_at(ranged(edges_upto(s, 0), y_min as int,
                y_max as int), y_min as int + row) =~= reps_of(#[trigger] t0[row]@));
    }
    while i < n
        invariant
            s == pt_ints(pts@),
            n == pts@.len(),
            i <= n,
            y_min <= y_max,
            table@.len() == t0.len(),
            t0.len() == y_max as int - y_min as int + 1,
            forall|row: int| 0 <= row < table@.len()
                ==> reps_of(#[trigger] table@[row]@) == reps_of(t0[row]@)
                    + filed_at(ranged(edges_upto(s, i as int), y_min as int, y_max as int),
                        y_min as int + row),
            forall|row: int, k: int| 0 <= row < t0.len() && 0 <= k < t0[row]@.len()
                ==> slack_ok(#[trigger] t0[row]@[k].rep(), 0),
            forall|row: int, k: int| 0 <= row < table@.len()
                && 0 <= k < table@[row]@.len()
                ==> slack_ok(#[trigger] table@[row]@[k].rep(), 0),
        decreases n - i,
    {
        let p0 = pts[i];
        let p1 = if i + 1 < n { pts[i + 1] } else { pts[0] };
        proof {
            assert(s[i as int] == (p0.0 as int, p0.1 as int));
            assert(seg_end(s, i as int) == (p1.0 as int, p1.1 as int));
        }
        if p0.1 != p1.1 {
            let (y_lo, x_lo, y_hi, x_hi) = if p0.1 < p1.1 {
                (p0.1, p0.0, p1.1, p1.0)
            } else {
                (p1.1, p1.0, p0.1, p0.0)
            };
            let den64: i64 = y_hi as i64 - y_lo as i64;
            let den: i128 = den64 as i128;
            proof {
                assert(-0x8000_0000_0000_0000 <= x_lo as int * den as int
                    <= 0x8000_0000_0000_0000) by (nonlinear_arith)
                    requires
                        -0x8000_0000 <= x_lo as int <= 0x8000_0000,
                        0 < den as int <= 0x1_0000_0000,
                ;
            }
            let edge = Edge {
                y_max: y_hi,
                num: (x_lo as i128) * den,
                den,
                step: (x_hi as i64 - x_lo as i64) as i128,
            };
            let ghost r = side_rep(s[i as int], seg_end(s, i as int));
            proof {
                assert(edge.rep() == r);
                assert(edges_upto(s, i as int) + seq![r]
                    =~= edges_upto(s, i as int).push(r));
                lemma_ranged_push(edges_upto(s, i as int), r, y_min as int, y_max as int);
                assert(r.y_max - r.den == y_lo as int);
            }
            if y_lo >= y_min && y_lo <= y_max {
                let row = (y_lo as i64 - y_min as i64) as usize;
                let ghost tpre = table@;
                let ghost trow = table@[row as int]@;
                table[row].push(edge);
                proof {
                    lemma_reps_push(trow, edge);
                    assert forall|row2: int| 0 <= row2 < table@.len() implies
                        reps_of(#[trigger] table@[row2]@) == reps_of(t0[row2]@)
                            + filed_at(ranged(edges_upto(s, i as int + 1), y_min as int,
                                y_max as int), y_min as int + row2) by {
                        lemma_filed_push(ranged(edges_upto(s, i as int), y_min as int,
                            y_max as int), r, y_min as int + row2);
                        if row2 == row as int {
                            assert(reps_of(t0[row2]@) + filed_at(ranged(edges_upto(s,
                                i as int), y_min as int, y_max as int),
                                y_min as int + row2).push(r)
                                =~= (reps_of(t0[row2]@) + filed_at(ranged(edges_upto(s,
                                    i as int), y_min as int, y_max as int),
                                    y_min as int + row2)).push(r));
                        } else {
                            assert(table@[row2]@ == tpre[row2]@);
                            assert(y_min as int + row2 != r.y_max - r.den);
                        }
                    }
                }
            } else {
                proof {
                    assert forall|row2: int| 0 <= row2 < table@.len() implies
                        reps_of(#[trigger] table@[row2]@) == reps_of(t0[row2]@)
                            + filed_at(ranged(edges_upto(s, i as int + 1), y_min as int,
                                y_max as int), y_min as int + row2) by {
                        assert(!in_range(r, y_min as int, y_max as int));
                    }
                }
            }
        } else {
            proof {
                assert(edges_upto(s, i as int + 1) == edges_upto(s, i as int)
                    + Seq::<ERep>::empty());
                assert(edges_upto(s, i as int) + Seq::<ERep>::empty()
                    =~= edges_upto(s, i as int));
            }
        }
        i = i + 1;
    }
}

proof fn lemma_rect_row_state(e1: ERep, e2: ERep, y0: int, y1: int, y: int)
    requires
        y0 < y1,
        e1.y_max == y1 && e1.den == y1 - y0 && e1.step == 0,
        e2.y_max == y1 && e2.den == y1 - y0 && e2.step == 0,
        e2.num * e1.den <= e1.num * e2.den,
        !(e1.num * e2.den <= e2.num * e1.den),
        filed_at(seq![e1, e2], y0) == seq![e1, e2],
        y0 <= y < y1,
    ensures
        row_state(seq![e1, e2], y0, y) == seq![e2, e1],
    decreases y - y0,
{
    let t = seq![e1, e2];
    let prev: Seq<ERep> = if y == y0 {
        Seq::empty()
    } else {
        lemma_rect_row_state(e1, e2, y0, y1, y - 1);
        advanced(row_state(t, y0, y - 1))
    };
    if y == y0 {
        assert(prev + filed_at(t, y0) =~= seq![e1, e2]);
    } else {
        assert(advanced(seq![e2, e1]) =~= seq![e2, e1]);
        assert(t.drop_last() =~= seq![e1]);
        assert(seq![e1].drop_last() =~= Seq::<ERep>::empty());
        assert(filed_at(Seq::<ERep>::empty(), y) =~= Seq::<ERep>::empty());
        assert(filed_at(seq![e1], y) =~= Seq::<ERep>::empty());
        assert(filed_at(t, y) =~= Seq::<ERep>::empty());
        assert(prev + filed_at(t, y) =~= seq![e2, e1]);
    }
    let merged = prev + filed_at(t, y);
    // Both edges still span row y, so both are retained.
    assert(merged.drop_last() =~= seq![merged[0]]);
    assert(seq![merged[0]].drop_last() =~= Seq::<ERep>::empty());
    assert(retained(Seq::<ERep>::empty(), y) =~= Seq::<ERep>::empty());
    assert(retained(seq![merged[0]], y) =~= seq![merged[0]]);
    assert(retained(merged, y) =~= merged);
    // Sorting puts the smaller crossing first, whichever order they arrived in.
    assert(insort(Seq::<ERep>::empty()) =~= Seq::<ERep>::empty());
    assert(insert_pos(Seq::<ERep>::empty(), merged[0]) == 0);
    if y == y0 {
        // insort([e1, e2]): e2 goes before e1.
        assert(insort(seq![e1]) =~= seq![e1]);
        assert(insert_pos(seq![e1], e2) == 0);
        assert(insort(merged) =~= seq![e1].insert(0, e2));
        assert(seq![e1].insert(0, e2) =~= seq![e2, e1]);
    } else {
        // insort([e2, e1]): e1 stays after e2.
        assert(insort(seq![e2]) =~= seq![e2]);
        assert(insert_pos(seq![e2], e1) == 1 + insert_pos(seq![e2].skip(1), e1));
        assert(seq![e2].skip(1) =~= Seq::<ERep>::empty());
        assert(insert_pos(Seq::<ERep>::empty(), e1) == 0);
        assert(insort(merged) =~= seq![e2].insert(1, e1));
        assert(seq![e2].insert(1, e1) =~= seq![e2, e1]);
    }
}

/// For an axis-aligned rectangle (corners (x0,y0), (x1,y0), (x1,y1), (x0,y1)
/// with x0 < x1 and y0 < y1) and no holes, the fill covers exactly the box
/// `x0 <= px < x1`, `y0 <= py < y1`: the pixels whose centers lie within the
/// rectangle under the half-open scanline and ceiling conventions.
pub proof fn lemma_rectangle_fill(x0: int, y0: int, x1: int, y1: int, px: int, py: int)
    requires
        x0 < x1,
        y0 < y1,
    ensures
        fill_on(seq![(x0, y0), (x1, y0), (x1, y1), (x0, y1)], Seq::empty(), px, py)
            <==> (x0 <= px < x1 && y0 <= py < y1),
{
    let r = seq![(x0, y0), (x1, y0), (x1, y1), (x0, y1)];
    let d = y1 - y0;
    // The vertical extent of the sweep is [y0, y1).
    assert(min_y_upto(r, 1) == y0);
    assert(min_y_upto(r, 2) == y0);
    assert(min_y_upto(r, 3) == y0);
    assert(seq_min_y(r) == y0);
    assert(max_y_upto(r, 1) == y0);
    assert(max_y_upto(r, 2) == y0);
    assert(max_y_upto(r, 3) == y1);
    assert(seq_max_y(r) == y1);
    // The two horizontal sides contribute nothing; the two vertical sides
    // give one edge each, at abscissas x1 and x0.
    let e1 = side_rep((x1, y0), (x1, y1));
    let e2 = side_rep((x0, y1), (x0, y0));
    assert(seg_end(r, 3) == (x0, y0));
    assert(edges_upto(r, 0) =~= Seq::<ERep>::empty());
    assert(edges_upto(r, 1) =~= Seq::<ERep>::empty());
    assert(edges_upto(r, 2) =~= seq![e1]);
    assert(edges_upto(r, 3) =~= seq![e1]);
    assert(poly_edges(r) =~= seq![e1, e2]);
    let t = seq![e1, e2];
    assert(holes_edges(Seq::empty(), 0) =~= Seq::<ERep>::empty());
    assert(poly_edges(r) + holes_edges(Seq::empty(), 0) =~= t);
    // Both edges start at row y0, inside the table's range.
    assert(t.drop_last() =~= seq![e1]);
    assert(seq![e1].drop_last() =~= Seq::<ERep>::empty());
    assert(in_range(e1, y0, y1));
    assert(in_range(e2, y0, y1));
    assert(ranged(Seq::<ERep>::empty(), y0, y1) =~= Seq::<ERep>::empty());
    assert(ranged(seq![e1], y0, y1) =~= seq![e1]);
    assert(ranged(t, y0, y1) =~= t);
    assert(table_reps(r, Seq::empty()) == t);
    assert(filed_at(Seq::<ERep>::empty(), y0) =~= Seq::<ERep>::empty());
    assert(filed_at(seq![e1], y0) =~= seq![e1]);
    assert(filed_at(t, y0) =~= t);
    if y0 <= py < y1 {
        // Every swept row sees the same two crossings, x0 on the left.
        assert(e2.num * e1.den <= e1.num * e2.den && !(e1.num * e2.den
            <= e2.num * e1.den)) by (nonlinear_arith)
            requires
                e1.num == x1 * d,
                e2.num == x0 * d,
                e1.den == d,
                e2.den == d,
                d >= 1,
                x0 < x1,
        ;
        lemma_rect_row_state(e1, e2, y0, y1, py);
        let s = seq![e2, e1];
        assert(e2.num == x0 * d + 0 && e1.num == x1 * d + 0);
        lemma_fundamental_div_mod_converse(e2.num, d, x0, 0);
        lemma_fundamental_div_mod_converse(e1.num, d, x1, 0);
        assert(col_of(s, 0) == x0);
        assert(col_of(s, 1) == x1);
        assert(!cols_range(s, 2, px));
        assert(pairs_cols(row_state(t, y0, py), px) <==> x0 <= px < x1);
    }
}
/// outside the buffer are clipped.
fn fill_span(fb: &mut Framebuffer, x_start: i128, x_end: i128, y: i32)
    requires
        old(fb).wf(),
    ensures
        final(fb).wf(),
        final(fb).same_config(*old(fb)),
        forall|px: int, py: int| old(fb).in_bounds(px, py)
            ==> final(fb).pixel(px, py) == (if py == y as int
                && x_start as int <= px < x_end as int {
                old(fb).current_spec()
            } else {
                old(fb).pixel(px, py)
            }),
{
    let w: i128 = fb.width() as i128;
    let hi: i128 = if x_end > w { w } else { x_end };
    let mut x: i128 = if x_start < 0 { 0 } else { x_start };
    while x < hi
        invariant
            fb.wf(),
            fb.same_config(*old(fb)),
            w == old(fb).width_spec(),
            hi == imin(x_end as int, w as int),
            imax(x_start as int, 0) <= x as int,
            x as int <= imax(imax(x_start as int, 0), hi as int),
            forall|px: int, py: int| old(fb).in_bounds(px, py)
                ==> fb.pixel(px, py) == (if py == y as int
                    && x_start as int <= px < x as int {
                    old(fb).current_spec()
                } else {
                    old(fb).pixel(px, py)
                }),
        decreases hi - x,
    {
        proof {
            fb.lemma_wf_bounds();
            assert(0 <= x < 0x8000_0000);
        }
        fb.set_pixel(x as i32, y);
        x = x + 1;
    }
}

proof fn lemma_cols_decomp(s: Seq<ERep>, i: int, x: int)
    requires
        0 <= i <= s.len(),
        i % 2 == 0,
    ensures
        cols_range(s, 0, x) == (cols_upto(s, i, x) || cols_range(s, i, x)),
    decreases i,
{
    if i >= 2 {
        lemma_cols_decomp(s, i - 2, x);
    }
}

/// Fills the polygon `outer`, minus the interiors of the `holes`, with
/// `color`, by an even-odd scanline sweep of the rows `[y_min, y_max)` of the
/// outer polygon. Exactly the pixels of `fill_on` are written.
pub fn fill_polygon_scanline(
    fb: &mut Framebuffer,
    outer: &Vec<(i32, i32)>,
    holes: &Vec<Vec<(i32, i32)>>,
    color: Color,
)
    requires
        old(fb).wf(),
        outer@.len() >= 3,
        seq_max_y(pt_ints(outer@)) - seq_min_y(pt_ints(outer@)) < usize::MAX as int,
    ensures
        final(fb).wf(),
        final(fb).width_spec() == old(fb).width_spec(),
        final(fb).height_spec() == old(fb).height_spec(),
        final(fb).background_spec() == old(fb).background_spec(),
        final(fb).current_spec() == color,
        forall|px: int, py: int| old(fb).in_bounds(px, py)
            ==> final(fb).pixel(px, py) == (if fill_on(pt_ints(outer@),
                holes_ints(holes@), px, py) {
                color
            } else {
                old(fb).pixel(px, py)
            }),
{
    let ghost o = pt_ints(outer@);
    let ghost hs = holes_ints(holes@);
    fb.set_current_color(color);

    let y_mn = min_y(outer);
    let y_mx = max_y(outer);
    let height = (y_mx as i64 - y_mn as i64 + 1) as usize;

    // The edge table: one bucket per row of the outer polygon's range.
    let mut table: Vec<Vec<Edge>> = Vec::new();
    let mut j: usize = 0;
    while j < height
        invariant
            j <= height,
            table@.len() == j as int,
            forall|row: int| 0 <= row < j as int ==> (#[trigger] table@[row])@.len() == 0,
        decreases height - j,
    {
        table.push(Vec::new());
        j = j + 1;
    }
    add_edges(&mut table, outer, y_mn, y_mx);
    proof {
        assert forall|row: int| 0 <= row < table@.len() implies
            reps_of(#[trigger] table@[row]@) == filed_at(ranged(poly_edges(o)
                + holes_edges(hs, 0), y_mn as int, y_mx as int), y_mn as int + row) by {
            assert(poly_edges(o) + holes_edges(hs, 0) =~= poly_edges(o));
            assert(Seq::<ERep>::empty() + filed_at(ranged(poly_edges(o), y_mn as int,
                y_mx as int), y_mn as int + row) =~= filed_at(ranged(poly_edges(o),
                y_mn as int, y_mx as int), y_mn as int + row));
        }
    }
    let mut k: usize = 0;
    while k < holes.len()
        invariant
            o == pt_ints(outer@),
            hs == holes_ints(holes@),
            outer@.len() >= 3,
            k <= holes@.len(),
            y_mn as int == seq_min_y(o),
            y_mx as int == seq_max_y(o),
            y_mn <= y_mx,
            table@.len() == y_mx as int - y_mn as int + 1,
            forall|row: int| 0 <= row < table@.len()
                ==> reps_of(#[trigger] table@[row]@) == filed_at(ranged(poly_edges(o)
                    + holes_edges(hs, k as int), y_mn as int, y_mx as int),
                    y_mn as int + row),
            forall|row: int, kk: int| 0 <= row < table@.len()
                && 0 <= kk < table@[row]@.len()
                ==> slack_ok(#[trigger] table@[row]@[kk].rep(), 0),
        decreases holes@.len() - k,
    {
        let ghost tpre = table@;
        add_edges(&mut table, &holes[k], y_mn, y_mx);
        proof {
            assert(hs[k as int] == pt_ints(holes@[k as int]@));
            assert forall|row: int| 0 <= row < table@.len() implies
                reps_of(#[trigger] table@[row]@) == filed_at(ranged(poly_edges(o)
                    + holes_edges(hs, k as int + 1), y_mn as int, y_mx as int),
                    y_mn as int + row) by {
            assert(reps_of(table@[row]@) == reps_of(tpre[row]@)
                + filed_at(ranged(poly_edges(pt_ints(holes@[k as int]@)), y_mn as int,
                    y_mx as int), y_mn as int + row));
                lemma_ranged_concat(poly_edges(o) + holes_edges(hs, k as int),
                    poly_edges(hs[k as int]), y_mn as int, y_mx as int);
                lemma_filed_concat(ranged(poly_edges(o) + holes_edges(hs, k as int),
                    y_mn as int, y_mx as int), ranged(poly_edges(hs[k as int]),
                    y_mn as int, y_mx as int), y_mn as int + row);
                assert(poly_edges(o) + holes_edges(hs, k as int + 1)
                    =~= (poly_edges(o) + holes_edges(hs, k as int))
                        + poly_edges(hs[k as int]));
            }
        }
        k = k + 1;
    }
    let ghost tt = table_reps(o, hs);
    proof {
        assert(tt == ranged(poly_edges(o) + holes_edges(hs, hs.len() as int),
            seq_min_y(o), seq_max_y(o)));
    }

    // The scanline sweep.
    let mut active: Vec<Edge> = Vec::new();
    let mut y: i32 = y_mn;
    while y < y_mx
        invariant
            o == pt_ints(outer@),
            hs == holes_ints(holes@),
            outer@.len() >= 3,
            y_mn as int == seq_min_y(o),
            y_mx as int == seq_max_y(o),
            y_mn <= y <= y_mx,
            tt == table_reps(o, hs),
            table@.len() == y_mx as int - y_mn as int + 1,
            forall|row: int| 0 <= row < table@.len()
                ==> reps_of(#[trigger] table@[row]@) == filed_at(tt, y_mn as int + row),
            forall|row: int, kk: int| 0 <= row < table@.len()
                && 0 <= kk < table@[row]@.len()
                ==> slack_ok(#[trigger] table@[row]@[kk].rep(), 0),
            reps_of(active@) == (if y == y_mn {
                Seq::<ERep>::empty()
            } else {
                advanced(row_state(tt, y_mn as int, y as int - 1))
            }),
            forall|kk: int| 0 <= kk < active@.len()
                ==> slack_ok(#[trigger] active@[kk].rep(), y as int - y_mn as int),
            fb.wf(),
            fb.width_spec() == old(fb).width_spec(),
            fb.height_spec() == old(fb).height_spec(),
            fb.background_spec() == old(fb).background_spec(),
            fb.current_spec() == color,
            forall|px: int, py: int| old(fb).in_bounds(px, py)
                ==> fb.pixel(px, py) == (if py < y as int && fill_on(o, hs, px, py) {
                    color
                } else {
                    old(fb).pixel(px, py)
                }),
        decreases y_mx - y,
    {
        let row = (y as i64 - y_mn as i64) as usize;
        let ghost prev = reps_of(active@);

        // Take in the edges that start at this row.
        let ghost trow = table@[row as int]@;
        let mut kk: usize = 0;
        while kk < table[row].len()
            invariant
                (row as int) < table@.len(),
                trow == table@[row as int]@,
                kk <= trow.len(),
                reps_of(active@) == prev + reps_of(trow.take(kk as int)),
                forall|m: int, q: int| 0 <= m < table@.len()
                    && 0 <= q < table@[m]@.len()
                    ==> slack_ok(#[trigger] table@[m]@[q].rep(), 0),
                forall|m: int| 0 <= m < active@.len() - trow.take(kk as int).len()
                    ==> slack_ok(#[trigger] active@[m].rep(), y as int - y_mn as int),
                forall|m: int| prev.len() <= m < active@.len()
                    ==> slack_ok(#[trigger] active@[m].rep(), 0),
                prev.len() + kk as int == active@.len(),
                0 <= y as int - y_mn as int,
            decreases trow.len() - kk,
        {
            let e = table[row][kk];
            let ghost a0 = active@;
            active.push(e);
            proof {
                lemma_reps_push(a0, e);
                assert(reps_of(trow.take(kk as int + 1))
                    =~= reps_of(trow.take(kk as int)).push(e.rep()));
            }
            kk = kk + 1;
        }
        proof {
            assert(trow.take(trow.len() as int) =~= trow);
            assert(reps_of(active@) == prev + filed_at(tt, y as int));
            assert forall|m: int| 0 <= m < active@.len() implies
                slack_ok(#[trigger] active@[m].rep(), y as int - y_mn as int) by {
                if m >= prev.len() {
                    assert(slack_ok(active@[m].rep(), 0));
                    assert(0x8000_0000_0000_0000 + 0 * 0x1_0000_0000
                        <= 0x8000_0000_0000_0000
                            + (y as int - y_mn as int) * 0x1_0000_0000);
                }
            }
        }

        // Drop the edges this row has passed, and sort by crossing abscissa.
        let kept = keep_active(&active, y);
        proof {
            assert forall|m: int| 0 <= m < kept@.len() implies
                edge_ok(#[trigger] kept@[m].rep()) by {
                let jj = choose|jj: int| 0 <= jj < active@.len() && kept@[m] == active@[jj];
                assert(slack_ok(active@[jj].rep(), y as int - y_mn as int));
                assert((y as int - y_mn as int) * 0x1_0000_0000
                    <= 0x1_0000_0001 * 0x1_0000_0000) by (nonlinear_arith)
                    requires
                        0 <= y as int - y_mn as int <= 0x1_0000_0001,
                ;
            }
        }
        let sorted = sort_edges(&kept);
        let ghost rs = reps_of(sorted@);
        proof {
            assert(rs == row_state(tt, y_mn as int, y as int));
            assert forall|m: int| 0 <= m < sorted@.len() implies
                edge_ok(#[trigger] sorted@[m].rep()) by {
                let jj = choose|jj: int| 0 <= jj < kept@.len() && sorted@[m] == kept@[jj];
                assert(edge_ok(kept@[jj].rep()));
            }
            assert forall|m: int| 0 <= m < sorted@.len() implies
                slack_ok(#[trigger] sorted@[m].rep(), y as int - y_mn as int) by {
                let jj = choose|jj: int| 0 <= jj < kept@.len() && sorted@[m] == kept@[jj];
                let j2 = choose|j2: int| 0 <= j2 < active@.len()
                    && kept@[jj] == active@[j2];
                assert(slack_ok(active@[j2].rep(), y as int - y_mn as int));
            }
        }

        // Emit the spans of consecutive pairs.
        let ghost fby = *fb;
        let mut i: usize = 0;
        while i + 1 < sorted.len()
            invariant
                fb.wf(),
                fb.same_config(fby),
                fby.current_spec() == color,
                rs == reps_of(sorted@),
                forall|m: int| 0 <= m < sorted@.len()
                    ==> edge_ok(#[trigger] sorted@[m].rep()),
                i % 2 == 0,
                i <= sorted@.len(),
                forall|px: int, py: int| fby.in_bounds(px, py)
                    ==> fb.pixel(px, py) == (if py == y as int
                        && cols_upto(rs, i as int, px) {
                        color
                    } else {
                        fby.pixel(px, py)
                    }),
            decreases sorted@.len() - i,
        {
            proof {
                assert(edge_ok(sorted@[i as int].rep()));
                assert(edge_ok(sorted@[i as int + 1].rep()));
            }
            let a = ceil_div_i128(sorted[i].num, sorted[i].den);
            let b = ceil_div_i128(sorted[i + 1].num, sorted[i + 1].den);
            fill_span(fb, a, b, y);
            proof {
                assert(rs[i as int] == sorted@[i as int].rep());
                assert(rs[i as int + 1] == sorted@[i as int + 1].rep());
                assert(a as int == col_of(rs, i as int));
                assert(b as int == col_of(rs, i as int + 1));
                assert forall|px: int, py: int| fby.in_bounds(px, py) implies
                    fb.pixel(px, py) == (if py == y as int
                        && cols_upto(rs, i as int + 2, px) {
                        color
                    } else {
                        fby.pixel(px, py)
                    }) by {
                    assert(cols_upto(rs, i as int + 2, px) == (cols_upto(rs, i as int, px)
                        || (col_of(rs, i as int) <= px < col_of(rs, i as int + 1))));
                }
            }
            i = i + 2;
        }
        let ghost iend = i as int;
        proof {
            assert(rs.len() == sorted@.len());
            assert forall|px: int, py: int| old(fb).in_bounds(px, py) implies
                fb.pixel(px, py) == (if py < y as int + 1 && fill_on(o, hs, px, py) {
                    color
                } else {
                    old(fb).pixel(px, py)
                }) by {
                assert(fby.in_bounds(px, py));
                assert(fby.pixel(px, py) == (if py < y as int && fill_on(o, hs, px, py) {
                    color
                } else {
                    old(fb).pixel(px, py)
                }));
                assert(fb.pixel(px, py) == (if py == y as int && cols_upto(rs, iend, px) {
                    color
                } else {
                    fby.pixel(px, py)
                }));
                lemma_cols_decomp(rs, iend, px);
                assert(!cols_range(rs, iend, px));
                if py == y as int {
                    assert(fill_on(o, hs, px, py) == pairs_cols(rs, px));
                }
            }
        }

        // Advance the remaining edges to the next row.
        let next = advance_edges(&sorted);
        active = next;
        proof {
            assert(reps_of(active@) == advanced(rs));
            assert(active@.len() == rs.len());
            assert(rs.len() == sorted@.len());
            assert forall|m: int| 0 <= m < active@.len() implies
                slack_ok(#[trigger] active@[m].rep(), y as int + 1 - y_mn as int) by {
                assert(reps_of(active@)[m] == advanced(rs)[m]);
                assert(rs[m] == sorted@[m].rep());
                assert(slack_ok(sorted@[m].rep(), y as int - y_mn as int));
            }
        }
        y = y + 1;
    }
    proof {
        assert forall|px: int, py: int| old(fb).in_bounds(px, py) implies
            fb.pixel(px, py) == (if fill_on(o, hs, px, py) {
                color
            } else {
                old(fb).pixel(px, py)
            }) by {
            if fill_on(o, hs, px, py) {
                assert(py < y_mx as int);
            }
        }
    }
}

} // verus!
