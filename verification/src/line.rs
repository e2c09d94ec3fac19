use vstd::prelude::*;
use crate::color::Color;
use crate::framebuffer::Framebuffer;

verus! {

/// Absolute value of a mathematical integer.
pub open spec fn iabs(a: int) -> int {
    if a < 0 { -a } else { a }
}

/// Larger of two mathematical integers.
pub open spec fn imax(a: int, b: int) -> int {
    if a < b { b } else { a }
}

/// Smaller of two mathematical integers.
pub open spec fn imin(a: int, b: int) -> int {
    if a < b { a } else { b }
}

/// A point sequence as mathematical integer pairs.
pub open spec fn pt_ints(s: Seq<(i32, i32)>) -> Seq<(int, int)> {
    s.map_values(|p: (i32, i32)| (p.0 as int, p.1 as int))
}

/// The step taken along one axis: +1 when moving toward a larger coordinate,
/// -1 otherwise (also when the endpoints agree, in which case no step on that
/// axis is ever taken).
pub open spec fn step_of(a: int, b: int) -> int {
    if a < b { 1 } else { -1 }
}

/// Pixels still to be emitted by the rasterizer from state (x, y) with error
/// term `err`, the target being (x1, y1). `sx`, `sy`, `dx`, `dy` are the
/// constants of the run: `dx = |x1 - x0|`, `dy = -|y1 - y0|`. Each step moves
/// x when `2*err >= dy` and y when `2*err <= dx` (both may move at once,
/// giving a diagonal step), and the recursion stops at the target. States
/// whose step would not approach the target are cut off so that the
/// definition is total; the rasterizer never reaches such a state.
pub open spec fn line_rest(
    x: int, y: int, x1: int, y1: int, sx: int, sy: int, dx: int, dy: int, err: int,
) -> Seq<(int, int)>
    decreases iabs(x1 - x) + iabs(y1 - y),
{
    if x == x1 && y == y1 {
        seq![(x, y)]
    } else {
        let e2 = 2 * err;
        let x2 = if e2 >= dy { x + sx } else { x };
        let err2 = if e2 >= dy { err + dy } else { err };
        let y2 = if e2 <= dx { y + sy } else { y };
        let err3 = if e2 <= dx { err2 + dx } else { err2 };
        if iabs(x1 - x2) + iabs(y1 - y2) < iabs(x1 - x) + iabs(y1 - y) {
            seq![(x, y)] + line_rest(x2, y2, x1, y1, sx, sy, dx, dy, err3)
        } else {
            seq![(x, y)]
        }
    }
}

/// The full pixel sequence of the Bresenham line from (x0, y0) to (x1, y1),
/// endpoints included.
pub open spec fn line_seq(x0: int, y0: int, x1: int, y1: int) -> Seq<(int, int)> {
    let dx = iabs(x1 - x0);
    let dy = -iabs(y1 - y0);
    line_rest(x0, y0, x1, y1, step_of(x0, x1), step_of(y0, y1), dx, dy, dx + dy)
}

/// Whether pixel p lies on the line from (x0, y0) to (x1, y1).
pub open spec fn on_line(x0: int, y0: int, x1: int, y1: int, p: (int, int)) -> bool {
    line_seq(x0, y0, x1, y1).contains(p)
}

/// Two distinct pixels within a king's move of each other: the connectedness
/// of an 8-path.
pub open spec fn adjacent8(a: (int, int), b: (int, int)) -> bool {
    a != b && iabs(a.0 - b.0) <= 1 && iabs(a.1 - b.1) <= 1
}

/// Consecutive entries of the point sequence are 8-adjacent.
pub open spec fn adj_at(s: Seq<(i32, i32)>, k: int) -> bool {
    adjacent8((s[k].0 as int, s[k].1 as int), (s[k + 1].0 as int, s[k + 1].1 as int))
}

proof fn lemma_mul_sub_one(a: int, b: int)
    ensures
        a * (b - 1) == a * b - a,
{
    assert(a * (b - 1) == a * b - a) by (nonlinear_arith);
}

proof fn lemma_mul_ge_self(a: int, v: int)
    requires
        a >= 0,
        v >= 1,
    ensures
        a * v >= a,
{
    assert(a * v >= a) by (nonlinear_arith)
        requires
            a >= 0,
            v >= 1,
    ;
}

proof fn lemma_pt_ints_push(s: Seq<(i32, i32)>, p: (i32, i32))
    ensures
        pt_ints(s.push(p)) == pt_ints(s).push((p.0 as int, p.1 as int)),
{
    assert(pt_ints(s.push(p)) =~= pt_ints(s).push((p.0 as int, p.1 as int)));
}

/// The Bresenham pixel sequence from (x0, y0) to (x1, y1): both endpoints are
/// emitted, consecutive pixels are 8-adjacent, and the length is exactly
/// `max(|x1 - x0|, |y1 - y0|) + 1`.
pub fn line_points(x0: i32, y0: i32, x1: i32, y1: i32) -> (pts: Vec<(i32, i32)>)
    ensures
        pt_ints(pts@) == line_seq(x0 as int, y0 as int, x1 as int, y1 as int),
        pts@.len() == 1 + imax(iabs(x1 as int - x0 as int), iabs(y1 as int - y0 as int)),
        pts@[0] == (x0, y0),
        pts@[pts@.len() - 1] == (x1, y1),
        forall|k: int| 0 <= k < pts@.len() - 1 ==> #[trigger] adj_at(pts@, k),
{
    let ghost xx0 = x0 as int;
    let ghost yy0 = y0 as int;
    let ghost xx1 = x1 as int;
    let ghost yy1 = y1 as int;
    let ghost a = iabs(xx1 - xx0);
    let ghost b = iabs(yy1 - yy0);

    let dxt: i64 = x1 as i64 - x0 as i64;
    let dx: i64 = if dxt < 0 { -dxt } else { dxt };
    let sx: i32 = if x0 < x1 { 1 } else { -1 };
    let dyt: i64 = y1 as i64 - y0 as i64;
    let dy: i64 = if dyt < 0 { dyt } else { -dyt };
    let sy: i32 = if y0 < y1 { 1 } else { -1 };
    let mut err: i64 = dx + dy;

    let mut x: i32 = x0;
    let mut y: i32 = y0;
    let mut pts: Vec<(i32, i32)> = Vec::new();
    pts.push((x, y));
    proof {
        assert(a * b == b * a) by (nonlinear_arith);
        assert(pt_ints(pts@) =~= seq![(xx0, yy0)]);
        assert(pt_ints(pts@).drop_last() =~= Seq::<(int, int)>::empty());
        assert(Seq::<(int, int)>::empty() + line_rest(xx0, yy0, xx1, yy1, step_of(xx0, xx1),
            step_of(yy0, yy1), a, -b, a - b) =~= line_rest(xx0, yy0, xx1, yy1,
            step_of(xx0, xx1), step_of(yy0, yy1), a, -b, a - b));
    }
    while !(x == x1 && y == y1)
        invariant
            xx0 == x0 as int,
            yy0 == y0 as int,
            xx1 == x1 as int,
            yy1 == y1 as int,
            sx as int == step_of(xx0, xx1),
            sy as int == step_of(yy0, yy1),
            dx as int == a,
            dy as int == -b,
            a == iabs(xx1 - xx0),
            b == iabs(yy1 - yy0),
            imin(xx0, xx1) <= x as int <= imax(xx0, xx1),
            imin(yy0, yy1) <= y as int <= imax(yy0, yy1),
            err as int == a - b - a * iabs(yy1 - y as int) + b * iabs(xx1 - x as int),
            a >= b ==> -b <= 2 * (err as int) && 2 * (err as int) <= 3 * a
                && pts@.len() == 1 + (a - iabs(xx1 - x as int)),
            b > a ==> 2 * (err as int) <= a && -3 * b <= 2 * (err as int)
                && pts@.len() == 1 + (b - iabs(yy1 - y as int)),
            pts@.len() >= 1,
            pts@[0] == (x0, y0),
            pts@[pts@.len() - 1] == (x, y),
            forall|k: int| 0 <= k < pts@.len() - 1 ==> #[trigger] adj_at(pts@, k),
            line_seq(xx0, yy0, xx1, yy1) == pt_ints(pts@).drop_last()
                + line_rest(x as int, y as int, xx1, yy1, sx as int, sy as int,
                    a, -b, err as int),
        decreases iabs(xx1 - x as int) + iabs(yy1 - y as int),
    {
        let ghost cx = x as int;
        let ghost cy = y as int;
        let ghost cerr = err as int;
        let ghost uu = iabs(xx1 - cx);
        let ghost vv = iabs(yy1 - cy);

        let e2: i64 = 2 * err;
        let fx: bool = e2 >= dy;
        let fy: bool = e2 <= dx;
        proof {
            // At least one axis moves: otherwise 2*err < -b <= 0 <= a < 2*err.
            assert(fx || fy);
            // The x step never fires once x has reached x1 (unless both
            // coordinates are done, and then the loop has exited).
            if uu == 0 {
                assert(vv >= 1);
                assert(b * uu == 0) by (nonlinear_arith)
                    requires
                        uu == 0,
                ;
                assert(cerr == a - b - a * vv);
                if fx {
                    lemma_mul_ge_self(a, vv);
                    assert(2 * cerr >= -b);
                    assert(2 * (a - b - a * vv) <= 2 * (a - b) - 2 * a);
                    assert(false);
                }
            }
            // Likewise the y step never fires once y has reached y1.
            if vv == 0 {
                assert(uu >= 1);
                assert(a * vv == 0) by (nonlinear_arith)
                    requires
                        vv == 0,
                ;
                assert(cerr == a - b + b * uu);
                if fy {
                    lemma_mul_ge_self(b, uu);
                    assert(false);
                }
            }
        }
        if fx {
            proof {
                assert(uu >= 1);
                if xx0 < xx1 {
                    assert(x < x1);
                } else {
                    assert(x > x1);
                }
            }
            err = err + dy;
            x = x + sx;
        }
        if fy {
            proof {
                assert(vv >= 1);
                if yy0 < yy1 {
                    assert(y < y1);
                } else {
                    assert(y > y1);
                }
            }
            err = err + dx;
            y = y + sy;
        }
        proof {
            let nx = x as int;
            let ny = y as int;
            if fx {
                assert(iabs(xx1 - nx) == uu - 1);
                lemma_mul_sub_one(b, uu);
            }
            if fy {
                assert(iabs(yy1 - ny) == vv - 1);
                lemma_mul_sub_one(a, vv);
            }
            assert(err as int == a - b - a * iabs(yy1 - ny) + b * iabs(xx1 - nx));
            // One unfolding of the spec at the previous state.
            assert(line_rest(cx, cy, xx1, yy1, sx as int, sy as int, a, -b, cerr)
                == seq![(cx, cy)] + line_rest(nx, ny, xx1, yy1, sx as int, sy as int,
                    a, -b, err as int));
        }
        let ghost before = pts@;
        pts.push((x, y));
        proof {
            lemma_pt_ints_push(before, (x, y));
            assert(pt_ints(pts@).drop_last() =~= pt_ints(before));
            assert(pt_ints(before).drop_last() + (seq![(cx, cy)]
                + line_rest(x as int, y as int, xx1, yy1, sx as int, sy as int,
                    a, -b, err as int))
                =~= pt_ints(before)
                    + line_rest(x as int, y as int, xx1, yy1, sx as int, sy as int,
                        a, -b, err as int));
            assert(forall|k: int| 0 <= k < before.len() - 1
                ==> adj_at(before, k) == #[trigger] adj_at(pts@, k));
            assert(adj_at(pts@, pts@.len() - 2));
        }
    }
    proof {
        assert(line_rest(x as int, y as int, xx1, yy1, sx as int, sy as int, a, -b,
            err as int) == seq![(xx1, yy1)]);
        assert(pt_ints(pts@).drop_last().push((xx1, yy1)) =~= pt_ints(pts@));
        assert(pt_ints(pts@).drop_last() + seq![(xx1, yy1)]
            =~= pt_ints(pts@).drop_last().push((xx1, yy1)));
    }
    pts
}

proof fn lemma_cons_contains(a: (int, int), t: Seq<(int, int)>, p: (int, int))
    ensures
        (seq![a] + t).contains(p) <==> (p == a || t.contains(p)),
{
    let s = seq![a] + t;
    if s.contains(p) {
        let i = choose|i: int| 0 <= i < s.len() && s[i] == p;
        if i > 0 {
            assert(t[i - 1] == p);
        }
    }
    if p == a {
        assert(s[0] == p);
    }
    if t.contains(p) {
        let i = choose|i: int| 0 <= i < t.len() && t[i] == p;
        assert(s[i + 1] == p);
    }
}

proof fn lemma_vertical_rest(x: int, y: int, y1: int, sx: int, sy: int, b: int)
    requires
        b >= 1,
        sy == 1 || sy == -1,
        sy == 1 ==> y <= y1,
        sy == -1 ==> y >= y1,
    ensures
        forall|p: (int, int)| line_rest(x, y, x, y1, sx, sy, 0, -b, -b).contains(p)
            <==> (p.0 == x && imin(y, y1) <= p.1 <= imax(y, y1)),
    decreases iabs(y1 - y),
{
    let s = line_rest(x, y, x, y1, sx, sy, 0, -b, -b);
    if y == y1 {
        assert(s == seq![(x, y)]);
        assert forall|p: (int, int)| s.contains(p)
            implies (p.0 == x && imin(y, y1) <= p.1 <= imax(y, y1)) by {
            let i = choose|i: int| 0 <= i < s.len() && s[i] == p;
        }
        assert(s[0] == (x, y));
    } else {
        lemma_vertical_rest(x, y + sy, y1, sx, sy, b);
        assert(s == seq![(x, y)] + line_rest(x, y + sy, x, y1, sx, sy, 0, -b, -b));
        assert forall|p: (int, int)| s.contains(p)
            <==> (p.0 == x && imin(y, y1) <= p.1 <= imax(y, y1)) by {
            lemma_cons_contains((x, y), line_rest(x, y + sy, x, y1, sx, sy, 0, -b, -b), p);
        }
    }
}

proof fn lemma_horizontal_rest(x: int, y: int, x1: int, sx: int, sy: int, a: int)
    requires
        a >= 1,
        sx == 1 || sx == -1,
        sx == 1 ==> x <= x1,
        sx == -1 ==> x >= x1,
    ensures
        forall|p: (int, int)| line_rest(x, y, x1, y, sx, sy, a, 0, a).contains(p)
            <==> (p.1 == y && imin(x, x1) <= p.0 <= imax(x, x1)),
    decreases iabs(x1 - x),
{
    let s = line_rest(x, y, x1, y, sx, sy, a, 0, a);
    if x == x1 {
        assert(s == seq![(x, y)]);
        assert forall|p: (int, int)| s.contains(p)
            implies (p.1 == y && imin(x, x1) <= p.0 <= imax(x, x1)) by {
            let i = choose|i: int| 0 <= i < s.len() && s[i] == p;
        }
        assert(s[0] == (x, y));
    } else {
        lemma_horizontal_rest(x + sx, y, x1, sx, sy, a);
        assert(s == seq![(x, y)] + line_rest(x + sx, y, x1, y, sx, sy, a, 0, a));
        assert forall|p: (int, int)| s.contains(p)
            <==> (p.1 == y && imin(x, x1) <= p.0 <= imax(x, x1)) by {
            lemma_cons_contains((x, y), line_rest(x + sx, y, x1, y, sx, sy, a, 0, a), p);
        }
    }
}

/// Membership along a diagonal run: sign-product identities are proved by
/// splitting on the two unit signs, which keeps everything linear.
proof fn lemma_sign_mul(s: int, a: int, b: int)
    requires
        s == 1 || s == -1,
    ensures
        s * (a - b) == (if s == 1 { a - b } else { b - a }),
{
    if s == 1 {
        assert(s * (a - b) == a - b) by (nonlinear_arith)
            requires
                s == 1,
        ;
    } else {
        assert(s * (a - b) == b - a) by (nonlinear_arith)
            requires
                s == -1,
        ;
    }
}

proof fn lemma_diagonal_rest(x: int, y: int, x1: int, y1: int, sx: int, sy: int, a0: int)
    requires
        a0 >= 1,
        sx == 1 || sx == -1,
        sy == 1 || sy == -1,
        sx * (x1 - x) == sy * (y1 - y),
        sx * (x1 - x) >= 0,
    ensures
        forall|p: (int, int)| line_rest(x, y, x1, y1, sx, sy, a0, -a0, 0).contains(p)
            <==> (sx * (p.0 - x) == sy * (p.1 - y) && 0 <= sx * (p.0 - x) <= sx * (x1 - x)),
    decreases iabs(x1 - x),
{
    let a = sx * (x1 - x);
    let s = line_rest(x, y, x1, y1, sx, sy, a0, -a0, 0);
    lemma_sign_mul(sx, x1, x);
    lemma_sign_mul(sy, y1, y);
    assert forall|p: (int, int)| true implies (sx * (p.0 - x)
        == (if sx == 1 { p.0 - x } else { x - p.0 })) && (sy * (p.1 - y)
        == (if sy == 1 { p.1 - y } else { y - p.1 })) by {
        lemma_sign_mul(sx, p.0, x);
        lemma_sign_mul(sy, p.1, y);
    }
    if x == x1 && y == y1 {
        assert(s == seq![(x, y)]);
        assert forall|p: (int, int)| s.contains(p)
            implies (sx * (p.0 - x) == sy * (p.1 - y) && 0 <= sx * (p.0 - x) <= a) by {
            let i = choose|i: int| 0 <= i < s.len() && s[i] == p;
        }
        assert(s[0] == (x, y));
    } else {
        assert(a >= 1);
        lemma_sign_mul(sx, x1, x + sx);
        lemma_sign_mul(sy, y1, y + sy);
        assert(sx * (x1 - (x + sx)) == a - 1);
        assert(sy * (y1 - (y + sy)) == a - 1);
        assert(iabs(x1 - (x + sx)) + iabs(y1 - (y + sy)) < iabs(x1 - x) + iabs(y1 - y));
        lemma_diagonal_rest(x + sx, y + sy, x1, y1, sx, sy, a0);
        assert(s == seq![(x, y)] + line_rest(x + sx, y + sy, x1, y1, sx, sy, a0, -a0, 0));
        assert forall|p: (int, int)| s.contains(p)
            <==> (sx * (p.0 - x) == sy * (p.1 - y) && 0 <= sx * (p.0 - x) <= a) by {
            lemma_cons_contains((x, y), line_rest(x + sx, y + sy, x1, y1, sx, sy, a0,
                -a0, 0), p);
            lemma_sign_mul(sx, p.0, x);
            lemma_sign_mul(sy, p.1, y);
            lemma_sign_mul(sx, p.0, x + sx);
            lemma_sign_mul(sy, p.1, y + sy);
        }
    }
}

/// Reversal symmetry for axis-aligned and exactly diagonal lines: plotting
/// P0 to P1 covers the same pixel set as plotting P1 to P0. (A line of
/// another slope can round a half-step crossing to different rows in the two
/// directions, so this is stated only for these slopes.)
pub proof fn lemma_reverse_same_pixels(x0: int, y0: int, x1: int, y1: int)
    requires
        x0 == x1 || y0 == y1 || iabs(x1 - x0) == iabs(y1 - y0),
    ensures
        forall|p: (int, int)| line_seq(x0, y0, x1, y1).contains(p)
            <==> line_seq(x1, y1, x0, y0).contains(p),
{
    let fwd = line_seq(x0, y0, x1, y1);
    let rev = line_seq(x1, y1, x0, y0);
    if x0 == x1 && y0 == y1 {
        assert(fwd == rev);
    } else if x0 == x1 {
        let b = iabs(y1 - y0);
        lemma_vertical_rest(x0, y0, y1, step_of(x0, x1), step_of(y0, y1), b);
        lemma_vertical_rest(x0, y1, y0, step_of(x1, x0), step_of(y1, y0), b);
        assert(fwd == line_rest(x0, y0, x0, y1, step_of(x0, x1), step_of(y0, y1), 0, -b,
            -b));
        assert(rev == line_rest(x0, y1, x0, y0, step_of(x1, x0), step_of(y1, y0), 0, -b,
            -b));
        assert forall|p: (int, int)| fwd.contains(p) <==> rev.contains(p) by {
            assert(fwd.contains(p) <==> (p.0 == x0 && imin(y0, y1) <= p.1 <= imax(y0, y1)));
            assert(rev.contains(p) <==> (p.0 == x0 && imin(y1, y0) <= p.1 <= imax(y1, y0)));
        }
    } else if y0 == y1 {
        let a = iabs(x1 - x0);
        lemma_horizontal_rest(x0, y0, x1, step_of(x0, x1), step_of(y0, y1), a);
        lemma_horizontal_rest(x1, y0, x0, step_of(x1, x0), step_of(y1, y0), a);
        assert(fwd == line_rest(x0, y0, x1, y0, step_of(x0, x1), step_of(y0, y1), a, 0,
            a));
        assert(rev == line_rest(x1, y0, x0, y0, step_of(x1, x0), step_of(y1, y0), a, 0,
            a));
        assert forall|p: (int, int)| fwd.contains(p) <==> rev.contains(p) by {
            assert(fwd.contains(p) <==> (p.1 == y0 && imin(x0, x1) <= p.0 <= imax(x0, x1)));
            assert(rev.contains(p) <==> (p.1 == y0 && imin(x1, x0) <= p.0 <= imax(x1, x0)));
        }
    } else {
        let a = iabs(x1 - x0);
        let sx = step_of(x0, x1);
        let sy = step_of(y0, y1);
        lemma_sign_mul(sx, x1, x0);
        lemma_sign_mul(sy, y1, y0);
        lemma_sign_mul(-sx, x0, x1);
        lemma_sign_mul(-sy, y0, y1);
        assert(sx * (x1 - x0) == a);
        assert(sy * (y1 - y0) == a);
        lemma_diagonal_rest(x0, y0, x1, y1, sx, sy, a);
        assert(step_of(x1, x0) == -sx);
        assert(step_of(y1, y0) == -sy);
        lemma_diagonal_rest(x1, y1, x0, y0, -sx, -sy, a);
        assert(fwd == line_rest(x0, y0, x1, y1, sx, sy, a, -a, 0));
        assert(rev == line_rest(x1, y1, x0, y0, -sx, -sy, a, -a, 0));
        assert forall|p: (int, int)| fwd.contains(p) <==> rev.contains(p) by {
            assert(fwd.contains(p) <==> (sx * (p.0 - x0) == sy * (p.1 - y0)
                && 0 <= sx * (p.0 - x0) <= sx * (x1 - x0)));
            assert(rev.contains(p) <==> ((-sx) * (p.0 - x1) == (-sy) * (p.1 - y1)
                && 0 <= (-sx) * (p.0 - x1) <= (-sx) * (x0 - x1)));
            lemma_sign_mul(sx, p.0, x0);
            lemma_sign_mul(sy, p.1, y0);
            lemma_sign_mul(-sx, p.0, x1);
            lemma_sign_mul(-sy, p.1, y1);
        }
    }
}

/// The endpoint of polygon side i: the next vertex, wrapping around to the
/// first vertex for the closing side.
pub open spec fn seg_end(pts: Seq<(int, int)>, i: int) -> (int, int) {
    if i + 1 < pts.len() { pts[i + 1] } else { pts[0] }
}

/// Pixel p lies on polygon side i.
pub open spec fn on_segment(pts: Seq<(int, int)>, i: int, p: (int, int)) -> bool {
    on_line(pts[i].0, pts[i].1, seg_end(pts, i).0, seg_end(pts, i).1, p)
}

/// Pixel p lies on one of the first n sides of the polygon.
pub open spec fn on_outline_upto(pts: Seq<(int, int)>, n: int, p: (int, int)) -> bool {
    exists|i: int| 0 <= i < n && on_segment(pts, i, p)
}

/// Pixel p lies on the polygon's outline: on any side, the closing side from
/// the last vertex back to the first included.
pub open spec fn on_outline(pts: Seq<(int, int)>, p: (int, int)) -> bool {
    on_outline_upto(pts, pts.len() as int, p)
}

/// Draws the outline of a polygon: one Bresenham segment per consecutive
/// vertex pair, closing side included, all in the same color. Fewer than two
/// points leave the buffer entirely untouched.
pub fn draw_polygon(fb: &mut Framebuffer, points: &Vec<(i32, i32)>, color: Color)
    requires
        old(fb).wf(),
    ensures
        final(fb).wf(),
        points@.len() < 2 ==> *final(fb) == *old(fb),
        points@.len() >= 2 ==> final(fb).width_spec() == old(fb).width_spec()
            && final(fb).height_spec() == old(fb).height_spec()
            && final(fb).background_spec() == old(fb).background_spec()
            && final(fb).current_spec() == color
            && (forall|px: int, py: int| old(fb).in_bounds(px, py)
                ==> final(fb).pixel(px, py) == (if on_outline(pt_ints(points@), (px, py)) {
                    color
                } else {
                    old(fb).pixel(px, py)
                })),
{
    if points.len() < 2 {
        return;
    }
    let n = points.len();
    let ghost s = pt_ints(points@);
    let mut i: usize = 0;
    while i < n
        invariant
            fb.wf(),
            n == points@.len(),
            n >= 2,
            s == pt_ints(points@),
            i <= n,
            fb.width_spec() == old(fb).width_spec(),
            fb.height_spec() == old(fb).height_spec(),
            fb.background_spec() == old(fb).background_spec(),
            i > 0 ==> fb.current_spec() == color,
            i == 0 ==> fb.current_spec() == old(fb).current_spec(),
            forall|px: int, py: int| old(fb).in_bounds(px, py)
                ==> fb.pixel(px, py) == (if on_outline_upto(s, i as int, (px, py)) {
                    color
                } else {
                    old(fb).pixel(px, py)
                }),
        decreases n - i,
    {
        let p0 = points[i];
        let p1 = if i + 1 < n { points[i + 1] } else { points[0] };
        plot_line_bresenham(fb, p0.0, p0.1, p1.0, p1.1, color);
        proof {
            assert(s[i as int] == (p0.0 as int, p0.1 as int));
            assert(seg_end(s, i as int) == (p1.0 as int, p1.1 as int));
            assert forall|px: int, py: int| old(fb).in_bounds(px, py) implies
                fb.pixel(px, py) == (if on_outline_upto(s, i as int + 1, (px, py)) {
                    color
                } else {
                    old(fb).pixel(px, py)
                }) by {
                if on_outline_upto(s, i as int + 1, (px, py)) {
                    if on_segment(s, i as int, (px, py)) {
                        assert(fb.pixel(px, py) == color);
                    } else {
                        let j = choose|j: int| 0 <= j < i as int + 1
                            && on_segment(s, j, (px, py));
                        assert(on_outline_upto(s, i as int, (px, py)));
                        assert(fb.pixel(px, py) == color);
                    }
                } else {
                    assert(!on_segment(s, i as int, (px, py)));
                    assert(!on_outline_upto(s, i as int, (px, py)));
                }
            }
        }
        i = i + 1;
    }
}

/// Sets the drawing color, then plots the Bresenham line from (x0, y0) to
/// (x1, y1): afterwards every in-bounds pixel on the line holds `color` and
/// every other pixel is untouched.
pub fn plot_line_bresenham(fb: &mut Framebuffer, x0: i32, y0: i32, x1: i32, y1: i32, color: Color)
    requires
        old(fb).wf(),
    ensures
        final(fb).wf(),
        final(fb).width_spec() == old(fb).width_spec(),
        final(fb).height_spec() == old(fb).height_spec(),
        final(fb).background_spec() == old(fb).background_spec(),
        final(fb).current_spec() == color,
        forall|px: int, py: int| old(fb).in_bounds(px, py)
            ==> final(fb).pixel(px, py) == (if on_line(x0 as int, y0 as int, x1 as int,
                y1 as int, (px, py)) {
                color
            } else {
                old(fb).pixel(px, py)
            }),
{
    fb.set_current_color(color);
    let pts = line_points(x0, y0, x1, y1);
    let ghost fb0 = *fb;
    let mut k: usize = 0;
    while k < pts.len()
        invariant
            fb.wf(),
            fb.same_config(fb0),
            fb0.width_spec() == old(fb).width_spec(),
            fb0.height_spec() == old(fb).height_spec(),
            fb0.background_spec() == old(fb).background_spec(),
            fb0.current_spec() == color,
            forall|px: int, py: int| fb0.in_bounds(px, py)
                ==> fb0.pixel(px, py) == old(fb).pixel(px, py),
            k <= pts@.len(),
            pt_ints(pts@) == line_seq(x0 as int, y0 as int, x1 as int, y1 as int),
            forall|px: int, py: int| fb0.in_bounds(px, py)
                ==> fb.pixel(px, py) == (if pt_ints(pts@).take(k as int).contains((px, py)) {
                    color
                } else {
                    fb0.pixel(px, py)
                }),
        decreases pts@.len() - k,
    {
        let p = pts[k];
        let ghost prev = *fb;
        fb.set_pixel(p.0, p.1);
        proof {
            assert(pt_ints(pts@)[k as int] == (p.0 as int, p.1 as int));
            assert forall|px: int, py: int| fb0.in_bounds(px, py) implies
                fb.pixel(px, py) == (if pt_ints(pts@).take(k as int + 1).contains((px, py)) {
                    color
                } else {
                    fb0.pixel(px, py)
                }) by {
                let t = pt_ints(pts@).take(k as int + 1);
                if px == p.0 as int && py == p.1 as int {
                    assert(t[k as int] == (px, py));
                    assert(t.contains((px, py)));
                } else {
                    assert(fb.pixel(px, py) == prev.pixel(px, py));
                    if t.contains((px, py)) {
                        let j = choose|j: int| 0 <= j < t.len() && t[j] == (px, py);
                        assert(pt_ints(pts@).take(k as int)[j] == (px, py));
                        assert(pt_ints(pts@).take(k as int).contains((px, py)));
                    } else {
                        assert(!pt_ints(pts@).take(k as int).contains((px, py)));
                    }
                }
            }
        }
        k = k + 1;
    }
    proof {
        assert(pt_ints(pts@).take(pts@.len() as int) =~= pt_ints(pts@));
        assert forall|px: int, py: int| old(fb).in_bounds(px, py) implies
            fb.pixel(px, py) == (if on_line(x0 as int, y0 as int, x1 as int, y1 as int,
                (px, py)) {
                color
            } else {
                old(fb).pixel(px, py)
            }) by {
            assert(fb0.in_bounds(px, py));
            assert(fb.pixel(px, py) == (if pt_ints(pts@).take(pts@.len() as int).contains(
                (px, py)) {
                color
            } else {
                fb0.pixel(px, py)
            }));
        }
    }
}

} // verus!
