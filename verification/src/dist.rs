use crate::geom::{Segment, MAX_COORD};
use crate::nums::lemma_mul_bounds;
use vstd::prelude::*;

verus! {

/// Twice the cross product of `b - a` and `c - a`: positive when `c` lies to
/// the left of the directed line through `a` and `b`, zero when collinear.
pub open spec fn orient(ax: int, ay: int, bx: int, by: int, cx: int, cy: int) -> int {
    (bx - ax) * (cy - ay) - (by - ay) * (cx - ax)
}

/// `c` lies within the closed interval spanned by `a` and `b`.
pub open spec fn between(a: int, b: int, c: int) -> bool {
    (a <= c && c <= b) || (b <= c && c <= a)
}

/// The point lies on the closed segment.
pub open spec fn on_seg(s: Segment, px: int, py: int) -> bool {
    orient(s.ax as int, s.ay as int, s.bx as int, s.by as int, px, py) == 0 && between(
        s.ax as int,
        s.bx as int,
        px,
    ) && between(s.ay as int, s.by as int, py)
}

/// The two closed segments share at least one point.  A proper crossing puts
/// the endpoints of each segment strictly on opposite sides of the other's
/// line; every remaining touching case has an endpoint of one segment on the
/// other segment.
pub open spec fn segs_intersect(s: Segment, t: Segment) -> bool {
    let d1 = orient(t.ax as int, t.ay as int, t.bx as int, t.by as int, s.ax as int, s.ay as int);
    let d2 = orient(t.ax as int, t.ay as int, t.bx as int, t.by as int, s.bx as int, s.by as int);
    let d3 = orient(s.ax as int, s.ay as int, s.bx as int, s.by as int, t.ax as int, t.ay as int);
    let d4 = orient(s.ax as int, s.ay as int, s.bx as int, s.by as int, t.bx as int, t.by as int);
    (((d1 > 0 && d2 < 0) || (d1 < 0 && d2 > 0)) && ((d3 > 0 && d4 < 0) || (d3 < 0 && d4 > 0)))
        || on_seg(t, s.ax as int, s.ay as int) || on_seg(t, s.bx as int, s.by as int) || on_seg(
        s,
        t.ax as int,
        t.ay as int,
    ) || on_seg(s, t.bx as int, t.by as int)
}

/// The distance from point `p` to the closed segment `s` is at most `lim`,
/// decided exactly: the squared distance is a rational whose comparison with
/// `lim * lim` cross-multiplies by the (positive) denominator.
pub open spec fn point_seg_within(px: int, py: int, s: Segment, lim: int) -> bool {
    let wx = s.dx();
    let wy = s.dy();
    let vx = px - s.ax;
    let vy = py - s.ay;
    let c1 = vx * wx + vy * wy;
    let c2 = wx * wx + wy * wy;
    if c1 <= 0 {
        vx * vx + vy * vy <= lim * lim
    } else if c1 >= c2 {
        let ux = px - s.bx;
        let uy = py - s.by;
        ux * ux + uy * uy <= lim * lim
    } else {
        (vx * vx + vy * vy) * c2 - c1 * c1 <= lim * lim * c2
    }
}

/// The Euclidean distance between the two closed segments is at most `lim`.
///
/// For non-intersecting segments the minimum distance is attained between an
/// endpoint of one segment and the other segment, so testing the four
/// endpoint-to-segment distances is exact; intersecting segments are at
/// distance zero.
pub open spec fn segs_within(s: Segment, t: Segment, lim: int) -> bool {
    segs_intersect(s, t) || point_seg_within(t.ax as int, t.ay as int, s, lim) || point_seg_within(
        t.bx as int,
        t.by as int,
        s,
        lim,
    ) || point_seg_within(s.ax as int, s.ay as int, t, lim) || point_seg_within(
        s.bx as int,
        s.by as int,
        t,
        lim,
    )
}

fn orient_e(ax: i64, ay: i64, bx: i64, by: i64, cx: i64, cy: i64) -> (r: i128)
    requires
        -MAX_COORD <= ax <= MAX_COORD,
        -MAX_COORD <= ay <= MAX_COORD,
        -MAX_COORD <= bx <= MAX_COORD,
        -MAX_COORD <= by <= MAX_COORD,
        -MAX_COORD <= cx <= MAX_COORD,
        -MAX_COORD <= cy <= MAX_COORD,
    ensures
        r == orient(ax as int, ay as int, bx as int, by as int, cx as int, cy as int),
{
    proof {
        lemma_mul_bounds(bx - ax, 200_000_000, cy - ay, 200_000_000);
        lemma_mul_bounds(by - ay, 200_000_000, cx - ax, 200_000_000);
    }
    let p: i128 = (bx as i128 - ax as i128) * (cy as i128 - ay as i128);
    let q: i128 = (by as i128 - ay as i128) * (cx as i128 - ax as i128);
    p - q
}

fn on_seg_e(s: &Segment, px: i64, py: i64) -> (r: bool)
    requires
        s.bounded(),
        -MAX_COORD <= px <= MAX_COORD,
        -MAX_COORD <= py <= MAX_COORD,
    ensures
        r == on_seg(*s, px as int, py as int),
{
    let o = orient_e(s.ax, s.ay, s.bx, s.by, px, py);
    o == 0 && ((s.ax <= px && px <= s.bx) || (s.bx <= px && px <= s.ax)) && ((s.ay <= py && py
        <= s.by) || (s.by <= py && py <= s.ay))
}

/// Whether the two closed segments share a point.
pub fn segments_intersect(s: &Segment, t: &Segment) -> (r: bool)
    requires
        s.bounded(),
        t.bounded(),
    ensures
        r == segs_intersect(*s, *t),
{
    let d1 = orient_e(t.ax, t.ay, t.bx, t.by, s.ax, s.ay);
    let d2 = orient_e(t.ax, t.ay, t.bx, t.by, s.bx, s.by);
    let d3 = orient_e(s.ax, s.ay, s.bx, s.by, t.ax, t.ay);
    let d4 = orient_e(s.ax, s.ay, s.bx, s.by, t.bx, t.by);
    if ((d1 > 0 && d2 < 0) || (d1 < 0 && d2 > 0)) && ((d3 > 0 && d4 < 0) || (d3 < 0 && d4 > 0)) {
        true
    } else {
        on_seg_e(t, s.ax, s.ay) || on_seg_e(t, s.bx, s.by) || on_seg_e(s, t.ax, t.ay) || on_seg_e(
            s,
            t.bx,
            t.by,
        )
    }
}

fn point_seg_within_e(px: i64, py: i64, s: &Segment, lim: i64) -> (r: bool)
    requires
        s.bounded(),
        -MAX_COORD <= px <= MAX_COORD,
        -MAX_COORD <= py <= MAX_COORD,
        0 <= lim <= MAX_COORD,
    ensures
        r == point_seg_within(px as int, py as int, *s, lim as int),
{
    let wx: i128 = s.bx as i128 - s.ax as i128;
    let wy: i128 = s.by as i128 - s.ay as i128;
    let vx: i128 = px as i128 - s.ax as i128;
    let vy: i128 = py as i128 - s.ay as i128;
    proof {
        lemma_mul_bounds(vx as int, 200_000_000, wx as int, 200_000_000);
        lemma_mul_bounds(vy as int, 200_000_000, wy as int, 200_000_000);
        lemma_mul_bounds(wx as int, 200_000_000, wx as int, 200_000_000);
        lemma_mul_bounds(wy as int, 200_000_000, wy as int, 200_000_000);
        lemma_mul_bounds(vx as int, 200_000_000, vx as int, 200_000_000);
        lemma_mul_bounds(vy as int, 200_000_000, vy as int, 200_000_000);
        lemma_mul_bounds(lim as int, 200_000_000, lim as int, 200_000_000);
    }
    let c1: i128 = vx * wx + vy * wy;
    let c2: i128 = wx * wx + wy * wy;
    let lim2: i128 = (lim as i128) * (lim as i128);
    if c1 <= 0 {
        vx * vx + vy * vy <= lim2
    } else if c1 >= c2 {
        let ux: i128 = px as i128 - s.bx as i128;
        let uy: i128 = py as i128 - s.by as i128;
        proof {
            lemma_mul_bounds(ux as int, 200_000_000, ux as int, 200_000_000);
            lemma_mul_bounds(uy as int, 200_000_000, uy as int, 200_000_000);
        }
        ux * ux + uy * uy <= lim2
    } else {
        let vv: i128 = vx * vx + vy * vy;
        proof {
            lemma_mul_bounds(
                vv as int,
                80_000_000_000_000_000,
                c2 as int,
                80_000_000_000_000_000,
            );
            lemma_mul_bounds(
                c1 as int,
                80_000_000_000_000_000,
                c1 as int,
                80_000_000_000_000_000,
            );
            lemma_mul_bounds(
                lim2 as int,
                80_000_000_000_000_000,
                c2 as int,
                80_000_000_000_000_000,
            );
        }
        vv * c2 - c1 * c1 <= lim2 * c2
    }
}

/// Whether the Euclidean distance between the two segments is at most `lim`.
pub fn within_distance(s: &Segment, t: &Segment, lim: i64) -> (r: bool)
    requires
        s.bounded(),
        t.bounded(),
        0 <= lim <= MAX_COORD,
    ensures
        r == segs_within(*s, *t, lim as int),
{
    if segments_intersect(s, t) {
        true
    } else {
        point_seg_within_e(t.ax, t.ay, s, lim) || point_seg_within_e(t.bx, t.by, s, lim)
            || point_seg_within_e(s.ax, s.ay, t, lim) || point_seg_within_e(s.bx, s.by, t, lim)
    }
}

} // verus!
