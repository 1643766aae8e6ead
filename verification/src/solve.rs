use crate::geom::{BBox, Interval, Segment};
use crate::nums::{abs_i, isqrt, isqrt_spec, lemma_isqrt_lt, lemma_mul_bounds, sgn};
use vstd::prelude::*;

verus! {

/// Largest numerator magnitude a solved endpoint can carry.
pub const MAX_RAT_NUM: i128 = 250_000_000_000_000_000;

/// A point with rational coordinates `(nx / den, ny / den)`.
#[derive(Clone, Copy, PartialEq, Eq, Structural, Debug)]
pub struct RatPoint {
    pub nx: i128,
    pub ny: i128,
    pub den: i128,
}

pub open spec fn rp(nx: int, ny: int, den: int) -> RatPoint {
    RatPoint { nx: nx as i128, ny: ny as i128, den: den as i128 }
}

impl RatPoint {
    pub open spec fn bounded(self) -> bool {
        -MAX_RAT_NUM <= self.nx <= MAX_RAT_NUM && -MAX_RAT_NUM <= self.ny <= MAX_RAT_NUM && 1
            <= self.den <= MAX_RAT_NUM
    }
}

/// The two points of `s`'s carrying line whose x coordinates are the ends of
/// `ov`: the y values solve the line equation `y = ay + dy * (x - ax) / dx`.
/// A vertical segment admits any y, and then `ov` collapses to a single x, so
/// both points take the segment's first y value.
pub open spec fn points_no_y_overlap(ov: Interval, s: Segment) -> (RatPoint, RatPoint) {
    if s.dx() == 0 {
        (rp(ov.lo as int, s.ay as int, 1), rp(ov.hi as int, s.ay as int, 1))
    } else {
        let d = abs_i(s.dx());
        let sg = sgn(s.dx());
        (
            rp(ov.lo * d, s.ay * d + s.dy() * (ov.lo - s.ax) * sg, d),
            rp(ov.hi * d, s.ay * d + s.dy() * (ov.hi - s.ax) * sg, d),
        )
    }
}

/// The two points of `s`'s carrying line whose y coordinates are the ends of
/// `ov`, solving `x = ax + dx * (y - ay) / dy`; for a vertical segment both
/// solved x values degenerate to the segment's own x, and for a horizontal
/// one `ov` collapses to a single y.
pub open spec fn points_no_x_overlap(ov: Interval, s: Segment) -> (RatPoint, RatPoint) {
    if s.dy() == 0 {
        (rp(s.ax as int, ov.lo as int, 1), rp(s.ax as int, ov.hi as int, 1))
    } else {
        let d = abs_i(s.dy());
        let sg = sgn(s.dy());
        (
            rp(s.ax * d + s.dx() * (ov.lo - s.ay) * sg, ov.lo * d, d),
            rp(s.ax * d + s.dx() * (ov.hi - s.ay) * sg, ov.hi * d, d),
        )
    }
}

/// Endpoints of the shared sub-segment when both axes overlap, by similar
/// triangles against the source bounding box of width `w` and height `h`:
/// the x span matching a y span of `dy` is `dy * w / h`.
pub open spec fn points_known_overlaps(xov: Interval, yov: Interval, bb: BBox) -> (
    RatPoint,
    RatPoint,
) {
    let w = bb.max_x - bb.min_x;
    let h = bb.max_y - bb.min_y;
    if h == 0 {
        (rp(xov.lo as int, yov.lo as int, 1), rp(xov.hi as int, yov.hi as int, 1))
    } else {
        let dyo = yov.hi - yov.lo;
        (rp(xov.hi * h - dyo * w, yov.lo * h, h), rp(xov.hi * h, yov.hi * h, h))
    }
}

/// Solves the shared sub-segment's endpoints when only the x ranges overlap.
pub fn solve_no_y_overlap(x_overlap: Interval, x: &Segment) -> (r: (RatPoint, RatPoint))
    requires
        x.bounded(),
        x_overlap.wf(),
        x_overlap.bounded(),
    ensures
        r == points_no_y_overlap(x_overlap, *x),
        r.0.bounded(),
        r.1.bounded(),
{
    if x.bx == x.ax {
        (
            RatPoint { nx: x_overlap.lo as i128, ny: x.ay as i128, den: 1 },
            RatPoint { nx: x_overlap.hi as i128, ny: x.ay as i128, den: 1 },
        )
    } else {
        let dx: i128 = x.bx as i128 - x.ax as i128;
        let dy: i128 = x.by as i128 - x.ay as i128;
        let d: i128 = if dx < 0 {
            -dx
        } else {
            dx
        };
        let sg: i128 = if dx < 0 {
            -1
        } else {
            1
        };
        proof {
            lemma_mul_bounds(x_overlap.lo as int, 200_000_000, d as int, 200_000_000);
            lemma_mul_bounds(x_overlap.hi as int, 200_000_000, d as int, 200_000_000);
            lemma_mul_bounds(x.ay as int, 100_000_000, d as int, 200_000_000);
            lemma_mul_bounds(dy as int, 200_000_000, x_overlap.lo - x.ax, 300_000_000);
            lemma_mul_bounds(dy as int, 200_000_000, x_overlap.hi - x.ax, 300_000_000);
        }
        let p1 = RatPoint {
            nx: (x_overlap.lo as i128) * d,
            ny: (x.ay as i128) * d + dy * ((x_overlap.lo as i128) - (x.ax as i128)) * sg,
            den: d,
        };
        let p2 = RatPoint {
            nx: (x_overlap.hi as i128) * d,
            ny: (x.ay as i128) * d + dy * ((x_overlap.hi as i128) - (x.ax as i128)) * sg,
            den: d,
        };
        (p1, p2)
    }
}

/// Solves the shared sub-segment's endpoints when only the y ranges overlap.
pub fn solve_no_x_overlap(y_overlap: Interval, x: &Segment) -> (r: (RatPoint, RatPoint))
    requires
        x.bounded(),
        y_overlap.wf(),
        y_overlap.bounded(),
    ensures
        r == points_no_x_overlap(y_overlap, *x),
        r.0.bounded(),
        r.1.bounded(),
{
    if x.by == x.ay {
        (
            RatPoint { nx: x.ax as i128, ny: y_overlap.lo as i128, den: 1 },
            RatPoint { nx: x.ax as i128, ny: y_overlap.hi as i128, den: 1 },
        )
    } else {
        let dx: i128 = x.bx as i128 - x.ax as i128;
        let dy: i128 = x.by as i128 - x.ay as i128;
        let d: i128 = if dy < 0 {
            -dy
        } else {
            dy
        };
        let sg: i128 = if dy < 0 {
            -1
        } else {
            1
        };
        proof {
            lemma_mul_bounds(y_overlap.lo as int, 200_000_000, d as int, 200_000_000);
            lemma_mul_bounds(y_overlap.hi as int, 200_000_000, d as int, 200_000_000);
            lemma_mul_bounds(x.ax as int, 100_000_000, d as int, 200_000_000);
            lemma_mul_bounds(dx as int, 200_000_000, y_overlap.lo - x.ay, 300_000_000);
            lemma_mul_bounds(dx as int, 200_000_000, y_overlap.hi - x.ay, 300_000_000);
        }
        let p1 = RatPoint {
            nx: (x.ax as i128) * d + dx * ((y_overlap.lo as i128) - (x.ay as i128)) * sg,
            ny: (y_overlap.lo as i128) * d,
            den: d,
        };
        let p2 = RatPoint {
            nx: (x.ax as i128) * d + dx * ((y_overlap.hi as i128) - (x.ay as i128)) * sg,
            ny: (y_overlap.hi as i128) * d,
            den: d,
        };
        (p1, p2)
    }
}

/// Solves the shared sub-segment's endpoints when both axes overlap, scaling
/// the y span by the source box's width over its height.
pub fn solve_known_overlaps(x_overlap: Interval, y_overlap: Interval, xbb: &BBox) -> (r: (
    RatPoint,
    RatPoint,
))
    requires
        xbb.wf(),
        xbb.bounded(),
        x_overlap.wf(),
        x_overlap.bounded(),
        y_overlap.wf(),
        y_overlap.bounded(),
    ensures
        r == points_known_overlaps(x_overlap, y_overlap, *xbb),
        r.0.bounded(),
        r.1.bounded(),
{
    let w: i128 = xbb.max_x as i128 - xbb.min_x as i128;
    let h: i128 = xbb.max_y as i128 - xbb.min_y as i128;
    if h == 0 {
        (
            RatPoint { nx: x_overlap.lo as i128, ny: y_overlap.lo as i128, den: 1 },
            RatPoint { nx: x_overlap.hi as i128, ny: y_overlap.hi as i128, den: 1 },
        )
    } else {
        let dyo: i128 = y_overlap.hi as i128 - y_overlap.lo as i128;
        proof {
            lemma_mul_bounds(x_overlap.hi as int, 200_000_000, h as int, 400_000_000);
            lemma_mul_bounds(x_overlap.lo as int, 200_000_000, h as int, 400_000_000);
            lemma_mul_bounds(y_overlap.lo as int, 200_000_000, h as int, 400_000_000);
            lemma_mul_bounds(y_overlap.hi as int, 200_000_000, h as int, 400_000_000);
            lemma_mul_bounds(dyo as int, 400_000_000, w as int, 400_000_000);
        }
        let p1 = RatPoint {
            nx: (x_overlap.hi as i128) * h - dyo * w,
            ny: (y_overlap.lo as i128) * h,
            den: h,
        };
        let p2 = RatPoint { nx: (x_overlap.hi as i128) * h, ny: (y_overlap.hi as i128) * h, den: h };
        (p1, p2)
    }
}

/// The floor of the Euclidean distance between two rational points that share
/// a denominator.
pub open spec fn rat_len_spec(p1: RatPoint, p2: RatPoint) -> int {
    let dx = p2.nx - p1.nx;
    let dy = p2.ny - p1.ny;
    isqrt_spec((dx * dx + dy * dy) as nat) as int / (p1.den as int)
}

/// Length of the sub-segment between two solved endpoints, rounded down.
pub fn rat_len(p1: &RatPoint, p2: &RatPoint) -> (r: i64)
    requires
        p1.den == p2.den,
        p1.bounded(),
        p2.bounded(),
    ensures
        r == rat_len_spec(*p1, *p2),
        0 <= r,
{
    let dx: i128 = p2.nx - p1.nx;
    let dy: i128 = p2.ny - p1.ny;
    let ax: u128 = if dx < 0 {
        (-dx) as u128
    } else {
        dx as u128
    };
    let ay: u128 = if dy < 0 {
        (-dy) as u128
    } else {
        dy as u128
    };
    proof {
        lemma_mul_bounds(ax as int, 500_000_000_000_000_000, ax as int, 500_000_000_000_000_000);
        lemma_mul_bounds(ay as int, 500_000_000_000_000_000, ay as int, 500_000_000_000_000_000);
        assert(ax * ax == dx * dx) by (nonlinear_arith)
            requires
                ax == abs_i(dx as int),
        ;
        assert(ay * ay == dy * dy) by (nonlinear_arith)
            requires
                ay == abs_i(dy as int),
        ;
    }
    let sum: u128 = ax * ax + ay * ay;
    let root: u128 = isqrt(sum);
    proof {
        lemma_isqrt_lt(sum as nat, 1_000_000_000_000_000_000);
    }
    let q: u128 = root / (p1.den as u128);
    proof {
        assert(q <= root);
    }
    q as i64
}

/// Length taken from the overlap information alone: the diagonal through
/// both spans when both axes overlap, and the bare span width when only one
/// does.
pub open spec fn overlap_len_spec(
    x_overlap: Option<Interval>,
    y_overlap: Option<Interval>,
    bb: BBox,
) -> int {
    match (x_overlap, y_overlap) {
        (Some(xov), Some(yov)) => {
            let w = bb.max_x - bb.min_x;
            let h = bb.max_y - bb.min_y;
            if h == 0 {
                xov.hi - xov.lo
            } else {
                let dyo = yov.hi - yov.lo;
                isqrt_spec((dyo * dyo * (w * w + h * h)) as nat) as int / h
            }
        },
        (Some(xov), None) => xov.hi - xov.lo,
        (None, Some(yov)) => yov.hi - yov.lo,
        (None, None) => 0,
    }
}

/// Computes the shared length from the axis overlaps and the source segment's
/// bounding box.
pub fn solve_segment_length(
    x_overlap: Option<Interval>,
    y_overlap: Option<Interval>,
    bbox: &BBox,
) -> (r: i64)
    requires
        bbox.wf(),
        bbox.bounded(),
        x_overlap is Some || y_overlap is Some,
        (x_overlap matches Some(xov) ==> xov.wf() && xov.bounded()),
        (y_overlap matches Some(yov) ==> yov.wf() && yov.bounded()),
    ensures
        r == overlap_len_spec(x_overlap, y_overlap, *bbox),
        0 <= r,
{
    match (x_overlap, y_overlap) {
        (Some(xov), Some(yov)) => {
            let h: i128 = bbox.max_y as i128 - bbox.min_y as i128;
            if h == 0 {
                xov.hi - xov.lo
            } else {
                let (p1, p2) = solve_known_overlaps(xov, yov, bbox);
                let r = rat_len(&p1, &p2);
                proof {
                    let w: int = bbox.max_x - bbox.min_x;
                    let dyo: int = yov.hi - yov.lo;
                    lemma_mul_bounds(xov.hi as int, 200_000_000, h as int, 400_000_000);
                    lemma_mul_bounds(yov.lo as int, 200_000_000, h as int, 400_000_000);
                    lemma_mul_bounds(yov.hi as int, 200_000_000, h as int, 400_000_000);
                    lemma_mul_bounds(dyo, 400_000_000, w, 400_000_000);
                    assert(p1.nx == xov.hi * h - dyo * w);
                    assert(p2.nx == xov.hi * h);
                    assert(p1.ny == yov.lo * h);
                    assert(p2.ny == yov.hi * h);
                    assert(yov.hi * h - yov.lo * h == dyo * h) by (nonlinear_arith)
                        requires
                            dyo == yov.hi - yov.lo,
                    ;
                    assert((p2.nx - p1.nx) as int == dyo * w);
                    assert((p2.ny - p1.ny) as int == dyo * h);
                    assert(dyo * w * (dyo * w) + dyo * h * (dyo * h) == dyo * dyo * (w * w + h
                        * h)) by (nonlinear_arith);
                }
                r
            }
        },
        (Some(xov), None) => xov.hi - xov.lo,
        (None, Some(yov)) => yov.hi - yov.lo,
        (None, None) => 0,
    }
}

} // verus!
