use vstd::prelude::*;

verus! {

/// Largest coordinate magnitude (and distance tolerance) the library accepts.
/// Inputs are scaled integers; keeping them within this bound lets every
/// intermediate product of the geometry fit in an `i128`.
pub const MAX_COORD: i64 = 100_000_000;

/// A closed interval `[lo, hi]` on one axis.
#[derive(Clone, Copy, PartialEq, Eq, Structural, Debug)]
pub struct Interval {
    pub lo: i64,
    pub hi: i64,
}

impl Interval {
    /// The interval is not empty.
    pub open spec fn wf(self) -> bool {
        self.lo <= self.hi
    }

    pub open spec fn bounded(self) -> bool {
        -2 * MAX_COORD <= self.lo <= 2 * MAX_COORD && -2 * MAX_COORD <= self.hi <= 2 * MAX_COORD
    }
}

/// An axis-aligned bounding box.
#[derive(Clone, Copy, PartialEq, Eq, Structural, Debug)]
pub struct BBox {
    pub min_x: i64,
    pub min_y: i64,
    pub max_x: i64,
    pub max_y: i64,
}

impl BBox {
    /// The corners are ordered.
    pub open spec fn wf(self) -> bool {
        self.min_x <= self.max_x && self.min_y <= self.max_y
    }

    /// Every corner stays within twice the coordinate bound, which is what a
    /// box padded by a tolerance can reach.
    pub open spec fn bounded(self) -> bool {
        -2 * MAX_COORD <= self.min_x <= 2 * MAX_COORD && -2 * MAX_COORD <= self.min_y <= 2
            * MAX_COORD && -2 * MAX_COORD <= self.max_x <= 2 * MAX_COORD && -2 * MAX_COORD
            <= self.max_y <= 2 * MAX_COORD
    }
}

/// A directed straight segment from `(ax, ay)` to `(bx, by)`.
#[derive(Clone, Copy, PartialEq, Eq, Structural, Debug)]
pub struct Segment {
    pub ax: i64,
    pub ay: i64,
    pub bx: i64,
    pub by: i64,
}

impl Segment {
    /// The segment has distinct endpoints, so its direction is defined.
    pub open spec fn wf(self) -> bool {
        !(self.ax == self.bx && self.ay == self.by)
    }

    pub open spec fn bounded(self) -> bool {
        -MAX_COORD <= self.ax <= MAX_COORD && -MAX_COORD <= self.ay <= MAX_COORD && -MAX_COORD
            <= self.bx <= MAX_COORD && -MAX_COORD <= self.by <= MAX_COORD
    }

    pub open spec fn dx(self) -> int {
        self.bx - self.ax
    }

    pub open spec fn dy(self) -> int {
        self.by - self.ay
    }

    /// The segment's axis-aligned bounding box.
    pub open spec fn bbox(self) -> BBox {
        BBox {
            min_x: if self.ax <= self.bx {
                self.ax
            } else {
                self.bx
            },
            min_y: if self.ay <= self.by {
                self.ay
            } else {
                self.by
            },
            max_x: if self.ax <= self.bx {
                self.bx
            } else {
                self.ax
            },
            max_y: if self.ay <= self.by {
                self.by
            } else {
                self.ay
            },
        }
    }
}

/// Bounding box of a segment, as an executable function.
pub fn seg_bbox(s: &Segment) -> (b: BBox)
    ensures
        b == s.bbox(),
{
    BBox {
        min_x: if s.ax <= s.bx {
            s.ax
        } else {
            s.bx
        },
        min_y: if s.ay <= s.by {
            s.ay
        } else {
            s.by
        },
        max_x: if s.ax <= s.bx {
            s.bx
        } else {
            s.ax
        },
        max_y: if s.ay <= s.by {
            s.by
        } else {
            s.ay
        },
    }
}

/// Projection of a bounding box onto the x-axis.
pub fn x_range(rect: &BBox) -> (r: Interval)
    ensures
        r.lo == rect.min_x,
        r.hi == rect.max_x,
{
    Interval { lo: rect.min_x, hi: rect.max_x }
}

/// Projection of a bounding box onto the y-axis.
pub fn y_range(rect: &BBox) -> (r: Interval)
    ensures
        r.lo == rect.min_y,
        r.hi == rect.max_y,
{
    Interval { lo: rect.min_y, hi: rect.max_y }
}

/// Intersection of two closed intervals; `None` exactly when they are
/// disjoint.  Intervals that touch in a single point still overlap.
pub open spec fn overlap_spec(r1: Interval, r2: Interval) -> Option<Interval> {
    if r1.hi < r2.lo || r2.hi < r1.lo {
        None
    } else {
        Some(
            Interval {
                lo: if r1.lo >= r2.lo {
                    r1.lo
                } else {
                    r2.lo
                },
                hi: if r1.hi <= r2.hi {
                    r1.hi
                } else {
                    r2.hi
                },
            },
        )
    }
}

/// Computes the overlap of two closed ranges: `None` iff
/// `r1.hi < r2.lo || r2.hi < r1.lo`, otherwise
/// `[max(r1.lo, r2.lo), min(r1.hi, r2.hi)]`.
pub fn overlap_range(r1: Interval, r2: Interval) -> (r: Option<Interval>)
    ensures
        r == overlap_spec(r1, r2),
        r is None <==> (r1.hi < r2.lo || r2.hi < r1.lo),
{
    if r1.hi < r2.lo || r2.hi < r1.lo {
        None
    } else {
        Some(
            Interval {
                lo: if r1.lo >= r2.lo {
                    r1.lo
                } else {
                    r2.lo
                },
                hi: if r1.hi <= r2.hi {
                    r1.hi
                } else {
                    r2.hi
                },
            },
        )
    }
}

/// Overlap of closed ranges does not depend on the order of its arguments.
pub proof fn lemma_overlap_symmetric(r1: Interval, r2: Interval)
    ensures
        overlap_spec(r1, r2) == overlap_spec(r2, r1),
{
}

/// Width and height of a bounding box.
pub fn wh(x: &BBox) -> (r: (i64, i64))
    requires
        x.bounded(),
    ensures
        r.0 == x.max_x - x.min_x,
        r.1 == x.max_y - x.min_y,
{
    (x.max_x - x.min_x, x.max_y - x.min_y)
}

/// Height of a range of y values.
pub fn solve_dy(y_ov: Interval) -> (r: i64)
    requires
        -2 * MAX_COORD <= y_ov.lo <= 2 * MAX_COORD,
        -2 * MAX_COORD <= y_ov.hi <= 2 * MAX_COORD,
    ensures
        r == y_ov.hi - y_ov.lo,
{
    y_ov.hi - y_ov.lo
}

/// The x projection of a box, as a closed interval.
pub open spec fn x_iv(b: BBox) -> Interval {
    Interval { lo: b.min_x, hi: b.max_x }
}

/// The y projection of a box, as a closed interval.
pub open spec fn y_iv(b: BBox) -> Interval {
    Interval { lo: b.min_y, hi: b.max_y }
}

/// Two boxes intersect when their projections overlap on both axes, with
/// touching edges counting as intersection.
pub open spec fn boxes_intersect(a: BBox, b: BBox) -> bool {
    a.min_x <= b.max_x && a.max_x >= b.min_x && a.min_y <= b.max_y && a.max_y >= b.min_y
}

/// The bounding box grown by `pad` in every direction.
pub open spec fn padded_bbox_spec(b: BBox, pad: int) -> BBox {
    BBox {
        min_x: (b.min_x - pad) as i64,
        min_y: (b.min_y - pad) as i64,
        max_x: (b.max_x + pad) as i64,
        max_y: (b.max_y + pad) as i64,
    }
}

pub fn padded_bbox(b: &BBox, pad: i64) -> (r: BBox)
    requires
        b.bounded(),
        0 <= pad <= MAX_COORD,
        -2 * MAX_COORD <= b.min_x - pad,
        b.max_x + pad <= 2 * MAX_COORD,
        -2 * MAX_COORD <= b.min_y - pad,
        b.max_y + pad <= 2 * MAX_COORD,
    ensures
        r == padded_bbox_spec(*b, pad as int),
{
    BBox {
        min_x: b.min_x - pad,
        min_y: b.min_y - pad,
        max_x: b.max_x + pad,
        max_y: b.max_y + pad,
    }
}

} // verus!
