use crate::geom::{Segment, MAX_COORD};
use crate::nums::lemma_mul_bounds;
use vstd::prelude::*;

verus! {

/// Largest numerator or denominator accepted for the tangent of the angular
/// tolerance.
pub const MAX_TAN: i64 = 1_000_000_000;

/// x component of the segment's direction, normalised into the right
/// half-plane: a direction with a negative x component is replaced by its
/// opposite, which leaves the slope unchanged.  A vertical direction keeps
/// the sign of its y component, so that an upward and a downward vertical
/// segment stay distinct, as the signs of their infinite slopes are.
pub open spec fn norm_dx(s: Segment) -> int {
    if s.dx() < 0 {
        -s.dx()
    } else {
        s.dx()
    }
}

/// y component of the normalised direction.
pub open spec fn norm_dy(s: Segment) -> int {
    if s.dx() < 0 {
        -s.dy()
    } else {
        s.dy()
    }
}

pub open spec fn dir_dot(s: Segment, t: Segment) -> int {
    norm_dx(s) * norm_dx(t) + norm_dy(s) * norm_dy(t)
}

pub open spec fn dir_cross(s: Segment, t: Segment) -> int {
    norm_dy(s) * norm_dx(t) - norm_dx(s) * norm_dy(t)
}

/// Whether the slope angles of the two segments differ by strictly less than
/// the angle whose tangent is `tn / td`.
///
/// Each segment's slope angle is the arctangent of its slope, a value in
/// (-90, 90] degrees; the normalised directions both lie in the closed right
/// half-plane, so the absolute difference of the two angles is below 90
/// degrees exactly when the dot product of the directions is positive, and
/// its tangent is then `|cross| / dot`.  Comparing that tangent with `tn / td`
/// by cross-multiplication decides the filter exactly, with no trigonometry
/// at run time.
pub open spec fn angle_within(s: Segment, t: Segment, tn: int, td: int) -> bool {
    let d = dir_dot(s, t);
    let c = dir_cross(s, t);
    let ca = if c < 0 {
        -c
    } else {
        c
    };
    d > 0 && ca * td < tn * d
}

/// Accepts a candidate pair whose directions differ by less than the angular
/// tolerance, given as the tangent `tan_num / tan_den` of that tolerance.
pub fn within_angle(s: &Segment, t: &Segment, tan_num: i64, tan_den: i64) -> (r: bool)
    requires
        s.bounded(),
        t.bounded(),
        0 < tan_num <= MAX_TAN,
        0 < tan_den <= MAX_TAN,
    ensures
        r == angle_within(*s, *t, tan_num as int, tan_den as int),
{
    let sdx: i128 = s.bx as i128 - s.ax as i128;
    let sdy: i128 = s.by as i128 - s.ay as i128;
    let tdx: i128 = t.bx as i128 - t.ax as i128;
    let tdy: i128 = t.by as i128 - t.ay as i128;
    let (nsx, nsy): (i128, i128) = if sdx < 0 {
        (-sdx, -sdy)
    } else {
        (sdx, sdy)
    };
    let (ntx, nty): (i128, i128) = if tdx < 0 {
        (-tdx, -tdy)
    } else {
        (tdx, tdy)
    };
    proof {
        let m: int = 2 * MAX_COORD as int;
        lemma_mul_bounds(nsx as int, m, ntx as int, m);
        lemma_mul_bounds(nsy as int, m, nty as int, m);
        lemma_mul_bounds(nsy as int, m, ntx as int, m);
        lemma_mul_bounds(nsx as int, m, nty as int, m);
    }
    let d: i128 = nsx * ntx + nsy * nty;
    let c: i128 = nsy * ntx - nsx * nty;
    let ca: i128 = if c < 0 {
        -c
    } else {
        c
    };
    proof {
        lemma_mul_bounds(ca as int, 0x2_0000_0000_0000_0000, tan_den as int, MAX_TAN as int);
        lemma_mul_bounds(tan_num as int, MAX_TAN as int, d as int, 0x2_0000_0000_0000_0000);
    }
    d > 0 && ca * (tan_den as i128) < (tan_num as i128) * d
}

} // verus!
