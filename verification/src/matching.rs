use crate::angle::{within_angle, MAX_TAN};
use crate::dist::within_distance;
use crate::geom::{
    overlap_range, overlap_spec, seg_bbox, x_iv, x_range, y_iv, y_range, Segment, MAX_COORD,
};
use crate::nums::{abs_i, isqrt_spec, lemma_isqrt_lt, lemma_isqrt_square, sgn};
use crate::solve::{rat_len, solve_no_x_overlap, solve_no_y_overlap, solve_segment_length};
use crate::geom::boxes_intersect;
use crate::structs::{
    lemma_records_wf, lemma_wf_with_env, net_bounded, net_nonempty, records_of, segment_records,
    total_vertices, SegRecord,
};
use crate::sums::{
    accept_pair, all_pairs, cand_table, key_of, lemma_all_pairs_count, lemma_cand_table_filter,
    key_hit, lemma_cand_table_permutation, lemma_cand_table_push, lemma_filter_count, pair_with,
    shared_len,
};
use crate::trees::{
    create_source_rtree, create_target_rtree, tree_contents, tree_locate, tree_pairs,
};
use crate::{CrsType, MatchError};
use crate::table::{bump, MatchTable, MAX_SHARED};
use vstd::multiset::Multiset;
use vstd::prelude::*;

verus! {

/// The rounded-down length of a segment.
pub open spec fn seg_len(s: Segment) -> int {
    isqrt_spec((s.dx() * s.dx() + s.dy() * s.dy()) as nat) as int
}

/// For `0 <= a <= d`, scaling the square's argument by `a * a` and dividing
/// the root by `d` cannot exceed the plain root.
proof fn lemma_scaled_root_div(a: int, d: int, arg: int)
    requires
        0 <= a <= d,
        1 <= d,
        0 <= arg,
    ensures
        0 <= isqrt_spec((a * a * arg) as nat) as int / d <= isqrt_spec(arg as nat) as int,
{
    let land = isqrt_spec(arg as nat);
    crate::nums::lemma_isqrt_bounds(arg as nat);
    assert(a * a * arg <= d * d * arg) by (nonlinear_arith)
        requires
            0 <= a <= d,
            0 <= arg,
    ;
    assert(d * d * arg < (d * (land + 1)) * (d * (land + 1))) by (nonlinear_arith)
        requires
            arg < (land + 1) * (land + 1),
            1 <= d,
    ;
    assert(0 <= a * a * arg) by (nonlinear_arith)
        requires
            0 <= a,
            0 <= arg,
    ;
    lemma_isqrt_lt((a * a * arg) as nat, (d * (land + 1)) as nat);
    let n = isqrt_spec((a * a * arg) as nat) as int;
    assert(n < d * (land + 1));
    assert(0 <= n / d <= land) by (nonlinear_arith)
        requires
            0 <= n,
            1 <= d,
            n < d * (land + 1),
            0 <= land,
    ;
}

/// The shared length of an accepted pair is non-negative and cannot exceed
/// the (rounded-down) length of the source segment.  The analogous bound
/// against the target segment's length does not hold in general: with a lax
/// angular tolerance, a short span of a steep source segment can solve to a
/// sub-segment far longer than the target.
pub proof fn lemma_shared_len_bounds(s: Segment, t: Segment)
    requires
        s.bounded(),
        t.bounded(),
    ensures
        0 <= shared_len(s, t),
        shared_len(s, t) <= seg_len(s),
        seg_len(s) <= 300_000_000,
{
    let sb = s.bbox();
    let tb = t.bbox();
    let xo = overlap_spec(x_iv(sb), x_iv(tb));
    let yo = overlap_spec(y_iv(sb), y_iv(tb));
    let arg = s.dx() * s.dx() + s.dy() * s.dy();
    assert(0 <= arg <= 80_000_000_000_000_000) by (nonlinear_arith)
        requires
            arg == s.dx() * s.dx() + s.dy() * s.dy(),
            -200_000_000 <= s.dx() <= 200_000_000,
            -200_000_000 <= s.dy() <= 200_000_000,
    ;
    crate::nums::lemma_isqrt_bounds(arg as nat);
    lemma_isqrt_lt(arg as nat, 300_000_000);
    let w = sb.max_x - sb.min_x;
    let h = sb.max_y - sb.min_y;
    assert(w == abs_i(s.dx()));
    assert(h == abs_i(s.dy()));
    assert(w * w == s.dx() * s.dx()) by (nonlinear_arith)
        requires
            w == abs_i(s.dx()),
    ;
    assert(h * h == s.dy() * s.dy()) by (nonlinear_arith)
        requires
            h == abs_i(s.dy()),
    ;
    match (xo, yo) {
        (Some(xov), Some(yov)) => {
            if h == 0 {
                assert(shared_len(s, t) == xov.hi - xov.lo);
                assert(xov.hi <= sb.max_x && xov.lo >= sb.min_x && xov.lo <= xov.hi);
                assert(s.dy() == 0);
                lemma_isqrt_square(w as nat);
                assert(w * w == arg);
                assert(seg_len(s) == w);
            } else {
                let dyo = yov.hi - yov.lo;
                assert(yov.hi <= sb.max_y && yov.lo >= sb.min_y && yov.lo <= yov.hi);
                assert(0 <= dyo <= h);
                lemma_scaled_root_div(dyo, h, arg);
                assert(dyo * dyo * arg == dyo * dyo * (w * w + h * h)) by (nonlinear_arith)
                    requires
                        arg == w * w + h * h,
                ;
            }
        },
        (Some(xov), None) => {
            if s.dx() == 0 {
            } else {
                let dxo = xov.hi - xov.lo;
                assert(xov.hi <= sb.max_x && xov.lo >= sb.min_x && xov.lo <= xov.hi);
                assert(0 <= dxo <= w);
                assert(1 <= w);
                lemma_scaled_root_div(dxo, w, arg);
            }
        },
        (None, Some(yov)) => {
            if s.dy() == 0 {
            } else {
                let dyo = yov.hi - yov.lo;
                assert(yov.hi <= sb.max_y && yov.lo >= sb.min_y && yov.lo <= yov.hi);
                assert(0 <= dyo <= h);
                assert(1 <= h);
                lemma_scaled_root_div(dyo, h, arg);
            }
        },
        (None, None) => {
        },
    }
}

/// As `lemma_scaled_root_div`, but against a second square root whose
/// argument is tied to the first by a cross ratio.
proof fn lemma_parallel_scaled_root(a: int, d1: int, d2: int, ks: int, kt: int)
    requires
        0 <= a <= d2,
        1 <= d1,
        0 <= ks,
        0 <= kt,
        d2 * d2 * ks == d1 * d1 * kt,
    ensures
        isqrt_spec((a * a * ks) as nat) as int / d1 <= isqrt_spec(kt as nat) as int,
{
    let lt = isqrt_spec(kt as nat);
    crate::nums::lemma_isqrt_bounds(kt as nat);
    assert(a * a * ks <= d2 * d2 * ks) by (nonlinear_arith)
        requires
            0 <= a <= d2,
            0 <= ks,
    ;
    assert(d1 * d1 * kt < (d1 * (lt + 1)) * (d1 * (lt + 1))) by (nonlinear_arith)
        requires
            kt < (lt + 1) * (lt + 1),
            1 <= d1,
    ;
    assert(0 <= a * a * ks) by (nonlinear_arith)
        requires
            0 <= a,
            0 <= ks,
    ;
    lemma_isqrt_lt((a * a * ks) as nat, (d1 * (lt + 1)) as nat);
    let n = isqrt_spec((a * a * ks) as nat) as int;
    assert(n / d1 <= lt) by (nonlinear_arith)
        requires
            0 <= n,
            1 <= d1,
            n < d1 * (lt + 1),
            0 <= lt,
    ;
}

/// For parallel segments the shared length also stays within the target
/// segment's length.  This is the part of the shorter-of-the-two bound that
/// holds in general: a non-parallel pair admitted by a lax angular tolerance
/// can solve to a sub-segment of the steep source far longer than the
/// target.
pub proof fn lemma_shared_len_parallel_target_bound(s: Segment, t: Segment)
    requires
        s.bounded(),
        t.bounded(),
        t.wf(),
        crate::angle::dir_cross(s, t) == 0,
    ensures
        shared_len(s, t) <= seg_len(t),
{
    let sb = s.bbox();
    let tb = t.bbox();
    let xo = overlap_spec(x_iv(sb), x_iv(tb));
    let yo = overlap_spec(y_iv(sb), y_iv(tb));
    let ks = s.dx() * s.dx() + s.dy() * s.dy();
    let kt = t.dx() * t.dx() + t.dy() * t.dy();
    let lt = seg_len(t);
    crate::nums::lemma_isqrt_bounds(kt as nat);
    assert(0 <= ks && 0 <= kt) by (nonlinear_arith)
        requires
            ks == s.dx() * s.dx() + s.dy() * s.dy(),
            kt == t.dx() * t.dx() + t.dy() * t.dy(),
    ;
    let nsx = crate::angle::norm_dx(s);
    let nsy = crate::angle::norm_dy(s);
    let ntx = crate::angle::norm_dx(t);
    let nty = crate::angle::norm_dy(t);
    assert(nsy * ntx - nsx * nty == 0);
    assert(s.dy() * t.dx() - s.dx() * t.dy() == 0) by (nonlinear_arith)
        requires
            nsy * ntx - nsx * nty == 0,
            (nsx == s.dx() && nsy == s.dy()) || (nsx == -s.dx() && nsy == -s.dy()),
            (ntx == t.dx() && nty == t.dy()) || (ntx == -t.dx() && nty == -t.dy()),
    ;
    match (xo, yo) {
        (Some(xov), Some(yov)) => {
            let w = sb.max_x - sb.min_x;
            let h = sb.max_y - sb.min_y;
            assert(w == abs_i(s.dx()));
            assert(h == abs_i(s.dy()));
            if h == 0 {
                assert(shared_len(s, t) == xov.hi - xov.lo);
                assert(s.dy() == 0);
                if s.dx() == 0 {
                    assert(xov.hi <= sb.max_x && xov.lo >= sb.min_x && xov.lo <= xov.hi);
                    assert(xov.hi - xov.lo == 0);
                } else {
                    assert(t.dy() == 0) by (nonlinear_arith)
                        requires
                            s.dy() == 0,
                            s.dx() != 0,
                            s.dy() * t.dx() - s.dx() * t.dy() == 0,
                    ;
                    assert(t.dx() != 0);
                    assert(xov.hi <= tb.max_x && xov.lo >= tb.min_x);
                    assert(tb.max_x - tb.min_x == abs_i(t.dx()));
                    assert(xov.hi - xov.lo <= abs_i(t.dx()));
                    assert(abs_i(t.dx()) <= lt) by (nonlinear_arith)
                        requires
                            kt < (lt + 1) * (lt + 1),
                            t.dx() * t.dx() <= kt,
                            t.dy() == 0,
                            kt == t.dx() * t.dx() + t.dy() * t.dy(),
                            0 <= lt,
                    ;
                }
            } else {
                let dyo = yov.hi - yov.lo;
                assert(s.dy() != 0);
                if t.dy() == 0 {
                    assert(s.dy() * t.dx() == 0) by (nonlinear_arith)
                        requires
                            s.dy() * t.dx() - s.dx() * t.dy() == 0,
                            t.dy() == 0,
                    ;
                    assert(t.dx() == 0) by (nonlinear_arith)
                        requires
                            s.dy() != 0,
                            s.dy() * t.dx() == 0,
                    ;
                    assert(false);
                }
                assert(yov.hi <= tb.max_y && yov.lo >= tb.min_y && yov.lo <= yov.hi);
                assert(tb.max_y - tb.min_y == abs_i(t.dy()));
                assert(0 <= dyo <= abs_i(t.dy()));
                assert(abs_i(t.dy()) * abs_i(t.dy()) * (w * w + h * h) == h * h * kt)
                    by (nonlinear_arith)
                    requires
                        s.dy() * t.dx() - s.dx() * t.dy() == 0,
                        w == abs_i(s.dx()),
                        h == abs_i(s.dy()),
                        kt == t.dx() * t.dx() + t.dy() * t.dy(),
                ;
                lemma_parallel_scaled_root(dyo, h, abs_i(t.dy()), w * w + h * h, kt);
            }
        },
        (Some(xov), None) => {
            if s.dx() == 0 {
            } else {
                let dxo = xov.hi - xov.lo;
                if t.dx() == 0 {
                    assert(s.dx() * t.dy() == 0) by (nonlinear_arith)
                        requires
                            s.dy() * t.dx() - s.dx() * t.dy() == 0,
                            t.dx() == 0,
                    ;
                    assert(t.dy() == 0) by (nonlinear_arith)
                        requires
                            s.dx() != 0,
                            s.dx() * t.dy() == 0,
                    ;
                    assert(false);
                }
                assert(xov.hi <= tb.max_x && xov.lo >= tb.min_x && xov.lo <= xov.hi);
                assert(tb.max_x - tb.min_x == abs_i(t.dx()));
                assert(0 <= dxo <= abs_i(t.dx()));
                assert(1 <= abs_i(s.dx()));
                assert(abs_i(t.dx()) * abs_i(t.dx()) * ks == abs_i(s.dx()) * abs_i(s.dx()) * kt)
                    by (nonlinear_arith)
                    requires
                        s.dy() * t.dx() - s.dx() * t.dy() == 0,
                        ks == s.dx() * s.dx() + s.dy() * s.dy(),
                        kt == t.dx() * t.dx() + t.dy() * t.dy(),
                ;
                lemma_parallel_scaled_root(dxo, abs_i(s.dx()), abs_i(t.dx()), ks, kt);
            }
        },
        (None, Some(yov)) => {
            if s.dy() == 0 {
            } else {
                let dyo = yov.hi - yov.lo;
                if t.dy() == 0 {
                    assert(s.dy() * t.dx() == 0) by (nonlinear_arith)
                        requires
                            s.dy() * t.dx() - s.dx() * t.dy() == 0,
                            t.dy() == 0,
                    ;
                    assert(t.dx() == 0) by (nonlinear_arith)
                        requires
                            s.dy() != 0,
                            s.dy() * t.dx() == 0,
                    ;
                    assert(false);
                }
                assert(yov.hi <= tb.max_y && yov.lo >= tb.min_y && yov.lo <= yov.hi);
                assert(tb.max_y - tb.min_y == abs_i(t.dy()));
                assert(0 <= dyo <= abs_i(t.dy()));
                assert(1 <= abs_i(s.dy()));
                assert(abs_i(t.dy()) * abs_i(t.dy()) * ks == abs_i(s.dy()) * abs_i(s.dy()) * kt)
                    by (nonlinear_arith)
                    requires
                        s.dy() * t.dx() - s.dx() * t.dy() == 0,
                        ks == s.dx() * s.dx() + s.dy() * s.dy(),
                        kt == t.dx() * t.dx() + t.dy() * t.dy(),
                ;
                lemma_parallel_scaled_root(dyo, abs_i(s.dy()), abs_i(t.dy()), ks, kt);
            }
        },
        (None, None) => {
        },
    }
}

/// Whether the candidate pair passes the angle, overlap and distance
/// filters, given tolerances and the tangent of the angular tolerance.
pub fn accept_candidate(s: &SegRecord, t: &SegRecord, dtol: i64, tan_num: i64, tan_den: i64) -> (r:
    bool)
    requires
        s.seg.bounded(),
        t.seg.bounded(),
        0 <= dtol <= MAX_COORD,
        0 < tan_num <= MAX_TAN,
        0 < tan_den <= MAX_TAN,
    ensures
        r == accept_pair(*s, *t, dtol as int, tan_num as int, tan_den as int),
{
    let env_ok = s.env.min_x <= t.env.max_x && s.env.max_x >= t.env.min_x && s.env.min_y
        <= t.env.max_y && s.env.max_y >= t.env.min_y;
    if !env_ok {
        return false;
    }
    if !within_angle(&s.seg, &t.seg, tan_num, tan_den) {
        return false;
    }
    let sb = seg_bbox(&s.seg);
    let tb = seg_bbox(&t.seg);
    let x_overlap = overlap_range(x_range(&sb), x_range(&tb));
    let y_overlap = overlap_range(y_range(&sb), y_range(&tb));
    if !(x_overlap.is_some() || y_overlap.is_some()) {
        return false;
    }
    within_distance(&s.seg, &t.seg, dtol)
}

/// Solves the shared sub-segment for an overlapping pair and measures its
/// length, choosing the solver by which axes overlap, as the canonical
/// pipeline does.
pub fn pair_length(s: &Segment, t: &Segment) -> (r: i64)
    requires
        s.bounded(),
        t.bounded(),
    ensures
        r == shared_len(*s, *t),
        0 <= r <= MAX_SHARED,
{
    proof {
        lemma_shared_len_bounds(*s, *t);
    }
    let sb = seg_bbox(s);
    let tb = seg_bbox(t);
    let x_overlap = overlap_range(x_range(&sb), x_range(&tb));
    let y_overlap = overlap_range(y_range(&sb), y_range(&tb));
    match (x_overlap, y_overlap) {
        (Some(xov), Some(yov)) => {
            let r = solve_segment_length(Some(xov), Some(yov), &sb);
            r
        },
        (Some(xov), None) => {
            if s.bx == s.ax {
                0
            } else {
                let (p1, p2) = solve_no_y_overlap(xov, s);
                let r = rat_len(&p1, &p2);
                proof {
                    let d = abs_i(s.dx());
                    let sg = sgn(s.dx());
                    let dxo: int = xov.hi - xov.lo;
                    let arg: int = s.dx() * s.dx() + s.dy() * s.dy();
                    crate::nums::lemma_mul_bounds(xov.lo as int, 200_000_000, d, 200_000_000);
                    crate::nums::lemma_mul_bounds(xov.hi as int, 200_000_000, d, 200_000_000);
                    crate::nums::lemma_mul_bounds(s.ay as int, 100_000_000, d, 200_000_000);
                    crate::nums::lemma_mul_bounds(s.dy(), 200_000_000, xov.lo - s.ax, 300_000_000);
                    crate::nums::lemma_mul_bounds(s.dy(), 200_000_000, xov.hi - s.ax, 300_000_000);
                    crate::nums::lemma_mul_bounds(
                        s.dy() * (xov.lo - s.ax),
                        60_000_000_000_000_000,
                        sg,
                        1,
                    );
                    crate::nums::lemma_mul_bounds(
                        s.dy() * (xov.hi - s.ax),
                        60_000_000_000_000_000,
                        sg,
                        1,
                    );
                    assert(p1.nx == xov.lo * d);
                    assert(p2.nx == xov.hi * d);
                    assert(p1.ny == s.ay * d + s.dy() * (xov.lo - s.ax) * sg);
                    assert(p2.ny == s.ay * d + s.dy() * (xov.hi - s.ax) * sg);
                    assert(p2.nx - p1.nx == dxo * d) by (nonlinear_arith)
                        requires
                            p1.nx == xov.lo * d,
                            p2.nx == xov.hi * d,
                            dxo == xov.hi - xov.lo,
                    ;
                    assert(p2.ny - p1.ny == s.dy() * dxo * sg) by (nonlinear_arith)
                        requires
                            p1.ny == s.ay * d + s.dy() * (xov.lo - s.ax) * sg,
                            p2.ny == s.ay * d + s.dy() * (xov.hi - s.ax) * sg,
                            dxo == xov.hi - xov.lo,
                    ;
                    assert((dxo * d) * (dxo * d) + (s.dy() * dxo * sg) * (s.dy() * dxo * sg)
                        == dxo * dxo * arg) by (nonlinear_arith)
                        requires
                            d == abs_i(s.dx()),
                            sg == sgn(s.dx()),
                            s.dx() != 0,
                            arg == s.dx() * s.dx() + s.dy() * s.dy(),
                    ;
                    assert(p1.den == d);
                }
                r
            }
        },
        (None, Some(yov)) => {
            if s.by == s.ay {
                0
            } else {
                let (p1, p2) = solve_no_x_overlap(yov, s);
                let r = rat_len(&p1, &p2);
                proof {
                    let d = abs_i(s.dy());
                    let sg = sgn(s.dy());
                    let dyo: int = yov.hi - yov.lo;
                    let arg: int = s.dx() * s.dx() + s.dy() * s.dy();
                    crate::nums::lemma_mul_bounds(yov.lo as int, 200_000_000, d, 200_000_000);
                    crate::nums::lemma_mul_bounds(yov.hi as int, 200_000_000, d, 200_000_000);
                    crate::nums::lemma_mul_bounds(s.ax as int, 100_000_000, d, 200_000_000);
                    crate::nums::lemma_mul_bounds(s.dx(), 200_000_000, yov.lo - s.ay, 300_000_000);
                    crate::nums::lemma_mul_bounds(s.dx(), 200_000_000, yov.hi - s.ay, 300_000_000);
                    crate::nums::lemma_mul_bounds(
                        s.dx() * (yov.lo - s.ay),
                        60_000_000_000_000_000,
                        sg,
                        1,
                    );
                    crate::nums::lemma_mul_bounds(
                        s.dx() * (yov.hi - s.ay),
                        60_000_000_000_000_000,
                        sg,
                        1,
                    );
                    assert(p1.ny == yov.lo * d);
                    assert(p2.ny == yov.hi * d);
                    assert(p1.nx == s.ax * d + s.dx() * (yov.lo - s.ay) * sg);
                    assert(p2.nx == s.ax * d + s.dx() * (yov.hi - s.ay) * sg);
                    assert(p2.ny - p1.ny == dyo * d) by (nonlinear_arith)
                        requires
                            p1.ny == yov.lo * d,
                            p2.ny == yov.hi * d,
                            dyo == yov.hi - yov.lo,
                    ;
                    assert(p2.nx - p1.nx == s.dx() * dyo * sg) by (nonlinear_arith)
                        requires
                            p1.nx == s.ax * d + s.dx() * (yov.lo - s.ay) * sg,
                            p2.nx == s.ax * d + s.dx() * (yov.hi - s.ay) * sg,
                            dyo == yov.hi - yov.lo,
                    ;
                    assert((s.dx() * dyo * sg) * (s.dx() * dyo * sg) + (dyo * d) * (dyo * d)
                        == dyo * dyo * arg) by (nonlinear_arith)
                        requires
                            d == abs_i(s.dy()),
                            sg == sgn(s.dy()),
                            s.dy() != 0,
                            arg == s.dx() * s.dx() + s.dy() * s.dy(),
                    ;
                    assert(p1.den == d);
                }
                r
            }
        },
        (None, None) => 0,
    }
}

/// Runs one candidate pair through the filters and, when it is accepted,
/// adds its shared length to the pair's table entry.
pub fn process_pair(
    table: &mut MatchTable,
    s: SegRecord,
    t: SegRecord,
    dtol: i64,
    tan_num: i64,
    tan_den: i64,
)
    requires
        old(table).wf(),
        s.seg.bounded(),
        t.seg.bounded(),
        s.line < 1_000_000_000,
        t.line < 1_000_000_000,
        0 <= dtol <= MAX_COORD,
        0 < tan_num <= MAX_TAN,
        0 < tan_den <= MAX_TAN,
        forall|k: (int, int)|
            old(table).view_spec().contains_key(k) ==> 0 <= #[trigger] old(table).view_spec()[k]
                <= 2_000_000_000_000_000_000_000_000_000_000_000_000,
    ensures
        final(table).wf(),
        final(table).view_spec() == (if accept_pair(
            s,
            t,
            dtol as int,
            tan_num as int,
            tan_den as int,
        ) {
            bump(old(table).view_spec(), key_of(s, t), shared_len(s.seg, t.seg))
        } else {
            old(table).view_spec()
        }),
{
    if accept_candidate(&s, &t, dtol, tan_num, tan_den) {
        let len = pair_length(&s.seg, &t.seg);
        let ki: i64 = s.line as i64 + 1;
        let kj: i64 = t.line as i64 + 1;
        proof {
            assert(key_of(s, t) == (ki as int, kj as int));
        }
        table.add_len(ki, kj, len);
    }
}

/// The configuration is valid: both tolerances are strictly positive, the
/// angular one given through its (positive) tangent.
pub open spec fn tol_ok(dtol: int, tn: int, td: int) -> bool {
    dtol > 0 && tn > 0 && td > 0
}

/// The canonical match table: the table denoted by the full cross product of
/// the two record streams, a deterministic function of the inputs alone.
pub open spec fn table_spec(
    x: Seq<Seq<(i64, i64)>>,
    y: Seq<Seq<(i64, i64)>>,
    dtol: int,
    tn: int,
    td: int,
) -> Map<(int, int), int> {
    cand_table(all_pairs(records_of(x, 0), records_of(y, dtol)), dtol, tn, td)
}

/// Size limits under which polyline keys fit and accumulated lengths cannot
/// overflow.
pub open spec fn nets_sized(x: Seq<Seq<(i64, i64)>>, y: Seq<Seq<(i64, i64)>>) -> bool {
    x.len() <= 1_000_000_000 && y.len() <= 1_000_000_000 && total_vertices(x) <= 1_000_000_000
        && total_vertices(y) <= 1_000_000_000
}

/// Checks that every polyline has at least two vertices.
fn check_network(net: &Vec<Vec<(i64, i64)>>) -> (r: bool)
    ensures
        r == net_nonempty(net.deep_view()),
{
    let ghost w = net.deep_view();
    let mut i: usize = 0;
    while i < net.len()
        invariant
            0 <= i <= net@.len(),
            w == net.deep_view(),
            w.len() == net@.len(),
            forall|k: int| 0 <= k < i ==> (#[trigger] w[k]).len() >= 2,
        decreases net@.len() - i,
    {
        proof {
            assert(w[i as int].len() == net@[i as int]@.len());
        }
        if net[i].len() < 2 {
            return false;
        }
        i = i + 1;
    }
    true
}

/// Matches two networks by indexing both: the target index is padded by the
/// distance tolerance, candidate pairs are the cross-index envelope
/// intersections, and each accepted pair's shared length accumulates under
/// its one-based polyline pair key.  The result equals the canonical table
/// `table_spec`, whatever order the index yields candidates in.
#[verifier::loop_isolation(false)]
pub fn find_candidates(
    x: &Vec<Vec<(i64, i64)>>,
    y: &Vec<Vec<(i64, i64)>>,
    distance_tolerance: i64,
    angle_tan_num: i64,
    angle_tan_den: i64,
    crs_type: CrsType,
) -> (res: Result<MatchTable, MatchError>)
    requires
        net_bounded(x.deep_view()),
        net_bounded(y.deep_view()),
        distance_tolerance <= MAX_COORD,
        angle_tan_num <= MAX_TAN,
        angle_tan_den <= MAX_TAN,
        nets_sized(x.deep_view(), y.deep_view()),
    ensures
        (match res {
            Ok(t) => tol_ok(
                distance_tolerance as int,
                angle_tan_num as int,
                angle_tan_den as int,
            ) && crs_type is Projected && net_nonempty(x.deep_view()) && net_nonempty(
                y.deep_view(),
            ) && t.wf() && t.view_spec() == table_spec(
                x.deep_view(),
                y.deep_view(),
                distance_tolerance as int,
                angle_tan_num as int,
                angle_tan_den as int,
            ),
            Err(e) => match e {
                MatchError::InvalidTolerance => !tol_ok(
                    distance_tolerance as int,
                    angle_tan_num as int,
                    angle_tan_den as int,
                ),
                MatchError::UnsupportedCrsConfiguration => tol_ok(
                    distance_tolerance as int,
                    angle_tan_num as int,
                    angle_tan_den as int,
                ) && crs_type is Geographic,
                MatchError::DegenerateGeometry => tol_ok(
                    distance_tolerance as int,
                    angle_tan_num as int,
                    angle_tan_den as int,
                ) && crs_type is Projected && !(net_nonempty(x.deep_view()) && net_nonempty(
                    y.deep_view(),
                )),
            },
        }),
{
    if !(distance_tolerance > 0 && angle_tan_num > 0 && angle_tan_den > 0) {
        return Err(MatchError::InvalidTolerance);
    }
    match crs_type {
        CrsType::Geographic => {
            return Err(MatchError::UnsupportedCrsConfiguration);
        },
        CrsType::Projected => {},
    }
    if !check_network(x) || !check_network(y) {
        return Err(MatchError::DegenerateGeometry);
    }
    let ghost di: int = distance_tolerance as int;
    let ghost ni: int = angle_tan_num as int;
    let ghost de: int = angle_tan_den as int;
    let ghost ss = records_of(x.deep_view(), 0);
    let ghost ts = records_of(y.deep_view(), di);
    let ghost pred: spec_fn((SegRecord, SegRecord)) -> bool = |p: (SegRecord, SegRecord)|
        boxes_intersect(p.0.env, p.1.env);
    let source_tree = create_source_rtree(x);
    let target_tree = create_target_rtree(y, distance_tolerance);
    proof {
        broadcast use vstd::seq_lib::group_to_multiset_ensures;

        let nx = x.len();
        let ny = y.len();
        assert(x.deep_view().len() == x@.len());
        assert(y.deep_view().len() == y@.len());
        lemma_records_wf(x.deep_view(), 0);
        lemma_records_wf(y.deep_view(), di);
        assert forall|r: SegRecord| tree_contents(source_tree).contains(r) implies r.env_wf() by {
            assert(ss.to_multiset().count(r) > 0);
            assert(ss.contains(r));
            let idx = choose|idx: int| 0 <= idx < ss.len() && ss[idx] == r;
            assert(ss[idx].wf_with(0));
            lemma_wf_with_env(r, 0);
        }
        assert forall|r: SegRecord| tree_contents(target_tree).contains(r) implies r.env_wf() by {
            assert(ts.to_multiset().count(r) > 0);
            assert(ts.contains(r));
            let idx = choose|idx: int| 0 <= idx < ts.len() && ts[idx] == r;
            assert(ts[idx].wf_with(di));
            lemma_wf_with_env(r, di);
        }
    }
    let cands = tree_pairs(&source_tree, &target_tree);
    proof {
        broadcast use vstd::seq_lib::group_to_multiset_ensures;

        assert forall|px: SegRecord, py: SegRecord| true implies #[trigger] cands@.to_multiset().count(
            (px, py),
        ) == all_pairs(ss, ts).filter(pred).to_multiset().count((px, py)) by {
            lemma_all_pairs_count(ss, ts, px, py);
            lemma_filter_count(all_pairs(ss, ts), pred, (px, py));
            assert(pred((px, py)) == boxes_intersect(px.env, py.env));
        }
        assert forall|pr: (SegRecord, SegRecord)| #[trigger] cands@.to_multiset().count(pr)
            == all_pairs(ss, ts).filter(pred).to_multiset().count(pr) by {
            assert(pr == (pr.0, pr.1));
            assert(cands@.to_multiset().count((pr.0, pr.1)) == all_pairs(ss, ts).filter(
                pred,
            ).to_multiset().count((pr.0, pr.1)));
        }
        assert(cands@.to_multiset() =~= all_pairs(ss, ts).filter(pred).to_multiset());
        assert forall|px: SegRecord, py: SegRecord| cands@.to_multiset().count((px, py))
            > 0 implies px.seg.bounded() && py.seg.bounded() && px.line < 1_000_000_000 && py.line
            < 1_000_000_000 by {
            assert(ss.to_multiset().count(px) * ts.to_multiset().count(py) > 0);
            assert(ss.to_multiset().count(px) > 0 && ts.to_multiset().count(py) > 0)
                by (nonlinear_arith)
                requires
                    ss.to_multiset().count(px) * ts.to_multiset().count(py) > 0,
            ;
            assert(ss.contains(px));
            assert(ts.contains(py));
            let ia = choose|ia: int| 0 <= ia < ss.len() && ss[ia] == px;
            let ib = choose|ib: int| 0 <= ib < ts.len() && ts[ib] == py;
            assert(ss[ia].wf_with(0));
            assert(ts[ib].wf_with(di));
            assert(px.line < x.deep_view().len());
            assert(py.line < y.deep_view().len());
        }
    }
    let mut table = MatchTable::new();
    proof {
        assert(cands@.take(0) =~= Seq::<(SegRecord, SegRecord)>::empty());
        assert(cand_table(cands@.take(0), di, ni, de) =~= Map::<(int, int), int>::empty());
    }
    let mut i: usize = 0;
    while i < cands.len()
        invariant
            0 <= i <= cands@.len(),
            table.wf(),
            table.view_spec() == cand_table(cands@.take(i as int), di, ni, de),
            forall|k: (int, int)|
                table.view_spec().contains_key(k) ==> 0 <= #[trigger] table.view_spec()[k] <= (
                i as int) * MAX_SHARED,
        decreases cands@.len() - i,
    {
        let pair = cands[i];
        proof {
            broadcast use vstd::seq_lib::group_to_multiset_ensures;

            assert(cands@.contains(cands@[i as int]));
            assert(cands@.to_multiset().count((pair.0, pair.1)) > 0) by {
                assert((pair.0, pair.1) == cands@[i as int]);
            }
            assert((i as int) * MAX_SHARED <= 1_200_000_000_000_000_000_000_000_000_000_000_000)
                by (nonlinear_arith)
                requires
                    0 <= i as int <= 18_446_744_073_709_551_615,
            ;
            assert(i as int <= 18_446_744_073_709_551_615) by {
                assert(i <= usize::MAX);
            }
            lemma_cand_table_push(cands@.take(i as int), cands@[i as int], di, ni, de);
            assert(cands@.take(i as int + 1) =~= cands@.take(i as int).push(cands@[i as int]));
            lemma_shared_len_bounds(pair.0.seg, pair.1.seg);
        }
        process_pair(
            &mut table,
            pair.0,
            pair.1,
            distance_tolerance,
            angle_tan_num,
            angle_tan_den,
        );
        proof {
            assert(((i as int) + 1) * MAX_SHARED == (i as int) * MAX_SHARED + MAX_SHARED)
                by (nonlinear_arith);
            assert forall|k: (int, int)| table.view_spec().contains_key(k) implies 0
                <= #[trigger] table.view_spec()[k] <= ((i as int) + 1) * MAX_SHARED by {}
        }
        i = i + 1;
    }
    proof {
        assert(cands@.take(cands@.len() as int) =~= cands@);
        lemma_cand_table_permutation(cands@, all_pairs(ss, ts).filter(pred), di, ni, de);
        lemma_cand_table_filter(all_pairs(ss, ts), pred, di, ni, de);
    }
    Ok(table)
}

/// Matches two networks by indexing only the source side: each target
/// segment is streamed, its tolerance-padded envelope queries the source
/// index, and the found pairs run through the same filter chain.  The result
/// is the same canonical table `table_spec` as the two-tree strategy.
#[verifier::loop_isolation(false)]
pub fn find_candidates_one_tree(
    x: &Vec<Vec<(i64, i64)>>,
    y: &Vec<Vec<(i64, i64)>>,
    distance_tolerance: i64,
    angle_tan_num: i64,
    angle_tan_den: i64,
    crs_type: CrsType,
) -> (res: Result<MatchTable, MatchError>)
    requires
        net_bounded(x.deep_view()),
        net_bounded(y.deep_view()),
        distance_tolerance <= MAX_COORD,
        angle_tan_num <= MAX_TAN,
        angle_tan_den <= MAX_TAN,
        nets_sized(x.deep_view(), y.deep_view()),
    ensures
        (match res {
            Ok(t) => tol_ok(
                distance_tolerance as int,
                angle_tan_num as int,
                angle_tan_den as int,
            ) && crs_type is Projected && net_nonempty(x.deep_view()) && net_nonempty(
                y.deep_view(),
            ) && t.wf() && t.view_spec() == table_spec(
                x.deep_view(),
                y.deep_view(),
                distance_tolerance as int,
                angle_tan_num as int,
                angle_tan_den as int,
            ),
            Err(e) => match e {
                MatchError::InvalidTolerance => !tol_ok(
                    distance_tolerance as int,
                    angle_tan_num as int,
                    angle_tan_den as int,
                ),
                MatchError::UnsupportedCrsConfiguration => tol_ok(
                    distance_tolerance as int,
                    angle_tan_num as int,
                    angle_tan_den as int,
                ) && crs_type is Geographic,
                MatchError::DegenerateGeometry => tol_ok(
                    distance_tolerance as int,
                    angle_tan_num as int,
                    angle_tan_den as int,
                ) && crs_type is Projected && !(net_nonempty(x.deep_view()) && net_nonempty(
                    y.deep_view(),
                )),
            },
        }),
{
    if !(distance_tolerance > 0 && angle_tan_num > 0 && angle_tan_den > 0) {
        return Err(MatchError::InvalidTolerance);
    }
    match crs_type {
        CrsType::Geographic => {
            return Err(MatchError::UnsupportedCrsConfiguration);
        },
        CrsType::Projected => {},
    }
    if !check_network(x) || !check_network(y) {
        return Err(MatchError::DegenerateGeometry);
    }
    let ghost di: int = distance_tolerance as int;
    let ghost ni: int = angle_tan_num as int;
    let ghost de: int = angle_tan_den as int;
    let ghost ss = records_of(x.deep_view(), 0);
    let ghost ts = records_of(y.deep_view(), di);
    let ghost pred: spec_fn((SegRecord, SegRecord)) -> bool = |p: (SegRecord, SegRecord)|
        boxes_intersect(p.0.env, p.1.env);
    let source_tree = create_source_rtree(x);
    let trecs = segment_records(y, distance_tolerance);
    proof {
        broadcast use vstd::seq_lib::group_to_multiset_ensures;

        let nx = x.len();
        let ny = y.len();
        assert(x.deep_view().len() == x@.len());
        assert(y.deep_view().len() == y@.len());
        lemma_records_wf(x.deep_view(), 0);
        lemma_records_wf(y.deep_view(), di);
        crate::structs::lemma_records_len(x.deep_view(), 0);
        crate::structs::lemma_records_len(y.deep_view(), di);
        assert forall|r: SegRecord| tree_contents(source_tree).contains(r) implies r.env_wf() by {
            assert(ss.to_multiset().count(r) > 0);
            assert(ss.contains(r));
            let idx = choose|idx: int| 0 <= idx < ss.len() && ss[idx] == r;
            assert(ss[idx].wf_with(0));
            lemma_wf_with_env(r, 0);
        }
        assert(tree_contents(source_tree).len() == ss.len());
        assert(ss.len() <= 1_000_000_000);
        assert(ts.len() <= 1_000_000_000);
    }
    let mut table = MatchTable::new();
    let ghost mut processed: Seq<(SegRecord, SegRecord)> = Seq::empty();
    proof {
        assert(cand_table(processed, di, ni, de) =~= Map::<(int, int), int>::empty());
        assert(ts.take(0) =~= Seq::<SegRecord>::empty());
        assert(ts.take(0).to_multiset() =~= Multiset::<SegRecord>::empty());
        assert(processed.to_multiset() =~= Multiset::<(SegRecord, SegRecord)>::empty());
    }
    let mut l: usize = 0;
    while l < trecs.len()
        invariant
            0 <= l <= trecs@.len(),
            table.wf(),
            table.view_spec() == cand_table(processed, di, ni, de),
            forall|k: (int, int)|
                table.view_spec().contains_key(k) ==> 0 <= #[trigger] table.view_spec()[k]
                    <= processed.len() * MAX_SHARED,
            processed.len() <= ss.len() * (l as int),
            forall|px: SegRecord, py: SegRecord|
                #[trigger] processed.to_multiset().count((px, py)) == (if boxes_intersect(
                    px.env,
                    py.env,
                ) {
                    ss.to_multiset().count(px) * ts.take(l as int).to_multiset().count(py)
                } else {
                    0
                }),
        decreases trecs@.len() - l,
    {
        let trec = trecs[l];
        proof {
            assert(trec == ts[l as int]);
            assert(ts[l as int].wf_with(di));
            lemma_wf_with_env(trec, di);
        }
        let located = tree_locate(&source_tree, &trec.env);
        proof {
            broadcast use vstd::seq_lib::group_to_multiset_ensures;

            assert(located@.len() <= ss.len());
            assert forall|r: SegRecord| located@.to_multiset().count(r) > 0 implies r.seg.bounded()
                && r.line < 1_000_000_000 by {
                assert(located@.to_multiset().count(r) == (if boxes_intersect(r.env, trec.env) {
                    tree_contents(source_tree).count(r)
                } else {
                    0
                }));
                assert(ss.to_multiset().count(r) > 0);
                assert(ss.contains(r));
                let idx = choose|idx: int| 0 <= idx < ss.len() && ss[idx] == r;
                assert(ss[idx].wf_with(0));
                assert(ss[idx].line < x.deep_view().len());
            }
        }
        let ghost inner_start = processed;
        let mut m: usize = 0;
        while m < located.len()
            invariant
                0 <= m <= located@.len(),
                table.wf(),
                table.view_spec() == cand_table(processed, di, ni, de),
                forall|k: (int, int)|
                    table.view_spec().contains_key(k) ==> 0 <= #[trigger] table.view_spec()[k]
                        <= processed.len() * MAX_SHARED,
                processed == inner_start + pair_with(located@.take(m as int), trec),
            decreases located@.len() - m,
        {
            let srec = located[m];
            proof {
                broadcast use vstd::seq_lib::group_to_multiset_ensures;

                assert(located@.contains(located@[m as int]));
                assert(located@.to_multiset().count(srec) > 0);
                assert(processed.len() == inner_start.len() + m);
                assert(processed.len() <= 1_000_000_000_000_000_000 + 1_000_000_000)
                    by (nonlinear_arith)
                    requires
                        inner_start.len() <= ss.len() * (l as int),
                        0 <= ss.len() <= 1_000_000_000,
                        0 <= l as int <= 1_000_000_000,
                        m <= located@.len() <= 1_000_000_000,
                        processed.len() == inner_start.len() + m,
                ;
                assert(processed.len() * MAX_SHARED
                    <= 61_000_000_000_000_000_000_000_000_000_000_000) by (nonlinear_arith)
                    requires
                        0 <= processed.len() <= 1_000_000_001_000_000_000,
                ;
                lemma_cand_table_push(processed, (srec, trec), di, ni, de);
                lemma_shared_len_bounds(srec.seg, trec.seg);
            }
            process_pair(
                &mut table,
                srec,
                trec,
                distance_tolerance,
                angle_tan_num,
                angle_tan_den,
            );
            proof {
                processed = processed.push((srec, trec));
                assert(located@.take(m as int + 1) =~= located@.take(m as int).push(srec));
                assert(pair_with(located@.take(m as int + 1), trec) =~= pair_with(
                    located@.take(m as int),
                    trec,
                ).push((srec, trec)));
                assert(processed =~= inner_start + pair_with(located@.take(m as int + 1), trec));
                assert((processed.len() as int) * MAX_SHARED == (processed.len() - 1)
                    * MAX_SHARED + MAX_SHARED) by (nonlinear_arith);
                assert forall|k: (int, int)| table.view_spec().contains_key(k) implies 0
                    <= #[trigger] table.view_spec()[k] <= processed.len() * MAX_SHARED by {}
            }
            m = m + 1;
        }
        proof {
            broadcast use vstd::seq_lib::group_to_multiset_ensures;

            assert(located@.take(located@.len() as int) =~= located@);
            assert(processed == inner_start + pair_with(located@, trec));
            assert(ts.take(l as int + 1) =~= ts.take(l as int).push(ts[l as int]));
            assert forall|px: SegRecord, py: SegRecord| true implies #[trigger] processed.to_multiset().count(
                (px, py),
            ) == (if boxes_intersect(px.env, py.env) {
                ss.to_multiset().count(px) * ts.take(l as int + 1).to_multiset().count(py)
            } else {
                0
            }) by {
                crate::sums::lemma_concat_count(inner_start, pair_with(located@, trec), (px, py));
                crate::sums::lemma_pair_with_count(located@, trec, px, py);
                assert(located@.to_multiset().count(px) == (if boxes_intersect(px.env, trec.env) {
                    tree_contents(source_tree).count(px)
                } else {
                    0
                }));
                let c0 = ss.to_multiset().count(px);
                let t0 = ts.take(l as int).to_multiset().count(py);
                let t1 = ts.take(l as int + 1).to_multiset().count(py);
                if py == trec {
                    assert(t1 == t0 + 1);
                    assert(c0 * (t0 + 1) == c0 * t0 + c0) by (nonlinear_arith);
                } else {
                    assert(t1 == t0);
                }
            }
            assert(processed.len() <= ss.len() * (l as int + 1)) by (nonlinear_arith)
                requires
                    processed.len() == inner_start.len() + located@.len(),
                    inner_start.len() <= ss.len() * (l as int),
                    located@.len() <= ss.len(),
                    0 <= ss.len(),
                    0 <= l as int,
            ;
        }
        l = l + 1;
    }
    proof {
        broadcast use vstd::seq_lib::group_to_multiset_ensures;

        assert(ts.take(ts.len() as int) =~= ts);
        assert forall|px: SegRecord, py: SegRecord| true implies #[trigger] processed.to_multiset().count(
            (px, py),
        ) == all_pairs(ss, ts).filter(pred).to_multiset().count((px, py)) by {
            lemma_all_pairs_count(ss, ts, px, py);
            lemma_filter_count(all_pairs(ss, ts), pred, (px, py));
            assert(pred((px, py)) == boxes_intersect(px.env, py.env));
        }
        assert forall|pr: (SegRecord, SegRecord)| #[trigger] processed.to_multiset().count(pr)
            == all_pairs(ss, ts).filter(pred).to_multiset().count(pr) by {
            assert(pr == (pr.0, pr.1));
            assert(processed.to_multiset().count((pr.0, pr.1)) == all_pairs(ss, ts).filter(
                pred,
            ).to_multiset().count((pr.0, pr.1)));
        }
        assert(processed.to_multiset() =~= all_pairs(ss, ts).filter(pred).to_multiset());
        lemma_cand_table_permutation(processed, all_pairs(ss, ts).filter(pred), di, ni, de);
        lemma_cand_table_filter(all_pairs(ss, ts), pred, di, ni, de);
    }
    Ok(table)
}

/// Matching is deterministic: any two tables that the two-tree entry point
/// returns for the same inputs carry the same key-to-length mapping, because
/// its contract pins each result to `table_spec`, a function of the inputs
/// alone.
pub proof fn lemma_match_deterministic(
    t1: MatchTable,
    t2: MatchTable,
    x: Seq<Seq<(i64, i64)>>,
    y: Seq<Seq<(i64, i64)>>,
    dtol: int,
    tn: int,
    td: int,
)
    requires
        t1.view_spec() == table_spec(x, y, dtol, tn, td),
        t2.view_spec() == table_spec(x, y, dtol, tn, td),
    ensures
        t1.view_spec() == t2.view_spec(),
{
}

/// The two candidate-search strategies agree: a table from the two-tree
/// entry point and one from the one-tree entry point, for the same inputs,
/// carry the same key-to-length mapping, since both contracts pin the result
/// to the same `table_spec`.
pub proof fn lemma_strategies_equivalent(
    two_tree: MatchTable,
    one_tree: MatchTable,
    x: Seq<Seq<(i64, i64)>>,
    y: Seq<Seq<(i64, i64)>>,
    dtol: int,
    tn: int,
    td: int,
)
    requires
        two_tree.view_spec() == table_spec(x, y, dtol, tn, td),
        one_tree.view_spec() == table_spec(x, y, dtol, tn, td),
    ensures
        two_tree.view_spec() == one_tree.view_spec(),
{
}

/// Duplicate suppression: when an accepted pair's key is already present,
/// its contribution adds to the existing entry, and no new key appears.
pub proof fn lemma_duplicate_suppression(
    ps: Seq<(SegRecord, SegRecord)>,
    p: (SegRecord, SegRecord),
    dtol: int,
    tn: int,
    td: int,
)
    requires
        accept_pair(p.0, p.1, dtol, tn, td),
        key_hit(ps, key_of(p.0, p.1), dtol, tn, td),
    ensures
        cand_table(ps.push(p), dtol, tn, td).dom() == cand_table(ps, dtol, tn, td).dom(),
        cand_table(ps.push(p), dtol, tn, td)[key_of(p.0, p.1)] == cand_table(ps, dtol, tn, td)[
            key_of(p.0, p.1)
        ] + shared_len(p.0.seg, p.1.seg),
{
    lemma_cand_table_push(ps, p, dtol, tn, td);
    let k = key_of(p.0, p.1);
    assert(cand_table(ps, dtol, tn, td).contains_key(k));
    assert(cand_table(ps.push(p), dtol, tn, td).dom() =~= cand_table(ps, dtol, tn, td).dom());
}

} // verus!
