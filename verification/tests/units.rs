use rnetmatch::dist::{segments_intersect, within_distance};
use rnetmatch::nums::isqrt;
use rnetmatch::{
    overlap_range, pair_length, seg_bbox, solve_dy, solve_known_overlaps, solve_no_x_overlap,
    solve_no_y_overlap, solve_segment_length, wh, x_range, y_range, BBox, CrsType, Interval,
    Segment, TarLine,
};

#[test]
fn overlap_exact_intersection() {
    let r = overlap_range(Interval { lo: 0, hi: 10 }, Interval { lo: 4, hi: 14 });
    assert_eq!(r, Some(Interval { lo: 4, hi: 10 }));
}

#[test]
fn overlap_none_when_disjoint() {
    assert_eq!(overlap_range(Interval { lo: 0, hi: 10 }, Interval { lo: 20, hi: 30 }), None);
    assert_eq!(overlap_range(Interval { lo: 20, hi: 30 }, Interval { lo: 0, hi: 10 }), None);
}

#[test]
fn overlap_touching_counts() {
    // ranges touching in a single point still overlap
    let r = overlap_range(Interval { lo: 0, hi: 10 }, Interval { lo: 10, hi: 30 });
    assert_eq!(r, Some(Interval { lo: 10, hi: 10 }));
}

#[test]
fn overlap_symmetric() {
    let a = Interval { lo: -5, hi: 3 };
    let b = Interval { lo: 1, hi: 9 };
    assert_eq!(overlap_range(a, b), overlap_range(b, a));
}

#[test]
fn isqrt_values() {
    assert_eq!(isqrt(0), 0);
    assert_eq!(isqrt(1), 1);
    assert_eq!(isqrt(10), 3);
    assert_eq!(isqrt(16200), 127);
    assert_eq!(isqrt(1_000_000_000_000), 1_000_000);
}

#[test]
fn bbox_and_ranges() {
    let s = Segment { ax: 7, ay: 2, bx: 1, by: 9 };
    let b = seg_bbox(&s);
    assert_eq!(b, BBox { min_x: 1, min_y: 2, max_x: 7, max_y: 9 });
    let xr = x_range(&b);
    let yr = y_range(&b);
    assert_eq!((xr.lo, xr.hi), (1, 7));
    assert_eq!((yr.lo, yr.hi), (2, 9));
    assert_eq!(wh(&b), (6, 7));
    assert_eq!(solve_dy(Interval { lo: 2, hi: 9 }), 7);
}

#[test]
fn solve_points_on_x_overlap() {
    // slope-1 line through the origin, restricted to x in [2, 6]
    let s = Segment { ax: 0, ay: 0, bx: 10, by: 10 };
    let (p1, p2) = solve_no_y_overlap(Interval { lo: 2, hi: 6 }, &s);
    assert_eq!((p1.nx, p1.ny, p1.den), (20, 0 + 10 * 2, 10));
    assert_eq!((p2.nx, p2.ny, p2.den), (60, 60, 10));
}

#[test]
fn solve_points_vertical() {
    // a vertical segment: both solved x values stay at the segment's own x
    let s = Segment { ax: 3, ay: 0, bx: 3, by: 10 };
    let (p1, p2) = solve_no_x_overlap(Interval { lo: 2, hi: 5 }, &s);
    assert_eq!((p1.nx, p1.ny, p1.den), (30, 20, 10));
    assert_eq!((p2.nx, p2.ny, p2.den), (30, 50, 10));
}

#[test]
fn solve_known_overlap_points() {
    let bb = BBox { min_x: 0, min_y: 0, max_x: 10, max_y: 10 };
    let (p1, p2) = solve_known_overlaps(
        Interval { lo: 0, hi: 10 },
        Interval { lo: 1, hi: 10 },
        &bb,
    );
    assert_eq!((p1.nx, p1.ny, p1.den), (10, 10, 10));
    assert_eq!((p2.nx, p2.ny, p2.den), (100, 100, 10));
}

#[test]
fn segment_length_from_overlaps() {
    let bb = BBox { min_x: 0, min_y: 0, max_x: 10, max_y: 10 };
    let both = solve_segment_length(
        Some(Interval { lo: 0, hi: 10 }),
        Some(Interval { lo: 1, hi: 10 }),
        &bb,
    );
    assert_eq!(both, 12);
    let only_x = solve_segment_length(Some(Interval { lo: 2, hi: 9 }), None, &bb);
    assert_eq!(only_x, 7);
    let only_y = solve_segment_length(None, Some(Interval { lo: 2, hi: 6 }), &bb);
    assert_eq!(only_y, 4);
}

#[test]
fn pair_length_diagonal() {
    let s = Segment { ax: 0, ay: 0, bx: 10, by: 10 };
    let t = Segment { ax: 0, ay: 1, bx: 10, by: 11 };
    let len = pair_length(&s, &t);
    assert_eq!(len, 12);
    // the shared part cannot exceed the source segment's own length
    assert!(len <= 14);
}

#[test]
fn pair_length_only_x_overlap() {
    let s = Segment { ax: 0, ay: 0, bx: 10, by: 0 };
    let t = Segment { ax: 4, ay: 2, bx: 20, by: 2 };
    assert_eq!(pair_length(&s, &t), 6);
}

#[test]
fn tarline_envelope_is_padded() {
    let t = TarLine(Segment { ax: 0, ay: 0, bx: 10, by: 0 }, 5);
    let env = t.envelope();
    assert_eq!(env, BBox { min_x: -5, min_y: -5, max_x: 15, max_y: 5 });
}

#[test]
fn tarline_distance_boundary() {
    let t = TarLine(Segment { ax: 0, ay: 3, bx: 10, by: 3 }, 0);
    let other = Segment { ax: 0, ay: 0, bx: 10, by: 0 };
    assert!(t.dist_by_crs(&other, &CrsType::Projected, 3));
    assert!(!t.dist_by_crs(&other, &CrsType::Projected, 2));
}

#[test]
fn segment_intersection_cases() {
    let a = Segment { ax: 0, ay: 0, bx: 10, by: 10 };
    let b = Segment { ax: 0, ay: 10, bx: 10, by: 0 };
    assert!(segments_intersect(&a, &b));
    let c = Segment { ax: 10, ay: 10, bx: 20, by: 0 };
    assert!(segments_intersect(&a, &c));
    let d = Segment { ax: 11, ay: 12, bx: 20, by: 12 };
    assert!(!segments_intersect(&a, &d));
}

#[test]
fn within_distance_boundary() {
    let a = Segment { ax: 0, ay: 0, bx: 10, by: 0 };
    let b = Segment { ax: 3, ay: 4, bx: 3, by: 9 };
    assert!(within_distance(&a, &b, 4));
    assert!(!within_distance(&a, &b, 3));
}
