use rnetmatch::{find_candidates, find_candidates_one_tree, CrsType, MatchError, MatchTable};

// tan(5 degrees) ~= 0.0874887, as the ratio 87489 / 1_000_000
const TAN5_NUM: i64 = 87_489;
// tan(1 degree) ~= 0.0174551, as the ratio 17456 / 1_000_000
const TAN1_NUM: i64 = 17_456;
const TAN_DEN: i64 = 1_000_000;

fn rows(t: &MatchTable) -> Vec<(i64, i64, i128)> {
    let (ks, js, ls) = t.flatten();
    let mut out: Vec<(i64, i64, i128)> = Vec::new();
    let mut i: usize = 0;
    while i < ks.len() {
        out.push((ks[i], js[i], ls[i]));
        i += 1;
    }
    out.sort();
    out
}

#[test]
fn parallel_horizontal_match() {
    let x = vec![vec![(0, 0), (10, 0)]];
    let y = vec![vec![(0, 1), (10, 1)]];
    let t = find_candidates(&x, &y, 2, TAN5_NUM, TAN_DEN, CrsType::Projected).unwrap();
    assert_eq!(rows(&t), vec![(1, 1, 10)]);
}

#[test]
fn disjoint_boxes_no_match() {
    let x = vec![vec![(0, 0), (10, 0)]];
    let y = vec![vec![(20, 5), (30, 5)]];
    let t = find_candidates(&x, &y, 2, TAN5_NUM, TAN_DEN, CrsType::Projected).unwrap();
    assert_eq!(rows(&t), vec![]);
}

#[test]
fn diagonal_overlap_match() {
    // scaled by 100: a 45-degree source and a parallel target half a unit up
    let x = vec![vec![(0, 0), (1000, 1000)]];
    let y = vec![vec![(0, 50), (1000, 1050)]];
    let t = find_candidates(&x, &y, 100, TAN1_NUM, TAN_DEN, CrsType::Projected).unwrap();
    assert_eq!(rows(&t), vec![(1, 1, 1343)]);
}

#[test]
fn tight_angle_tolerance_rejects() {
    // same geometry, target rotated to slope 1.2, tolerance tangent ~2e-6
    let x = vec![vec![(0, 0), (1000, 1000)]];
    let y = vec![vec![(0, 50), (1000, 1250)]];
    let t = find_candidates(&x, &y, 100, 2, TAN_DEN, CrsType::Projected).unwrap();
    assert_eq!(rows(&t), vec![]);
}

#[test]
fn duplicate_suppression_sums() {
    // two component segments of one source polyline match the same target
    let x = vec![vec![(0, 0), (5, 0), (10, 0)]];
    let y = vec![vec![(0, 1), (10, 1)]];
    let t = find_candidates(&x, &y, 2, TAN5_NUM, TAN_DEN, CrsType::Projected).unwrap();
    assert_eq!(rows(&t), vec![(1, 1, 10)]);
}

#[test]
fn deterministic_repeat() {
    let x = vec![vec![(0, 0), (1000, 1000)], vec![(0, 0), (1000, 0)]];
    let y = vec![vec![(0, 50), (1000, 1050)], vec![(0, -30), (900, -30)]];
    let a = find_candidates(&x, &y, 100, TAN5_NUM, TAN_DEN, CrsType::Projected).unwrap();
    let b = find_candidates(&x, &y, 100, TAN5_NUM, TAN_DEN, CrsType::Projected).unwrap();
    assert_eq!(rows(&a), rows(&b));
}

#[test]
fn strategies_agree() {
    let x = vec![
        vec![(0, 0), (1000, 1000)],
        vec![(0, 0), (1000, 0), (2000, 0)],
        vec![(500, 500), (500, 600)],
    ];
    let y = vec![
        vec![(0, 50), (1000, 1050)],
        vec![(0, -30), (1900, -30)],
        vec![(510, 500), (510, 610)],
    ];
    let two = find_candidates(&x, &y, 100, TAN5_NUM, TAN_DEN, CrsType::Projected).unwrap();
    let one = find_candidates_one_tree(&x, &y, 100, TAN5_NUM, TAN_DEN, CrsType::Projected).unwrap();
    assert_eq!(rows(&two), rows(&one));
    assert!(!rows(&two).is_empty());
}

#[test]
fn one_tree_matches_scenario() {
    let x = vec![vec![(0, 0), (10, 0)]];
    let y = vec![vec![(0, 1), (10, 1)]];
    let t = find_candidates_one_tree(&x, &y, 2, TAN5_NUM, TAN_DEN, CrsType::Projected).unwrap();
    assert_eq!(rows(&t), vec![(1, 1, 10)]);
}

#[test]
fn padded_envelope_reaches_neighbors() {
    // the unpadded envelopes do not intersect: only the tolerance padding of
    // the target-side envelope lets the index produce the candidate
    let x = vec![vec![(0, 0), (10, 0)]];
    let y = vec![vec![(0, 3), (10, 3)]];
    let near = find_candidates(&x, &y, 5, TAN5_NUM, TAN_DEN, CrsType::Projected).unwrap();
    assert_eq!(rows(&near), vec![(1, 1, 10)]);
    let far = find_candidates(&x, &y, 2, TAN5_NUM, TAN_DEN, CrsType::Projected).unwrap();
    assert_eq!(rows(&far), vec![]);
}

#[test]
fn invalid_distance_tolerance() {
    let x = vec![vec![(0, 0), (10, 0)]];
    let y = vec![vec![(0, 1), (10, 1)]];
    let r = find_candidates(&x, &y, 0, TAN5_NUM, TAN_DEN, CrsType::Projected);
    assert!(matches!(r, Err(MatchError::InvalidTolerance)));
}

#[test]
fn invalid_angle_tolerance() {
    let x = vec![vec![(0, 0), (10, 0)]];
    let y = vec![vec![(0, 1), (10, 1)]];
    let r = find_candidates_one_tree(&x, &y, 2, 0, TAN_DEN, CrsType::Projected);
    assert!(matches!(r, Err(MatchError::InvalidTolerance)));
}

#[test]
fn geographic_mode_unsupported() {
    let x = vec![vec![(0, 0), (10, 0)]];
    let y = vec![vec![(0, 1), (10, 1)]];
    let r = find_candidates(&x, &y, 2, TAN5_NUM, TAN_DEN, CrsType::Geographic);
    assert!(matches!(r, Err(MatchError::UnsupportedCrsConfiguration)));
}

#[test]
fn short_polyline_rejected() {
    let x = vec![vec![(0, 0)]];
    let y = vec![vec![(0, 1), (10, 1)]];
    let r = find_candidates(&x, &y, 2, TAN5_NUM, TAN_DEN, CrsType::Projected);
    assert!(matches!(r, Err(MatchError::DegenerateGeometry)));
}

#[test]
fn degenerate_segment_skipped() {
    // a zero-length component segment is dropped, not an error
    let x = vec![vec![(1, 1), (1, 1)]];
    let y = vec![vec![(0, 1), (10, 1)]];
    let t = find_candidates(&x, &y, 2, TAN5_NUM, TAN_DEN, CrsType::Projected).unwrap();
    assert_eq!(rows(&t), vec![]);
}

#[test]
fn vertical_segments_match() {
    let x = vec![vec![(0, 0), (0, 10)]];
    let y = vec![vec![(1, 2), (1, 12)]];
    let t = find_candidates(&x, &y, 2, TAN5_NUM, TAN_DEN, CrsType::Projected).unwrap();
    assert_eq!(rows(&t), vec![(1, 1, 8)]);
}

#[test]
fn opposite_vertical_directions_reject() {
    // an upward and a downward vertical segment differ by a half turn, as
    // the signs of their infinite slopes do
    let x = vec![vec![(0, 10), (0, 0)]];
    let y = vec![vec![(1, 2), (1, 12)]];
    let t = find_candidates(&x, &y, 2, TAN5_NUM, TAN_DEN, CrsType::Projected).unwrap();
    assert_eq!(rows(&t), vec![]);
}

#[test]
fn empty_networks_match_nothing() {
    let x: Vec<Vec<(i64, i64)>> = vec![];
    let y: Vec<Vec<(i64, i64)>> = vec![];
    let t = find_candidates(&x, &y, 2, TAN5_NUM, TAN_DEN, CrsType::Projected).unwrap();
    assert_eq!(rows(&t), vec![]);
}
