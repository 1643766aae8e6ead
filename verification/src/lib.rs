pub mod angle;
pub mod dist;
pub mod geom;
pub mod matching;
pub mod nums;
pub mod solve;
pub mod sums;
pub mod structs;
pub mod table;
pub mod trees;

pub use geom::{overlap_range, seg_bbox, solve_dy, wh, x_range, y_range, BBox, Interval, Segment};
pub use matching::{accept_candidate, find_candidates, find_candidates_one_tree, pair_length};
pub use solve::{
    solve_known_overlaps, solve_no_x_overlap, solve_no_y_overlap, solve_segment_length, RatPoint,
};
pub use structs::{SegRecord, TarLine};
pub use table::MatchTable;
pub use trees::{create_source_rtree, create_target_rtree, SegTree};

use vstd::prelude::*;

verus! {

/// Errors surfaced by the matching entry points before any work is done.
#[derive(Clone, Copy, PartialEq, Eq, Structural, Debug)]
pub enum MatchError {
    /// A distance or angular tolerance was not strictly positive.
    InvalidTolerance,
    /// An input network holds a polyline with fewer than two vertices.
    DegenerateGeometry,
    /// The requested coordinate reference mode is not supported here.
    UnsupportedCrsConfiguration,
}

/// Coordinate reference system of the input coordinates.
///
/// `Projected` means planar coordinates: distances are Euclidean.
/// `Geographic` means latitude/longitude coordinates; measuring them needs
/// great-circle math, which this library does not provide, so the matching
/// entry points refuse that mode.
pub enum CrsType {
    Projected,
    Geographic,
}

} // verus!
