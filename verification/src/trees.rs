use crate::geom::{boxes_intersect, BBox, MAX_COORD};
use crate::structs::{
    lemma_records_wf, net_bounded, records_of, segment_records, SegRecord,
};
use vstd::multiset::Multiset;
use vstd::prelude::*;

verus! {

/// A bulk-loaded spatial index over segment records.  The backing structure
/// is an R-tree keyed by each record's stored envelope; Verus sees it only
/// through `tree_contents` and the wrappers below.
#[verifier::external_body]
pub struct SegTree {
    tree: rstar::RTree<
        rstar::primitives::GeomWithData<rstar::primitives::Rectangle<[i64; 2]>, SegRecord>,
    >,
}

/// The multiset of records a spatial index holds.
pub uninterp spec fn tree_contents(t: SegTree) -> Multiset<SegRecord>;

/// Relies on rstar::RTree::bulk_load: the built tree holds exactly the given
/// elements, each under the envelope it was inserted with (here the record's
/// stored box, whose corners are already ordered).
#[verifier::external_body]
fn tree_build(items: Vec<SegRecord>) -> (t: SegTree)
    requires
        forall|k: int| 0 <= k < items@.len() ==> (#[trigger] items@[k]).env_wf(),
    ensures
        tree_contents(t) == items@.to_multiset(),
{
    let elems: Vec<_> = items
        .into_iter()
        .map(
            |r| rstar::primitives::GeomWithData::new(
                rstar::primitives::Rectangle::from_corners(
                    [r.env.min_x, r.env.min_y],
                    [r.env.max_x, r.env.max_y],
                ),
                r,
            ),
        )
        .collect();
    SegTree { tree: rstar::RTree::bulk_load(elems) }
}

/// Relies on rstar::RTree::locate_in_envelope_intersecting: it yields exactly
/// the stored elements (a sub-collection of the tree's contents) whose
/// envelope intersects the query box, where the comparison on each axis is
/// closed, so touching boxes intersect.
#[verifier::external_body]
pub(crate) fn tree_locate(t: &SegTree, q: &BBox) -> (res: Vec<SegRecord>)
    requires
        q.wf(),
    ensures
        res@.len() <= tree_contents(*t).len(),
        (forall|r: SegRecord| tree_contents(*t).contains(r) ==> r.env_wf()) ==> forall|
            r: SegRecord,
        |
            #[trigger] res@.to_multiset().count(r) == (if boxes_intersect(r.env, *q) {
                tree_contents(*t).count(r)
            } else {
                0
            }),
{
    t.tree
        .locate_in_envelope_intersecting(
            rstar::AABB::from_corners([q.min_x, q.min_y], [q.max_x, q.max_y]),
        )
        .map(|e| e.data)
        .collect()
}

/// Relies on rstar::RTree::intersection_candidates_with_other_tree: it yields
/// each pair of stored elements, one from each tree, whose envelopes
/// intersect, exactly once per stored copy, in no particular order.
#[verifier::external_body]
pub(crate) fn tree_pairs(a: &SegTree, b: &SegTree) -> (res: Vec<(SegRecord, SegRecord)>)
    ensures
        ((forall|r: SegRecord| tree_contents(*a).contains(r) ==> r.env_wf()) && (forall|
            r: SegRecord,
        | tree_contents(*b).contains(r) ==> r.env_wf())) ==> forall|x: SegRecord, y: SegRecord|
            #[trigger] res@.to_multiset().count((x, y)) == (if boxes_intersect(x.env, y.env) {
                tree_contents(*a).count(x) * tree_contents(*b).count(y)
            } else {
                0
            }),
{
    a.tree
        .intersection_candidates_with_other_tree(&b.tree)
        .map(|(x, y)| (x.data, y.data))
        .collect()
}

/// Builds the source-side index: every component segment of every polyline,
/// keyed by its own (unpadded) bounding box.
pub fn create_source_rtree(x: &Vec<Vec<(i64, i64)>>) -> (t: SegTree)
    requires
        net_bounded(x.deep_view()),
    ensures
        tree_contents(t) == records_of(x.deep_view(), 0).to_multiset(),
{
    let n = x.len();
    let recs = segment_records(x, 0);
    proof {
        assert(x.deep_view().len() == x@.len());
        assert(x@.len() == n);
        lemma_records_wf(x.deep_view(), 0);
        assert(forall|k: int| 0 <= k < recs@.len() ==> (#[trigger] recs@[k]).env_wf());
    }
    tree_build(recs)
}

/// Builds the target-side index: the same decomposition, but each record is
/// keyed by its bounding box grown by the distance tolerance, so that any
/// source segment within that distance still intersects it.
pub fn create_target_rtree(y: &Vec<Vec<(i64, i64)>>, dist: i64) -> (t: SegTree)
    requires
        net_bounded(y.deep_view()),
        0 <= dist <= MAX_COORD,
    ensures
        tree_contents(t) == records_of(y.deep_view(), dist as int).to_multiset(),
{
    let n = y.len();
    let recs = segment_records(y, dist);
    proof {
        assert(y.deep_view().len() == y@.len());
        assert(y@.len() == n);
        lemma_records_wf(y.deep_view(), dist as int);
        assert(forall|k: int| 0 <= k < recs@.len() ==> (#[trigger] recs@[k]).env_wf());
    }
    tree_build(recs)
}

} // verus!
