use crate::dist::{segs_within, within_distance};
use crate::geom::{padded_bbox, padded_bbox_spec, seg_bbox, BBox, Segment, MAX_COORD};
use crate::CrsType;
use vstd::prelude::*;

verus! {

/// A target-side segment together with the distance buffer its envelope is
/// grown by before it is inserted into a spatial index or used as a query.
pub struct TarLine(pub Segment, pub i64);

impl TarLine {
    /// The contained segment's bounding box, expanded by the buffer distance
    /// in both axis directions.
    pub fn envelope(&self) -> (r: BBox)
        requires
            self.0.bounded(),
            0 <= self.1 <= MAX_COORD,
        ensures
            r == padded_bbox_spec(self.0.bbox(), self.1 as int),
    {
        let bb = seg_bbox(&self.0);
        padded_bbox(&bb, self.1)
    }

    /// Whether the distance between the contained segment and `other`, under
    /// the given coordinate reference mode, is at most `limit`.  Only the
    /// planar mode is supported: measuring geographic coordinates would need
    /// great-circle math, which exact arithmetic cannot provide.
    pub fn dist_by_crs(&self, other: &Segment, crs: &CrsType, limit: i64) -> (r: bool)
        requires
            crs is Projected,
            self.0.bounded(),
            other.bounded(),
            0 <= limit <= MAX_COORD,
        ensures
            r == segs_within(self.0, *other, limit as int),
    {
        match crs {
            CrsType::Projected => within_distance(&self.0, other, limit),
            CrsType::Geographic => false,
        }
    }
}

/// One straight component segment of a network polyline, tagged with the
/// index of its owning polyline and carrying the envelope under which it is
/// indexed (the segment's bounding box, padded for target-side records).
#[derive(Clone, Copy, PartialEq, Eq, Structural, Debug)]
pub struct SegRecord {
    pub seg: Segment,
    pub line: usize,
    pub env: BBox,
}

impl SegRecord {
    /// The record's segment is non-degenerate and in bounds, and its stored
    /// envelope is the segment's bounding box padded by `pad`.
    pub open spec fn wf_with(self, pad: int) -> bool {
        self.seg.wf() && self.seg.bounded() && self.env == padded_bbox_spec(self.seg.bbox(), pad)
    }

    /// The stored envelope is ordered and within the padded bound.
    pub open spec fn env_wf(self) -> bool {
        self.env.wf() && self.env.bounded()
    }
}

pub open spec fn coord_bounded(p: (i64, i64)) -> bool {
    -MAX_COORD <= p.0 <= MAX_COORD && -MAX_COORD <= p.1 <= MAX_COORD
}

pub open spec fn poly_bounded(poly: Seq<(i64, i64)>) -> bool {
    forall|j: int| 0 <= j < poly.len() ==> coord_bounded(#[trigger] poly[j])
}

pub open spec fn net_bounded(net: Seq<Seq<(i64, i64)>>) -> bool {
    forall|i: int| 0 <= i < net.len() ==> poly_bounded(#[trigger] net[i])
}

/// Every polyline has at least two vertices.
pub open spec fn net_nonempty(net: Seq<Seq<(i64, i64)>>) -> bool {
    forall|i: int| 0 <= i < net.len() ==> (#[trigger] net[i]).len() >= 2
}

/// The record for the component segment from `p` to `q` of polyline `i`.
pub open spec fn seg_rec(p: (i64, i64), q: (i64, i64), i: int, pad: int) -> SegRecord {
    let s = Segment { ax: p.0, ay: p.1, bx: q.0, by: q.1 };
    SegRecord { seg: s, line: i as usize, env: padded_bbox_spec(s.bbox(), pad) }
}

/// The component segment records of one polyline, in vertex order, with
/// zero-length (degenerate) segments filtered out.
pub open spec fn poly_records(poly: Seq<(i64, i64)>, i: int, pad: int) -> Seq<SegRecord>
    decreases poly.len(),
{
    if poly.len() < 2 {
        Seq::empty()
    } else {
        let rest = poly_records(poly.drop_last(), i, pad);
        let p = poly[poly.len() - 2];
        let q = poly[poly.len() - 1];
        if p == q {
            rest
        } else {
            rest.push(seg_rec(p, q, i, pad))
        }
    }
}

/// All component segment records of a network, polyline by polyline.
pub open spec fn records_of(net: Seq<Seq<(i64, i64)>>, pad: int) -> Seq<SegRecord>
    decreases net.len(),
{
    if net.len() == 0 {
        Seq::empty()
    } else {
        records_of(net.drop_last(), pad) + poly_records(net.last(), net.len() - 1, pad)
    }
}

proof fn lemma_poly_records_wf(poly: Seq<(i64, i64)>, i: int, pad: int)
    requires
        poly_bounded(poly),
        0 <= pad <= MAX_COORD,
        0 <= i <= usize::MAX,
    ensures
        forall|k: int|
            0 <= k < poly_records(poly, i, pad).len() ==> (#[trigger] poly_records(poly, i, pad)[k]).wf_with(
                pad,
            ) && poly_records(poly, i, pad)[k].line == i,
    decreases poly.len(),
{
    if poly.len() < 2 {
    } else {
        assert(poly_bounded(poly.drop_last())) by {
            assert(forall|j: int|
                0 <= j < poly.drop_last().len() ==> poly.drop_last()[j] == poly[j]);
        }
        lemma_poly_records_wf(poly.drop_last(), i, pad);
        let rest = poly_records(poly.drop_last(), i, pad);
        let p = poly[poly.len() - 2];
        let q = poly[poly.len() - 1];
        assert(coord_bounded(p));
        assert(coord_bounded(q));
        let whole = poly_records(poly, i, pad);
        if p == q {
            assert(whole == rest);
        } else {
            let rec = seg_rec(p, q, i, pad);
            assert(rec.wf_with(pad));
            assert(whole == rest.push(rec));
            assert forall|k: int| 0 <= k < whole.len() implies (#[trigger] whole[k]).wf_with(pad)
                && whole[k].line == i by {
                if k < rest.len() {
                    assert(whole[k] == rest[k]);
                } else {
                    assert(whole[k] == rec);
                }
            }
        }
    }
}

pub proof fn lemma_records_wf(net: Seq<Seq<(i64, i64)>>, pad: int)
    requires
        net_bounded(net),
        0 <= pad <= MAX_COORD,
        net.len() <= usize::MAX,
    ensures
        forall|k: int|
            0 <= k < records_of(net, pad).len() ==> (#[trigger] records_of(net, pad)[k]).wf_with(
                pad,
            ) && records_of(net, pad)[k].line < net.len(),
    decreases net.len(),
{
    if net.len() == 0 {
    } else {
        assert(net_bounded(net.drop_last())) by {
            assert(forall|j: int| 0 <= j < net.drop_last().len() ==> net.drop_last()[j] == net[j]);
        }
        lemma_records_wf(net.drop_last(), pad);
        assert(poly_bounded(net.last()));
        lemma_poly_records_wf(net.last(), net.len() - 1, pad);
        let a = records_of(net.drop_last(), pad);
        let b = poly_records(net.last(), net.len() - 1, pad);
        let whole = records_of(net, pad);
        assert(whole == a + b);
        assert forall|k: int| 0 <= k < whole.len() implies (#[trigger] whole[k]).wf_with(pad)
            && whole[k].line < net.len() by {
            if k < a.len() {
                assert(whole[k] == a[k]);
            } else {
                assert(whole[k] == b[k - a.len()]);
            }
        }
    }
}

/// Total number of vertices over all polylines.
pub open spec fn total_vertices(net: Seq<Seq<(i64, i64)>>) -> nat
    decreases net.len(),
{
    if net.len() == 0 {
        0
    } else {
        total_vertices(net.drop_last()) + net.last().len()
    }
}

proof fn lemma_poly_records_len(poly: Seq<(i64, i64)>, i: int, pad: int)
    ensures
        poly_records(poly, i, pad).len() <= poly.len(),
    decreases poly.len(),
{
    if poly.len() < 2 {
    } else {
        lemma_poly_records_len(poly.drop_last(), i, pad);
    }
}

/// A network never decomposes into more records than it has vertices.
pub proof fn lemma_records_len(net: Seq<Seq<(i64, i64)>>, pad: int)
    ensures
        records_of(net, pad).len() <= total_vertices(net),
    decreases net.len(),
{
    if net.len() == 0 {
    } else {
        lemma_records_len(net.drop_last(), pad);
        lemma_poly_records_len(net.last(), net.len() - 1, pad);
    }
}

/// A record whose envelope is its padded bounding box has an ordered,
/// bounded envelope.
pub proof fn lemma_wf_with_env(r: SegRecord, pad: int)
    requires
        r.wf_with(pad),
        0 <= pad <= MAX_COORD,
    ensures
        r.env_wf(),
{
}

/// Decomposes every polyline of a network into tagged segment records whose
/// envelopes are padded by `pad`, dropping zero-length segments.
pub fn segment_records(net: &Vec<Vec<(i64, i64)>>, pad: i64) -> (r: Vec<SegRecord>)
    requires
        net_bounded(net.deep_view()),
        0 <= pad <= MAX_COORD,
    ensures
        r@ == records_of(net.deep_view(), pad as int),
{
    let ghost whole: Seq<Seq<(i64, i64)>> = net.deep_view();
    let mut out: Vec<SegRecord> = Vec::new();
    let mut i: usize = 0;
    proof {
        assert(whole.take(0) =~= Seq::<Seq<(i64, i64)>>::empty());
    }
    while i < net.len()
        invariant
            0 <= i <= net.len(),
            whole == net.deep_view(),
            whole.len() == net@.len(),
            net_bounded(whole),
            0 <= pad <= MAX_COORD,
            out@ == records_of(whole.take(i as int), pad as int),
        decreases net.len() - i,
    {
        let poly = &net[i];
        let ghost pseq: Seq<(i64, i64)> = whole[i as int];
        proof {
            assert(pseq == poly.deep_view());
            assert(pseq =~= poly@);
            assert(poly_bounded(pseq));
        }
        let mut j: usize = 1;
        proof {
            if poly.len() == 0 {
                assert(pseq.take(0) =~= Seq::<(i64, i64)>::empty());
                assert(poly_records(pseq.take(0), i as int, pad as int) =~= Seq::<
                    SegRecord,
                >::empty());
            } else {
                assert(pseq.take(1).len() == 1);
                assert(poly_records(pseq.take(1), i as int, pad as int) =~= Seq::<
                    SegRecord,
                >::empty());
            }
        }
        while j < poly.len()
            invariant
                1 <= j,
                j <= poly.len() || poly.len() == 0,
                whole == net.deep_view(),
                net_bounded(whole),
                0 <= i < whole.len(),
                pseq =~= poly@,
                poly_bounded(pseq),
                0 <= pad <= MAX_COORD,
                out@ == records_of(whole.take(i as int), pad as int) + poly_records(
                    pseq.take(if j <= poly.len() {
                        j as int
                    } else {
                        poly.len() as int
                    }),
                    i as int,
                    pad as int,
                ),
            decreases poly.len() - j,
        {
            let p = poly[j - 1];
            let q = poly[j];
            let ghost prefix = pseq.take(j as int);
            proof {
                assert(pseq.take(j + 1).drop_last() =~= prefix);
                assert(pseq.take(j + 1).len() == j + 1);
                assert(pseq.take(j + 1).last() == pseq[j as int]);
                assert(pseq.take(j + 1)[j - 1] == pseq[j - 1]);
            }
            if !(p.0 == q.0 && p.1 == q.1) {
                let s = Segment { ax: p.0, ay: p.1, bx: q.0, by: q.1 };
                let bb = seg_bbox(&s);
                let env = padded_bbox(&bb, pad);
                let rec = SegRecord { seg: s, line: i, env };
                out.push(rec);
                proof {
                    assert(rec == seg_rec(pseq[j - 1], pseq[j as int], i as int, pad as int));
                }
            } else {
                proof {
                    assert(pseq[j - 1] == pseq[j as int]);
                }
            }
            j = j + 1;
        }
        proof {
            assert(whole.take(i + 1).drop_last() =~= whole.take(i as int));
            assert(whole.take(i + 1).last() == whole[i as int]);
            if poly.len() >= 1 {
                assert(pseq.take(poly.len() as int) =~= pseq);
            } else {
                assert(poly_records(pseq, i as int, pad as int) =~= Seq::<SegRecord>::empty());
            }
        }
        i = i + 1;
    }
    proof {
        assert(whole.take(whole.len() as int) =~= whole);
    }
    out
}

} // verus!
