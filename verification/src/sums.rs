use crate::angle::angle_within;
use crate::dist::segs_within;
use crate::geom::{boxes_intersect, overlap_spec, x_iv, y_iv, Segment};
use crate::nums::{abs_i, isqrt_spec};
use crate::structs::SegRecord;
use crate::table::bump;
use vstd::multiset::Multiset;
use vstd::prelude::*;

verus! {

/// The length of the part of the source segment `s` that lies within the
/// overlap region of the two segments' bounding boxes: the canonical solver.
/// When only one axis overlaps, the sub-segment is reconstructed from the
/// source line equation over that axis's overlap span; when both overlap,
/// the x span is matched to the y span by similar triangles against the
/// source box.  All square roots are rounded down; a division by a zero
/// height or direction component only arises when the matching span is
/// itself zero, and then the length is zero.
pub open spec fn shared_len(s: Segment, t: Segment) -> int {
    let sb = s.bbox();
    let tb = t.bbox();
    let xo = overlap_spec(x_iv(sb), x_iv(tb));
    let yo = overlap_spec(y_iv(sb), y_iv(tb));
    match (xo, yo) {
        (Some(xov), Some(yov)) => {
            let w = sb.max_x - sb.min_x;
            let h = sb.max_y - sb.min_y;
            if h == 0 {
                xov.hi - xov.lo
            } else {
                let dyo = yov.hi - yov.lo;
                isqrt_spec((dyo * dyo * (w * w + h * h)) as nat) as int / h
            }
        },
        (Some(xov), None) => {
            if s.dx() == 0 {
                0
            } else {
                let dxo = xov.hi - xov.lo;
                isqrt_spec((dxo * dxo * (s.dx() * s.dx() + s.dy() * s.dy())) as nat) as int
                    / abs_i(s.dx())
            }
        },
        (None, Some(yov)) => {
            if s.dy() == 0 {
                0
            } else {
                let dyo = yov.hi - yov.lo;
                isqrt_spec((dyo * dyo * (s.dx() * s.dx() + s.dy() * s.dy())) as nat) as int
                    / abs_i(s.dy())
            }
        },
        (None, None) => 0,
    }
}

/// A candidate pair passes every stage of the pipeline: its stored envelopes
/// intersect, the directions agree within the angular tolerance, at least
/// one axis of the unpadded boxes overlaps, and the segments lie within the
/// distance tolerance.
pub open spec fn accept_pair(s: SegRecord, t: SegRecord, dtol: int, tn: int, td: int) -> bool {
    &&& boxes_intersect(s.env, t.env)
    &&& angle_within(s.seg, t.seg, tn, td)
    &&& {
        let xo = overlap_spec(x_iv(s.seg.bbox()), x_iv(t.seg.bbox()));
        let yo = overlap_spec(y_iv(s.seg.bbox()), y_iv(t.seg.bbox()));
        xo is Some || yo is Some
    }
    &&& segs_within(s.seg, t.seg, dtol)
}

/// The one-based key an accepted pair contributes to.
pub open spec fn key_of(s: SegRecord, t: SegRecord) -> (int, int) {
    (s.line + 1, t.line + 1)
}

pub open spec fn hits(p: (SegRecord, SegRecord), k: (int, int), dtol: int, tn: int, td: int) -> bool {
    accept_pair(p.0, p.1, dtol, tn, td) && key_of(p.0, p.1) == k
}

pub open spec fn one_for(p: (SegRecord, SegRecord), k: (int, int), dtol: int, tn: int, td: int) -> int {
    if hits(p, k, dtol, tn, td) {
        shared_len(p.0.seg, p.1.seg)
    } else {
        0
    }
}

/// Sum of the contributions of a stream of candidate pairs to one key.
pub open spec fn sum_for(
    ps: Seq<(SegRecord, SegRecord)>,
    k: (int, int),
    dtol: int,
    tn: int,
    td: int,
) -> int
    decreases ps.len(),
{
    if ps.len() == 0 {
        0
    } else {
        sum_for(ps.drop_last(), k, dtol, tn, td) + one_for(ps.last(), k, dtol, tn, td)
    }
}

/// Some pair of the stream contributes to the key.
pub open spec fn key_hit(
    ps: Seq<(SegRecord, SegRecord)>,
    k: (int, int),
    dtol: int,
    tn: int,
    td: int,
) -> bool {
    exists|i: int| 0 <= i < ps.len() && #[trigger] hits(ps[i], k, dtol, tn, td)
}

/// The table a stream of candidate pairs denotes: each key hit by some
/// accepted pair maps to the sum of its contributions.
pub open spec fn cand_table(
    ps: Seq<(SegRecord, SegRecord)>,
    dtol: int,
    tn: int,
    td: int,
) -> Map<(int, int), int> {
    Map::new(
        |k: (int, int)| key_hit(ps, k, dtol, tn, td),
        |k: (int, int)| sum_for(ps, k, dtol, tn, td),
    )
}

/// A key no pair hits sums to zero.
proof fn lemma_sum_zero(ps: Seq<(SegRecord, SegRecord)>, k: (int, int), dtol: int, tn: int, td: int)
    requires
        !key_hit(ps, k, dtol, tn, td),
    ensures
        sum_for(ps, k, dtol, tn, td) == 0,
    decreases ps.len(),
{
    if ps.len() == 0 {
    } else {
        assert(!hits(ps.last(), k, dtol, tn, td)) by {
            assert(ps[ps.len() - 1] == ps.last());
        }
        assert(!key_hit(ps.drop_last(), k, dtol, tn, td)) by {
            if key_hit(ps.drop_last(), k, dtol, tn, td) {
                let i = choose|i: int|
                    0 <= i < ps.drop_last().len() && #[trigger] hits(
                        ps.drop_last()[i],
                        k,
                        dtol,
                        tn,
                        td,
                    );
                assert(ps[i] == ps.drop_last()[i]);
                assert(hits(ps[i], k, dtol, tn, td));
            }
        }
        lemma_sum_zero(ps.drop_last(), k, dtol, tn, td);
    }
}

/// Appending one pair changes the denoted table by bumping its key when the
/// pair is accepted, and not at all otherwise.
pub proof fn lemma_cand_table_push(
    ps: Seq<(SegRecord, SegRecord)>,
    p: (SegRecord, SegRecord),
    dtol: int,
    tn: int,
    td: int,
)
    ensures
        cand_table(ps.push(p), dtol, tn, td) == (if accept_pair(p.0, p.1, dtol, tn, td) {
            bump(cand_table(ps, dtol, tn, td), key_of(p.0, p.1), shared_len(p.0.seg, p.1.seg))
        } else {
            cand_table(ps, dtol, tn, td)
        }),
{
    let q = ps.push(p);
    assert(q.drop_last() =~= ps);
    assert(q.last() == p);
    assert(forall|i: int| 0 <= i < ps.len() ==> q[i] == ps[i]);
    assert(q[ps.len() as int] == p);
    assert forall|k: (int, int)| #[trigger] key_hit(q, k, dtol, tn, td) <==> (key_hit(
        ps,
        k,
        dtol,
        tn,
        td,
    ) || hits(p, k, dtol, tn, td)) by {
        if key_hit(q, k, dtol, tn, td) {
            let i = choose|i: int| 0 <= i < q.len() && #[trigger] hits(q[i], k, dtol, tn, td);
            if i < ps.len() {
                assert(hits(ps[i], k, dtol, tn, td));
            } else {
                assert(q[i] == p);
            }
        }
        if key_hit(ps, k, dtol, tn, td) {
            let i = choose|i: int| 0 <= i < ps.len() && #[trigger] hits(ps[i], k, dtol, tn, td);
            assert(hits(q[i], k, dtol, tn, td));
        }
        if hits(p, k, dtol, tn, td) {
            assert(hits(q[ps.len() as int], k, dtol, tn, td));
        }
    }
    assert(forall|k: (int, int)|
        #[trigger] sum_for(q, k, dtol, tn, td) == sum_for(ps, k, dtol, tn, td) + one_for(
            p,
            k,
            dtol,
            tn,
            td,
        ));
    if accept_pair(p.0, p.1, dtol, tn, td) {
        let kp = key_of(p.0, p.1);
        if !key_hit(ps, kp, dtol, tn, td) {
            lemma_sum_zero(ps, kp, dtol, tn, td);
        }
        assert(cand_table(q, dtol, tn, td) =~= bump(
            cand_table(ps, dtol, tn, td),
            kp,
            shared_len(p.0.seg, p.1.seg),
        ));
    } else {
        assert(forall|k: (int, int)| !hits(p, k, dtol, tn, td));
        assert(cand_table(q, dtol, tn, td) =~= cand_table(ps, dtol, tn, td));
    }
}

/// Removing a pair removes exactly its contribution from every key's sum.
proof fn lemma_sum_remove(
    ps: Seq<(SegRecord, SegRecord)>,
    idx: int,
    k: (int, int),
    dtol: int,
    tn: int,
    td: int,
)
    requires
        0 <= idx < ps.len(),
    ensures
        sum_for(ps.remove(idx), k, dtol, tn, td) == sum_for(ps, k, dtol, tn, td) - one_for(
            ps[idx],
            k,
            dtol,
            tn,
            td,
        ),
    decreases ps.len(),
{
    let r = ps.remove(idx);
    if idx == ps.len() - 1 {
        assert(r =~= ps.drop_last());
    } else {
        assert(r.drop_last() =~= ps.drop_last().remove(idx));
        assert(r.last() == ps.last());
        assert(ps.drop_last()[idx] == ps[idx]);
        lemma_sum_remove(ps.drop_last(), idx, k, dtol, tn, td);
    }
}

/// Streams with the same pairs, in any order, sum alike at every key.
pub proof fn lemma_sum_permutation(
    a: Seq<(SegRecord, SegRecord)>,
    b: Seq<(SegRecord, SegRecord)>,
    k: (int, int),
    dtol: int,
    tn: int,
    td: int,
)
    requires
        a.to_multiset() == b.to_multiset(),
    ensures
        sum_for(a, k, dtol, tn, td) == sum_for(b, k, dtol, tn, td),
    decreases a.len(),
{
    broadcast use vstd::seq_lib::group_to_multiset_ensures;

    if a.len() == 0 {
        assert(a.to_multiset().len() == 0);
        assert(b.len() == 0);
    } else {
        let p = a.last();
        assert(a[a.len() - 1] == p);
        assert(a.contains(p));
        assert(a.to_multiset().count(p) > 0);
        assert(b.to_multiset().count(p) > 0);
        assert(b.contains(p));
        let idx = choose|i: int| 0 <= i < b.len() && b[i] == p;
        assert(a.remove(a.len() - 1) =~= a.drop_last());
        assert(a.drop_last().to_multiset() == a.to_multiset().remove(p));
        assert(b.remove(idx).to_multiset() == b.to_multiset().remove(p));
        lemma_sum_permutation(a.drop_last(), b.remove(idx), k, dtol, tn, td);
        lemma_sum_remove(b, idx, k, dtol, tn, td);
    }
}

/// Streams with the same pairs hit the same keys.
proof fn lemma_hit_permutation(
    a: Seq<(SegRecord, SegRecord)>,
    b: Seq<(SegRecord, SegRecord)>,
    k: (int, int),
    dtol: int,
    tn: int,
    td: int,
)
    requires
        a.to_multiset() == b.to_multiset(),
    ensures
        key_hit(a, k, dtol, tn, td) == key_hit(b, k, dtol, tn, td),
{
    broadcast use vstd::seq_lib::group_to_multiset_ensures;

    if key_hit(a, k, dtol, tn, td) {
        let i = choose|i: int| 0 <= i < a.len() && #[trigger] hits(a[i], k, dtol, tn, td);
        assert(a.contains(a[i]));
        assert(a.to_multiset().count(a[i]) > 0);
        assert(b.to_multiset().count(a[i]) > 0);
        assert(b.contains(a[i]));
        let j = choose|j: int| 0 <= j < b.len() && b[j] == a[i];
        assert(hits(b[j], k, dtol, tn, td));
    }
    if key_hit(b, k, dtol, tn, td) {
        let i = choose|i: int| 0 <= i < b.len() && #[trigger] hits(b[i], k, dtol, tn, td);
        assert(b.contains(b[i]));
        assert(b.to_multiset().count(b[i]) > 0);
        assert(a.to_multiset().count(b[i]) > 0);
        assert(a.contains(b[i]));
        let j = choose|j: int| 0 <= j < a.len() && a[j] == b[i];
        assert(hits(a[j], k, dtol, tn, td));
    }
}

/// The denoted table depends only on the multiset of candidate pairs, not on
/// the order the spatial index yields them in.
pub proof fn lemma_cand_table_permutation(
    a: Seq<(SegRecord, SegRecord)>,
    b: Seq<(SegRecord, SegRecord)>,
    dtol: int,
    tn: int,
    td: int,
)
    requires
        a.to_multiset() == b.to_multiset(),
    ensures
        cand_table(a, dtol, tn, td) == cand_table(b, dtol, tn, td),
{
    assert forall|k: (int, int)| #[trigger] key_hit(a, k, dtol, tn, td) == key_hit(
        b,
        k,
        dtol,
        tn,
        td,
    ) by {
        lemma_hit_permutation(a, b, k, dtol, tn, td);
    }
    assert forall|k: (int, int)| #[trigger] sum_for(a, k, dtol, tn, td) == sum_for(
        b,
        k,
        dtol,
        tn,
        td,
    ) by {
        lemma_sum_permutation(a, b, k, dtol, tn, td);
    }
    assert(cand_table(a, dtol, tn, td) =~= cand_table(b, dtol, tn, td));
}

/// Dropping pairs that a filter rejects changes no sum, provided the filter
/// keeps every pair the pipeline could accept.
pub proof fn lemma_cand_table_filter(
    ps: Seq<(SegRecord, SegRecord)>,
    pred: spec_fn((SegRecord, SegRecord)) -> bool,
    dtol: int,
    tn: int,
    td: int,
)
    requires
        forall|p: (SegRecord, SegRecord)|
            !#[trigger] pred(p) ==> !accept_pair(p.0, p.1, dtol, tn, td),
    ensures
        cand_table(ps.filter(pred), dtol, tn, td) == cand_table(ps, dtol, tn, td),
    decreases ps.len(),
{
    reveal(Seq::filter);
    if ps.len() == 0 {
    } else {
        lemma_cand_table_filter(ps.drop_last(), pred, dtol, tn, td);
        let p = ps.last();
        assert(ps.drop_last().push(p) =~= ps);
        lemma_cand_table_push(ps.drop_last(), p, dtol, tn, td);
        if pred(p) {
            assert(ps.filter(pred) == ps.drop_last().filter(pred).push(p));
            lemma_cand_table_push(ps.drop_last().filter(pred), p, dtol, tn, td);
        } else {
            assert(ps.filter(pred) == ps.drop_last().filter(pred));
            assert(!accept_pair(p.0, p.1, dtol, tn, td));
        }
    }
}

/// Count of a value in the concatenation of two sequences.
pub proof fn lemma_concat_count<A>(a: Seq<A>, b: Seq<A>, x: A)
    ensures
        (a + b).to_multiset().count(x) == a.to_multiset().count(x) + b.to_multiset().count(x),
    decreases b.len(),
{
    broadcast use vstd::seq_lib::group_to_multiset_ensures;

    if b.len() == 0 {
        assert(a + b =~= a);
        assert(b.to_multiset() =~= Multiset::<A>::empty());
    } else {
        lemma_concat_count(a, b.drop_last(), x);
        assert(a + b =~= (a + b.drop_last()).push(b.last()));
        assert(b.drop_last().push(b.last()) =~= b);
    }
}

/// Count of a value in a filtered sequence.
pub proof fn lemma_filter_count<A>(s: Seq<A>, pred: spec_fn(A) -> bool, x: A)
    ensures
        s.filter(pred).to_multiset().count(x) == (if pred(x) {
            s.to_multiset().count(x)
        } else {
            0
        }),
    decreases s.len(),
{
    broadcast use vstd::seq_lib::group_to_multiset_ensures;

    reveal(Seq::filter);
    if s.len() == 0 {
        assert(s.filter(pred) == s);
        assert(s.to_multiset() =~= Multiset::<A>::empty());
    } else {
        lemma_filter_count(s.drop_last(), pred, x);
        assert(s.drop_last().push(s.last()) =~= s);
    }
}

/// The records of a stream, each paired with one fixed target record.
pub open spec fn pair_with(rs: Seq<SegRecord>, t: SegRecord) -> Seq<(SegRecord, SegRecord)> {
    rs.map_values(|r: SegRecord| (r, t))
}

/// Pairing a stream with a fixed record keeps each record's count.
pub proof fn lemma_pair_with_count(rs: Seq<SegRecord>, t: SegRecord, x: SegRecord, y: SegRecord)
    ensures
        pair_with(rs, t).to_multiset().count((x, y)) == (if y == t {
            rs.to_multiset().count(x)
        } else {
            0
        }),
    decreases rs.len(),
{
    broadcast use vstd::seq_lib::group_to_multiset_ensures;

    if rs.len() == 0 {
        assert(pair_with(rs, t).to_multiset() =~= Multiset::<(SegRecord, SegRecord)>::empty());
        assert(rs.to_multiset() =~= Multiset::<SegRecord>::empty());
    } else {
        lemma_pair_with_count(rs.drop_last(), t, x, y);
        assert(pair_with(rs, t) =~= pair_with(rs.drop_last(), t).push((rs.last(), t)));
        assert(rs.drop_last().push(rs.last()) =~= rs);
    }
}

/// Every pair of one source record against a stream of target records.
pub open spec fn pairs_row(s: SegRecord, ts: Seq<SegRecord>) -> Seq<(SegRecord, SegRecord)>
    decreases ts.len(),
{
    if ts.len() == 0 {
        Seq::empty()
    } else {
        pairs_row(s, ts.drop_last()).push((s, ts.last()))
    }
}

/// The full cross product of source and target records, row by row.
pub open spec fn all_pairs(ss: Seq<SegRecord>, ts: Seq<SegRecord>) -> Seq<(SegRecord, SegRecord)>
    decreases ss.len(),
{
    if ss.len() == 0 {
        Seq::empty()
    } else {
        all_pairs(ss.drop_last(), ts) + pairs_row(ss.last(), ts)
    }
}

proof fn lemma_row_count(s: SegRecord, ts: Seq<SegRecord>, x: SegRecord, y: SegRecord)
    ensures
        pairs_row(s, ts).to_multiset().count((x, y)) == (if x == s {
            ts.to_multiset().count(y)
        } else {
            0
        }),
    decreases ts.len(),
{
    broadcast use vstd::seq_lib::group_to_multiset_ensures;

    if ts.len() == 0 {
        assert(pairs_row(s, ts).to_multiset() =~= Multiset::<(SegRecord, SegRecord)>::empty());
        assert(ts.to_multiset() =~= Multiset::<SegRecord>::empty());
    } else {
        lemma_row_count(s, ts.drop_last(), x, y);
        assert(ts.drop_last().push(ts.last()) =~= ts);
    }
}

/// The cross product holds each value pair as often as the product of the
/// two streams' counts.
pub proof fn lemma_all_pairs_count(ss: Seq<SegRecord>, ts: Seq<SegRecord>, x: SegRecord, y: SegRecord)
    ensures
        all_pairs(ss, ts).to_multiset().count((x, y)) == ss.to_multiset().count(x)
            * ts.to_multiset().count(y),
    decreases ss.len(),
{
    broadcast use vstd::seq_lib::group_to_multiset_ensures;

    if ss.len() == 0 {
        assert(all_pairs(ss, ts).to_multiset() =~= Multiset::<(SegRecord, SegRecord)>::empty());
        assert(ss.to_multiset() =~= Multiset::<SegRecord>::empty());
        assert(ss.to_multiset().count(x) * ts.to_multiset().count(y) == 0) by (nonlinear_arith)
            requires
                ss.to_multiset().count(x) == 0,
        ;
    } else {
        lemma_all_pairs_count(ss.drop_last(), ts, x, y);
        lemma_row_count(ss.last(), ts, x, y);
        lemma_concat_count(all_pairs(ss.drop_last(), ts), pairs_row(ss.last(), ts), (x, y));
        assert(ss.drop_last().push(ss.last()) =~= ss);
        let c0 = ss.drop_last().to_multiset().count(x);
        let c1 = ss.to_multiset().count(x);
        let t = ts.to_multiset().count(y);
        if ss.last() == x {
            assert(c1 == c0 + 1);
            assert((c0 + 1) * t == c0 * t + t) by (nonlinear_arith);
        } else {
            assert(c1 == c0);
        }
    }
}

} // verus!
