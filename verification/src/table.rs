use vstd::prelude::*;

verus! {

/// The largest shared length a single accepted candidate pair can
/// contribute.
pub const MAX_SHARED: i64 = 60_000_000_000_000_000;

/// The map an entry list denotes: later entries win, though well-formed
/// tables never repeat a key.
pub open spec fn tbl_map_of(s: Seq<(i64, i64, i128)>) -> Map<(int, int), int>
    decreases s.len(),
{
    if s.len() == 0 {
        Map::empty()
    } else {
        tbl_map_of(s.drop_last()).insert(
            (s.last().0 as int, s.last().1 as int),
            s.last().2 as int,
        )
    }
}

/// Adds `v` to the value of `m` at `k`, treating a missing key as zero.
pub open spec fn bump(m: Map<(int, int), int>, k: (int, int), v: int) -> Map<(int, int), int> {
    m.insert(
        k,
        (if m.contains_key(k) {
            m[k]
        } else {
            0
        }) + v,
    )
}

/// The table of accumulated shared lengths, keyed by the one-based source
/// and target polyline indices.  Keys are unique; repeated contributions for
/// a key add to its entry instead of creating a duplicate.
pub struct MatchTable {
    pub entries: Vec<(i64, i64, i128)>,
}

impl MatchTable {
    /// No key occurs twice.
    pub open spec fn wf(self) -> bool {
        forall|a: int, b: int|
            0 <= a < b < self.entries@.len() ==> !((#[trigger] self.entries@[a]).0
                == (#[trigger] self.entries@[b]).0 && self.entries@[a].1 == self.entries@[b].1)
    }

    pub open spec fn view_spec(self) -> Map<(int, int), int> {
        tbl_map_of(self.entries@)
    }

    pub fn new() -> (r: MatchTable)
        ensures
            r.wf(),
            r.view_spec() == Map::<(int, int), int>::empty(),
            r.entries@.len() == 0,
    {
        let r = MatchTable { entries: Vec::new() };
        proof {
            assert(r.entries@.len() == 0);
            assert(tbl_map_of(r.entries@) == Map::<(int, int), int>::empty());
        }
        r
    }
}

/// A key is in the denoted map exactly when some entry carries it, and the
/// value is that entry's.
proof fn lemma_tbl_lookup(s: Seq<(i64, i64, i128)>, i: i64, j: i64)
    requires
        forall|a: int, b: int|
            0 <= a < b < s.len() ==> !((#[trigger] s[a]).0 == (#[trigger] s[b]).0 && s[a].1
                == s[b].1),
    ensures
        tbl_map_of(s).contains_key((i as int, j as int)) <==> exists|idx: int|
            0 <= idx < s.len() && (#[trigger] s[idx]).0 == i && s[idx].1 == j,
        forall|idx: int|
            0 <= idx < s.len() && (#[trigger] s[idx]).0 == i && s[idx].1 == j ==> tbl_map_of(s)[
                (i as int, j as int)
            ] == s[idx].2,
    decreases s.len(),
{
    if s.len() == 0 {
    } else {
        let rest = s.drop_last();
        assert(forall|a: int, b: int|
            0 <= a < b < rest.len() ==> !((#[trigger] rest[a]).0 == (#[trigger] rest[b]).0
                && rest[a].1 == rest[b].1)) by {
            assert(forall|a: int| 0 <= a < rest.len() ==> rest[a] == s[a]);
        }
        lemma_tbl_lookup(rest, i, j);
        assert(forall|a: int| 0 <= a < rest.len() ==> rest[a] == s[a]);
        let last = s.last();
        if last.0 == i && last.1 == j {
            assert(tbl_map_of(s)[(i as int, j as int)] == last.2);
            assert(forall|idx: int|
                0 <= idx < s.len() - 1 ==> !((#[trigger] s[idx]).0 == i && s[idx].1 == j));
        } else {
            assert(tbl_map_of(s).contains_key((i as int, j as int)) == tbl_map_of(
                rest,
            ).contains_key((i as int, j as int)));
        }
    }
}

/// Updating the entry that carries a key updates the denoted map at that key.
proof fn lemma_tbl_update(s: Seq<(i64, i64, i128)>, idx: int, v: i128)
    requires
        0 <= idx < s.len(),
        forall|a: int, b: int|
            0 <= a < b < s.len() ==> !((#[trigger] s[a]).0 == (#[trigger] s[b]).0 && s[a].1
                == s[b].1),
    ensures
        tbl_map_of(s.update(idx, (s[idx].0, s[idx].1, v))) == tbl_map_of(s).insert(
            (s[idx].0 as int, s[idx].1 as int),
            v as int,
        ),
    decreases s.len(),
{
    let t = s.update(idx, (s[idx].0, s[idx].1, v));
    if idx == s.len() - 1 {
        assert(t.drop_last() =~= s.drop_last());
        assert(t.last() == (s[idx].0, s[idx].1, v));
        assert(tbl_map_of(t) =~= tbl_map_of(s).insert((s[idx].0 as int, s[idx].1 as int), v as int));
    } else {
        let rest = s.drop_last();
        assert(forall|a: int, b: int|
            0 <= a < b < rest.len() ==> !((#[trigger] rest[a]).0 == (#[trigger] rest[b]).0
                && rest[a].1 == rest[b].1)) by {
            assert(forall|a: int| 0 <= a < rest.len() ==> rest[a] == s[a]);
        }
        assert(rest[idx] == s[idx]);
        lemma_tbl_update(rest, idx, v);
        assert(t.drop_last() =~= rest.update(idx, (s[idx].0, s[idx].1, v)));
        assert(t.last() == s.last());
        let ki = (s[idx].0 as int, s[idx].1 as int);
        let kl = (s.last().0 as int, s.last().1 as int);
        assert(ki != kl);
        assert(tbl_map_of(t) =~= tbl_map_of(s).insert(ki, v as int));
    }
}

impl MatchTable {
    /// Adds `len` to the entry keyed `(i, j)`, creating the entry at zero if
    /// it is absent.
    #[verifier::loop_isolation(false)]
    pub fn add_len(&mut self, i: i64, j: i64, len: i64) -> (nothing: ())
        requires
            old(self).wf(),
            0 <= len,
            old(self).view_spec().contains_key((i as int, j as int)) ==> old(self).view_spec()[
                (i as int, j as int)
            ] + len <= 0x7fff_ffff_ffff_ffff_ffff_ffff_ffff_ffff,
            old(self).view_spec().contains_key((i as int, j as int)) ==> 0 <= old(
                self,
            ).view_spec()[(i as int, j as int)],
    ensures
            final(self).wf(),
            final(self).view_spec() == bump(
                old(self).view_spec(),
                (i as int, j as int),
                len as int,
            ),
    {
        proof {
            lemma_tbl_lookup(self.entries@, i, j);
        }
        let n = self.entries.len();
        let mut idx: usize = 0;
        while idx < n
            invariant
                0 <= idx <= n,
                n == self.entries@.len(),
                self.wf(),
                self.entries@ == old(self).entries@,
                forall|a: int|
                    0 <= a < idx ==> !((#[trigger] self.entries@[a]).0 == i && self.entries@[a].1
                        == j),
            decreases n - idx,
        {
            let e = self.entries[idx];
            if e.0 == i && e.1 == j {
                proof {
                    lemma_tbl_lookup(self.entries@, i, j);
                    assert(self.view_spec().contains_key((i as int, j as int)));
                    assert(self.view_spec()[(i as int, j as int)] == e.2);
                    assert(old(self).view_spec() == self.view_spec());
                    assert(e.2 + len <= 0x7fff_ffff_ffff_ffff_ffff_ffff_ffff_ffff);
                    assert(0 <= e.2);
                    lemma_tbl_update(self.entries@, idx as int, (e.2 + len as i128) as i128);
                }
                let updated = (e.0, e.1, e.2 + len as i128);
                self.entries.set(idx, updated);
                proof {
                    assert(forall|a: int, b: int|
                        0 <= a < b < self.entries@.len() ==> !((#[trigger] self.entries@[a]).0
                            == (#[trigger] self.entries@[b]).0 && self.entries@[a].1
                            == self.entries@[b].1)) by {
                        assert(forall|a: int|
                            0 <= a < self.entries@.len() && a != idx ==> self.entries@[a] == old(
                                self,
                            ).entries@[a]);
                        assert(self.entries@[idx as int].0 == old(self).entries@[idx as int].0
                            && self.entries@[idx as int].1 == old(self).entries@[idx as int].1);
                    }
                }
                return ;
            }
            idx = idx + 1;
        }
        proof {
            lemma_tbl_lookup(self.entries@, i, j);
            assert(!self.view_spec().contains_key((i as int, j as int)));
        }
        self.entries.push((i, j, len as i128));
        proof {
            let s = self.entries@;
            assert(s.drop_last() =~= old(self).entries@);
            assert(s.last() == (i, j, len as i128));
            assert(self.view_spec() =~= bump(
                old(self).view_spec(),
                (i as int, j as int),
                len as int,
            ));
            assert(forall|a: int| 0 <= a < s.len() - 1 ==> s[a] == old(self).entries@[a]);
        }
    }

    /// The table flattened into three parallel columns: source key, target
    /// key, shared length.
    pub fn flatten(&self) -> (r: (Vec<i64>, Vec<i64>, Vec<i128>))
        ensures
            r.0@.len() == self.entries@.len(),
            r.1@.len() == self.entries@.len(),
            r.2@.len() == self.entries@.len(),
            forall|k: int|
                0 <= k < self.entries@.len() ==> r.0@[k] == (#[trigger] self.entries@[k]).0
                    && r.1@[k] == self.entries@[k].1 && r.2@[k] == self.entries@[k].2,
    {
        let mut ks: Vec<i64> = Vec::new();
        let mut js: Vec<i64> = Vec::new();
        let mut ls: Vec<i128> = Vec::new();
        let mut idx: usize = 0;
        while idx < self.entries.len()
            invariant
                0 <= idx <= self.entries@.len(),
                ks@.len() == idx,
                js@.len() == idx,
                ls@.len() == idx,
                forall|k: int|
                    0 <= k < idx ==> ks@[k] == (#[trigger] self.entries@[k]).0 && js@[k]
                        == self.entries@[k].1 && ls@[k] == self.entries@[k].2,
            decreases self.entries@.len() - idx,
        {
            let e = self.entries[idx];
            ks.push(e.0);
            js.push(e.1);
            ls.push(e.2);
            idx = idx + 1;
        }
        (ks, js, ls)
    }
}

} // verus!
