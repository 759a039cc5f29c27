//! Dependency vectors: ordered sequences of instance ids with at most one
//! entry per replica.
//!
//! A dependency vector is read as a finite map from replica id to the
//! highest instance index seen from that replica (`dep_map`). The union of
//! two vectors takes, for each replica, the larger of the two indexes;
//! the union is associative, commutative and idempotent.

use vstd::prelude::*;

use crate::ids::InstanceId;
use crate::ids::ReplicaId;

verus! {

/// An ordered sequence of instance ids with at most one entry per replica.
#[derive(Debug, PartialEq, Eq)]
pub struct InstanceIdVec {
    pub ids: Vec<InstanceId>,
}

impl Clone for InstanceIdVec {
    /// A clone has the same value as the original.
    fn clone(&self) -> (r: InstanceIdVec)
        ensures
            r@ == self@,
    {
        let mut ids: Vec<InstanceId> = Vec::new();
        let n = self.ids.len();
        let mut k: usize = 0;
        while k < n
            invariant
                n == self.ids@.len(),
                0 <= k <= n,
                ids@ =~= self.ids@.take(k as int),
            decreases n - k,
        {
            ids.push(self.ids[k]);
            proof {
                assert(self.ids@.take(k as int + 1) =~= self.ids@.take(k as int).push(
                    self.ids@[k as int],
                ));
            }
            k += 1;
        }
        proof {
            assert(self.ids@.take(n as int) =~= self.ids@);
        }
        InstanceIdVec { ids }
    }
}

impl View for InstanceIdVec {
    type V = Seq<InstanceId>;

    open spec fn view(&self) -> Seq<InstanceId> {
        self.ids@
    }
}

/// Well-formedness: no replica id occurs twice.
pub open spec fn iids_wf(s: Seq<InstanceId>) -> bool {
    forall|i: int, j: int|
        0 <= i < j < s.len() ==> #[trigger] s[i].replica_id != #[trigger] s[j].replica_id
}

/// Whether some entry carries the given replica id.
pub open spec fn dep_contains(s: Seq<InstanceId>, rid: int) -> bool {
    exists|i: int| 0 <= i < s.len() && #[trigger] s[i].replica_id == rid
}

/// The index recorded for the given replica id (meaningful when the
/// vector is well-formed and the replica is present).
pub open spec fn dep_at(s: Seq<InstanceId>, rid: int) -> int {
    let i = choose|i: int| 0 <= i < s.len() && #[trigger] s[i].replica_id == rid;
    s[i].idx as int
}

/// The vector read as a finite map from replica id to instance index.
pub open spec fn dep_map(s: Seq<InstanceId>) -> Map<int, int> {
    Map::new(|r: int| dep_contains(s, r), |r: int| dep_at(s, r))
}

/// Pointwise union of two dependency maps: the larger index where both
/// are defined, and the defined one elsewhere.
pub open spec fn union_map(a: Map<int, int>, b: Map<int, int>) -> Map<int, int> {
    Map::new(
        |r: int| a.dom().contains(r) || b.dom().contains(r),
        |r: int|
            if a.dom().contains(r) && b.dom().contains(r) {
                if a[r] >= b[r] {
                    a[r]
                } else {
                    b[r]
                }
            } else if a.dom().contains(r) {
                a[r]
            } else {
                b[r]
            },
    )
}

/// The entries of `a`, each raised to `b`'s index for its replica where
/// that is larger.
pub open spec fn raised_by(a: Seq<InstanceId>, b: Seq<InstanceId>) -> Seq<InstanceId> {
    Seq::new(
        a.len(),
        |i: int|
            InstanceId {
                replica_id: a[i].replica_id,
                idx: if dep_contains(b, a[i].replica_id as int) && dep_at(
                    b,
                    a[i].replica_id as int,
                ) > a[i].idx as int {
                    dep_at(b, a[i].replica_id as int) as i64
                } else {
                    a[i].idx
                },
            },
    )
}

/// The entries of `b` whose replicas `a` does not name, in `b`'s order.
pub open spec fn fresh_entries(a: Seq<InstanceId>, b: Seq<InstanceId>) -> Seq<InstanceId>
    decreases b.len(),
{
    if b.len() == 0 {
        Seq::<InstanceId>::empty()
    } else {
        let rest = fresh_entries(a, b.drop_last());
        if dep_contains(a, b.last().replica_id as int) {
            rest
        } else {
            rest.push(b.last())
        }
    }
}

/// The vector a union produces: the left operand's entries in their
/// order, each raised where the right operand is larger, then the right
/// operand's fresh replicas appended in its order.
pub open spec fn union_vec(a: Seq<InstanceId>, b: Seq<InstanceId>) -> Seq<InstanceId> {
    raised_by(a, b) + fresh_entries(a, b)
}

/// Dependency union is commutative.
pub proof fn lemma_union_commutative(a: Map<int, int>, b: Map<int, int>)
    ensures
        union_map(a, b) == union_map(b, a),
{
    assert(union_map(a, b) =~= union_map(b, a));
}

/// Dependency union is associative.
pub proof fn lemma_union_associative(a: Map<int, int>, b: Map<int, int>, c: Map<int, int>)
    ensures
        union_map(union_map(a, b), c) == union_map(a, union_map(b, c)),
{
    assert(union_map(union_map(a, b), c) =~= union_map(a, union_map(b, c)));
}

/// Dependency union is idempotent.
pub proof fn lemma_union_idempotent(a: Map<int, int>)
    ensures
        union_map(a, a) == a,
{
    assert(union_map(a, a) =~= a);
}

/// In a well-formed vector any two entries with the same replica id are
/// the same entry, so `dep_at` names the index of every matching entry.
pub proof fn lemma_wf_unique(s: Seq<InstanceId>, i: int)
    requires
        iids_wf(s),
        0 <= i < s.len(),
    ensures
        dep_contains(s, s[i].replica_id as int),
        dep_at(s, s[i].replica_id as int) == s[i].idx as int,
{
    let rid = s[i].replica_id as int;
    assert(dep_contains(s, rid));
    let j = choose|j: int| 0 <= j < s.len() && #[trigger] s[j].replica_id == rid;
    if i != j {
        assert(s[i].replica_id != s[j].replica_id || s[j].replica_id != s[i].replica_id);
    }
}

/// Taking one more element of a well-formed vector changes lookups only
/// at that element's replica.
pub proof fn lemma_take_lookup(b: Seq<InstanceId>, k: int, rid: int)
    requires
        iids_wf(b),
        0 <= k < b.len(),
    ensures
        rid != b[k].replica_id ==> dep_contains(b.take(k + 1), rid) == dep_contains(
            b.take(k),
            rid,
        ),
        rid != b[k].replica_id && dep_contains(b.take(k), rid) ==> dep_at(b.take(k + 1), rid)
            == dep_at(b.take(k), rid),
        dep_contains(b.take(k + 1), b[k].replica_id as int),
        dep_at(b.take(k + 1), b[k].replica_id as int) == b[k].idx as int,
        !dep_contains(b.take(k), b[k].replica_id as int),
{
    let tk = b.take(k);
    let tk1 = b.take(k + 1);
    assert(iids_wf(tk) && iids_wf(tk1)) by {
        assert(forall|i: int| 0 <= i < tk.len() ==> #[trigger] tk[i] == b[i]);
        assert(forall|i: int| 0 <= i < tk1.len() ==> #[trigger] tk1[i] == b[i]);
    }
    assert forall|j: int| 0 <= j < tk.len() implies #[trigger] tk[j].replica_id
        != b[k].replica_id by {
        assert(b[j].replica_id != b[k].replica_id);
    }
    assert(tk1[k] == b[k]);
    lemma_wf_unique(tk1, k);
    if rid != b[k].replica_id {
        if dep_contains(tk1, rid) {
            let i = choose|i: int| 0 <= i < tk1.len() && #[trigger] tk1[i].replica_id == rid;
            assert(i != k);
            assert(tk[i].replica_id == rid);
            assert(dep_contains(tk, rid));
        }
        if dep_contains(tk, rid) {
            let i = choose|i: int| 0 <= i < tk.len() && #[trigger] tk[i].replica_id == rid;
            assert(tk1[i].replica_id == rid);
            assert(dep_contains(tk1, rid));
            lemma_wf_unique(tk, i);
            lemma_wf_unique(tk1, i);
        }
    }
}

/// Every fresh entry is one of `b`'s entries, for a replica `a` lacks.
pub proof fn lemma_fresh_from(a: Seq<InstanceId>, b: Seq<InstanceId>, t: int)
    requires
        0 <= t < fresh_entries(a, b).len(),
    ensures
        exists|j: int|
            0 <= j < b.len() && #[trigger] b[j] == fresh_entries(a, b)[t] && !dep_contains(
                a,
                b[j].replica_id as int,
            ),
    decreases b.len(),
{
    if b.len() > 0 {
        let rest = fresh_entries(a, b.drop_last());
        if dep_contains(a, b.last().replica_id as int) {
            lemma_fresh_from(a, b.drop_last(), t);
            let j = choose|j: int|
                0 <= j < b.drop_last().len() && #[trigger] b.drop_last()[j] == fresh_entries(
                    a,
                    b.drop_last(),
                )[t] && !dep_contains(a, b.drop_last()[j].replica_id as int);
            assert(b[j] == b.drop_last()[j]);
        } else {
            if t < rest.len() {
                lemma_fresh_from(a, b.drop_last(), t);
                let j = choose|j: int|
                    0 <= j < b.drop_last().len() && #[trigger] b.drop_last()[j] == fresh_entries(
                        a,
                        b.drop_last(),
                    )[t] && !dep_contains(a, b.drop_last()[j].replica_id as int);
                assert(b[j] == b.drop_last()[j]);
            } else {
                assert(fresh_entries(a, b)[t] == b.last());
                assert(b[b.len() - 1] == b.last());
            }
        }
    }
}

/// Every entry of `b` for a replica `a` lacks appears among the fresh
/// entries.
pub proof fn lemma_fresh_contains(a: Seq<InstanceId>, b: Seq<InstanceId>, j: int)
    requires
        iids_wf(b),
        0 <= j < b.len(),
        !dep_contains(a, b[j].replica_id as int),
    ensures
        exists|t: int|
            0 <= t < fresh_entries(a, b).len() && #[trigger] fresh_entries(a, b)[t] == b[j],
    decreases b.len(),
{
    if j == b.len() - 1 {
        assert(b.last() == b[j]);
        assert(fresh_entries(a, b)[fresh_entries(a, b).len() - 1] == b[j]);
    } else {
        assert(iids_wf(b.drop_last())) by {
            assert(forall|i: int|
                0 <= i < b.drop_last().len() ==> #[trigger] b.drop_last()[i] == b[i]);
        }
        assert(b.drop_last()[j] == b[j]);
        lemma_fresh_contains(a, b.drop_last(), j);
        let t = choose|t: int|
            0 <= t < fresh_entries(a, b.drop_last()).len() && #[trigger] fresh_entries(
                a,
                b.drop_last(),
            )[t] == b.drop_last()[j];
        assert(fresh_entries(a, b)[t] == b[j]);
    }
}

/// Taking one more element of the right operand moves the union vector
/// by one step: it raises the left position carrying that element's
/// replica, or appends the element when the left operand lacks it.
pub proof fn lemma_union_vec_step(a: Seq<InstanceId>, b: Seq<InstanceId>, k: int)
    requires
        iids_wf(a),
        iids_wf(b),
        0 <= k < b.len(),
    ensures
        forall|i: int|
            0 <= i < a.len() && a[i].replica_id != b[k].replica_id ==> #[trigger] raised_by(
                a,
                b.take(k + 1),
            )[i] == raised_by(a, b.take(k))[i],
        forall|i: int|
            0 <= i < a.len() && a[i].replica_id == b[k].replica_id ==> #[trigger] raised_by(
                a,
                b.take(k + 1),
            )[i] == (InstanceId {
                replica_id: a[i].replica_id,
                idx: if b[k].idx > a[i].idx {
                    b[k].idx
                } else {
                    a[i].idx
                },
            }),
        forall|i: int|
            0 <= i < a.len() && a[i].replica_id == b[k].replica_id ==> #[trigger] raised_by(
                a,
                b.take(k),
            )[i] == a[i],
        dep_contains(a, b[k].replica_id as int) ==> fresh_entries(a, b.take(k + 1))
            == fresh_entries(a, b.take(k)),
        !dep_contains(a, b[k].replica_id as int) ==> fresh_entries(a, b.take(k + 1))
            == fresh_entries(a, b.take(k)).push(b[k]),
{
    assert(b.take(k + 1).drop_last() =~= b.take(k));
    assert(b.take(k + 1).last() == b[k]);
    assert forall|i: int|
        0 <= i < a.len() && a[i].replica_id != b[k].replica_id implies #[trigger] raised_by(
        a,
        b.take(k + 1),
    )[i] == raised_by(a, b.take(k))[i] by {
        lemma_take_lookup(b, k, a[i].replica_id as int);
    }
    assert forall|i: int|
        0 <= i < a.len() && a[i].replica_id == b[k].replica_id implies #[trigger] raised_by(
        a,
        b.take(k + 1),
    )[i] == (InstanceId {
        replica_id: a[i].replica_id,
        idx: if b[k].idx > a[i].idx {
            b[k].idx
        } else {
            a[i].idx
        },
    }) && raised_by(a, b.take(k))[i] == a[i] by {
        lemma_take_lookup(b, k, a[i].replica_id as int);
        assert(!dep_contains(b.take(k), a[i].replica_id as int));
        assert(dep_at(b.take(k + 1), a[i].replica_id as int) == b[k].idx as int);
    }
}

impl InstanceIdVec {
    /// The empty dependency vector.
    pub fn new() -> (r: InstanceIdVec)
        ensures
            r@ =~= Seq::<InstanceId>::empty(),
            dep_map(r@) =~= Map::<int, int>::empty(),
    {
        let r = InstanceIdVec { ids: Vec::new() };
        proof {
            assert forall|rid: int| !dep_contains(r@, rid) by {
                assert(r@.len() == 0);
            }
        }
        r
    }

    /// The number of entries.
    pub fn len(&self) -> (n: usize)
        ensures
            n == self@.len(),
    {
        self.ids.len()
    }

    /// Retrieves the entry with the given replica id; the first match
    /// when the vector holds several.
    pub fn get(&self, rid: ReplicaId) -> (r: Option<InstanceId>)
        ensures
            r.is_some() == dep_contains(self@, rid as int),
            match r {
                Some(iid) => exists|i: int|
                    0 <= i < self@.len() && self@[i] == iid && #[trigger] self@[i].replica_id
                        == rid && forall|j: int| 0 <= j < i ==> #[trigger] self@[j].replica_id != rid,
                None => forall|j: int|
                    0 <= j < self@.len() ==> #[trigger] self@[j].replica_id != rid,
            },
            iids_wf(self@) && r.is_some() ==> r == Some(
                InstanceId { replica_id: rid, idx: dep_at(self@, rid as int) as i64 },
            ),
    {
        let n = self.ids.len();
        let mut k: usize = 0;
        while k < n
            invariant
                n == self@.len(),
                0 <= k <= n,
                forall|j: int| 0 <= j < k ==> #[trigger] self@[j].replica_id != rid,
            decreases n - k,
        {
            if self.ids[k].replica_id == rid {
                let found = self.ids[k];
                proof {
                    if iids_wf(self@) {
                        lemma_wf_unique(self@, k as int);
                    }
                }
                return Some(found);
            }
            k += 1;
        }
        None
    }

    /// Adds an entry, or overwrites the existing entry with the same
    /// replica id. Returns the position written, with the replaced value
    /// when one was there.
    pub fn set(&mut self, inst_id: InstanceId) -> (r: (usize, Option<InstanceId>))
        ensures
            match r.1 {
                Some(replaced) => {
                    &&& 0 <= r.0 < old(self)@.len()
                    &&& old(self)@[r.0 as int] == replaced
                    &&& replaced.replica_id == inst_id.replica_id
                    &&& forall|j: int|
                        0 <= j < r.0 ==> #[trigger] old(self)@[j].replica_id
                            != inst_id.replica_id
                    &&& final(self)@ =~= old(self)@.update(r.0 as int, inst_id)
                },
                None => {
                    &&& r.0 == old(self)@.len()
                    &&& forall|j: int|
                        0 <= j < old(self)@.len() ==> #[trigger] old(self)@[j].replica_id
                            != inst_id.replica_id
                    &&& final(self)@ =~= old(self)@.push(inst_id)
                },
            },
            iids_wf(old(self)@) ==> iids_wf(final(self)@),
            iids_wf(old(self)@) ==> dep_map(final(self)@) =~= dep_map(old(self)@).insert(
                inst_id.replica_id as int,
                inst_id.idx as int,
            ),
    {
        let n = self.ids.len();
        let mut k: usize = 0;
        while k < n
            invariant
                self@ == old(self)@,
                n == self@.len(),
                0 <= k <= n,
                forall|j: int| 0 <= j < k ==> #[trigger] self@[j].replica_id != inst_id.replica_id,
            decreases n - k,
        {
            if self.ids[k].replica_id == inst_id.replica_id {
                let old_val = self.ids[k];
                self.ids[k] = inst_id;
                proof {
                    if iids_wf(old(self)@) {
                        lemma_set_update_map(old(self)@, k as int, inst_id);
                    }
                }
                return (k, Some(old_val));
            }
            k += 1;
        }
        self.ids.push(inst_id);
        proof {
            if iids_wf(old(self)@) {
                lemma_set_push_map(old(self)@, inst_id);
            }
        }
        (n, None)
    }

    /// Retrieves the entry with the given replica id, which must be
    /// present.
    pub fn index_of(&self, rid: ReplicaId) -> (r: InstanceId)
        requires
            dep_contains(self@, rid as int),
        ensures
            r.replica_id == rid,
            iids_wf(self@) ==> r.idx as int == dep_at(self@, rid as int),
    {
        let got = self.get(rid);
        match got {
            Some(iid) => iid,
            None => {
                proof {
                    assert(false);
                }
                InstanceId { replica_id: rid, idx: 0 }
            },
        }
    }

    /// Builds a dependency vector from `(replica_id, idx)` pairs, kept in
    /// the given order.
    pub fn from_pairs(pairs: &Vec<(i64, i64)>) -> (r: InstanceIdVec)
        ensures
            r@.len() == pairs@.len(),
            forall|i: int|
                0 <= i < pairs@.len() ==> #[trigger] r@[i] == (InstanceId {
                    replica_id: pairs@[i].0,
                    idx: pairs@[i].1,
                }),
    {
        let mut ids: Vec<InstanceId> = Vec::new();
        let n = pairs.len();
        let mut k: usize = 0;
        while k < n
            invariant
                n == pairs@.len(),
                0 <= k <= n,
                ids@.len() == k,
                forall|i: int|
                    0 <= i < k ==> #[trigger] ids@[i] == (InstanceId {
                        replica_id: pairs@[i].0,
                        idx: pairs@[i].1,
                    }),
            decreases n - k,
        {
            let p = pairs[k];
            ids.push(InstanceId { replica_id: p.0, idx: p.1 });
            k += 1;
        }
        InstanceIdVec { ids }
    }

    /// The union of two well-formed dependency vectors: for each replica,
    /// the larger of the two recorded indexes.
    pub fn union(&self, other: &InstanceIdVec) -> (r: InstanceIdVec)
        requires
            iids_wf(self@),
            iids_wf(other@),
        ensures
            iids_wf(r@),
            dep_map(r@) =~= union_map(dep_map(self@), dep_map(other@)),
            r@ == union_vec(self@, other@),
    {
        let mut rids: Vec<InstanceId> = Vec::new();
        let sn = self.ids.len();
        let mut t: usize = 0;
        while t < sn
            invariant
                sn == self@.len(),
                0 <= t <= sn,
                rids@ =~= self@.take(t as int),
            decreases sn - t,
        {
            rids.push(self.ids[t]);
            proof {
                assert(self@.take(t as int + 1) =~= self@.take(t as int).push(self@[t as int]));
            }
            t += 1;
        }
        let mut r = InstanceIdVec { ids: rids };
        proof {
            assert(self@.take(sn as int) =~= self@);
            assert(r@ =~= self@);
            assert(other@.take(0) =~= Seq::<InstanceId>::empty());
            assert(dep_map(r@) =~= union_map(dep_map(self@), dep_map(other@.take(0))));
            assert(raised_by(self@, other@.take(0)) =~= self@);
            assert(r@ =~= union_vec(self@, other@.take(0)));
        }
        let n = other.ids.len();
        let mut k: usize = 0;
        while k < n
            invariant
                n == other@.len(),
                iids_wf(self@),
                iids_wf(other@),
                0 <= k <= n,
                iids_wf(r@),
                dep_map(r@) =~= union_map(dep_map(self@), dep_map(other@.take(k as int))),
                r@ == union_vec(self@, other@.take(k as int)),
            decreases n - k,
        {
            let o = other.ids[k];
            let ghost a = dep_map(self@);
            let ghost mk = dep_map(other@.take(k as int));
            let ghost rid = o.replica_id as int;
            let ghost tk = other@.take(k as int);
            let ghost tk1 = other@.take(k as int + 1);
            proof {
                lemma_wf_unique(other@, k as int);
                lemma_take_extend(other@, k as int);
                lemma_union_vec_step(self@, other@, k as int);
                assert forall|j: int|
                    0 <= j < tk.len() implies #[trigger] tk[j].replica_id != o.replica_id by {
                    assert(other@[j].replica_id != other@[k as int].replica_id);
                }
                assert(!dep_contains(tk, rid));
                assert(!mk.dom().contains(rid));
                lemma_union_step(a, mk, rid, o.idx as int);
                assert(dep_map(tk1) =~= mk.insert(rid, o.idx as int));
            }
            let mine = r.get(o.replica_id);
            match mine {
                Some(m) => {
                    proof {
                        assert(dep_contains(r@, rid));
                        assert(dep_map(r@).dom().contains(rid));
                        assert(dep_map(r@) == union_map(a, mk));
                        assert(union_map(a, mk).dom().contains(rid));
                        assert(a.dom().contains(rid));
                        assert(dep_map(r@)[rid] == m.idx as int);
                        assert(union_map(a, mk)[rid] == m.idx as int);
                        assert(a[rid] == m.idx as int);
                        // the matched position lies in the left range
                        lemma_r_position_in_left(self@, tk, r@, rid);
                    }
                    let ghost p = choose|p: int|
                        0 <= p < self@.len() && #[trigger] self@[p].replica_id == rid;
                    proof {
                        assert(r@[p] == raised_by(self@, tk)[p]);
                        assert(raised_by(self@, tk)[p] == self@[p]);
                        lemma_wf_unique(r@, p);
                        assert(m.idx == self@[p].idx);
                    }
                    if o.idx > m.idx {
                        let ghost pre_r = r@;
                        let sres = r.set(o);
                        proof {
                            assert(dep_map(r@) =~= union_map(a, mk).insert(rid, o.idx as int));
                            // the write hit exactly the left position
                            let q = sres.0 as int;
                            assert(pre_r[q].replica_id == rid);
                            assert(q == p) by {
                                if q != p {
                                    assert(pre_r[p].replica_id == rid);
                                    assert(iids_wf(pre_r));
                                }
                            }
                            assert(r@ =~= pre_r.update(p, o));
                            assert forall|i: int| 0 <= i < union_vec(self@, tk1).len() implies r@[i]
                                == #[trigger] union_vec(self@, tk1)[i] by {
                                if i < self@.len() {
                                    if i == p {
                                        assert(raised_by(self@, tk1)[p] == o);
                                    } else {
                                        assert(self@[i].replica_id != rid);
                                        assert(raised_by(self@, tk1)[i] == raised_by(
                                            self@,
                                            tk,
                                        )[i]);
                                    }
                                } else {
                                    assert(fresh_entries(self@, tk1) == fresh_entries(self@, tk));
                                    assert(r@[i] == pre_r[i]);
                                }
                            }
                            assert(fresh_entries(self@, tk1) == fresh_entries(self@, tk));
                            assert(r@.len() == union_vec(self@, tk1).len());
                            assert(r@ =~= union_vec(self@, tk1));
                        }
                    } else {
                        proof {
                            assert forall|i: int| 0 <= i < union_vec(self@, tk1).len() implies r@[i]
                                == #[trigger] union_vec(self@, tk1)[i] by {
                                if i < self@.len() {
                                    if i == p {
                                        assert(raised_by(self@, tk1)[p] == self@[p]);
                                        assert(r@[p] == self@[p]);
                                    } else {
                                        assert(self@[i].replica_id != rid);
                                        assert(raised_by(self@, tk1)[i] == raised_by(
                                            self@,
                                            tk,
                                        )[i]);
                                    }
                                } else {
                                    assert(fresh_entries(self@, tk1) == fresh_entries(self@, tk));
                                }
                            }
                            assert(fresh_entries(self@, tk1) == fresh_entries(self@, tk));
                            assert(r@.len() == union_vec(self@, tk1).len());
                            assert(r@ =~= union_vec(self@, tk1));
                        }
                    }
                },
                None => {
                    proof {
                        assert(!dep_contains(r@, rid));
                        assert(!dep_map(r@).dom().contains(rid));
                        assert(dep_map(r@) == union_map(a, mk));
                        assert(!union_map(a, mk).dom().contains(rid));
                        assert(!a.dom().contains(rid));
                        // no left position carries this replica
                        assert forall|i: int| 0 <= i < self@.len() implies #[trigger] self@[i].replica_id
                            != o.replica_id by {
                            if self@[i].replica_id == o.replica_id {
                                assert(r@[i].replica_id == rid);
                                assert(dep_contains(r@, rid));
                            }
                        }
                        assert(!dep_contains(self@, rid));
                    }
                    let ghost pre_r = r@;
                    r.set(o);
                    proof {
                        assert(dep_map(r@) =~= union_map(a, mk).insert(rid, o.idx as int));
                        assert(r@ =~= pre_r.push(o));
                        assert(fresh_entries(self@, tk1) == fresh_entries(self@, tk).push(o));
                        assert forall|i: int| 0 <= i < union_vec(self@, tk1).len() implies r@[i]
                            == #[trigger] union_vec(self@, tk1)[i] by {
                            if i < self@.len() {
                                assert(self@[i].replica_id != rid);
                                assert(raised_by(self@, tk1)[i] == raised_by(self@, tk)[i]);
                            } else if i < pre_r.len() {
                                assert(r@[i] == pre_r[i]);
                            } else {
                                assert(r@[i] == o);
                            }
                        }
                        assert(r@.len() == union_vec(self@, tk1).len());
                        assert(r@ =~= union_vec(self@, tk1));
                    }
                },
            }
            proof {
                assert(dep_map(r@) =~= union_map(
                    dep_map(self@),
                    dep_map(other@.take(k as int + 1)),
                ));
            }
            k += 1;
        }
        proof {
            assert(other@.take(n as int) =~= other@);
        }
        r
    }
}

/// When the running union holds a replica the right prefix lacks, some
/// left position carries it.
proof fn lemma_r_position_in_left(a: Seq<InstanceId>, tk: Seq<InstanceId>, r: Seq<InstanceId>, rid: int)
    requires
        r == union_vec(a, tk),
        dep_contains(r, rid),
        !dep_contains(tk, rid),
    ensures
        exists|p: int| 0 <= p < a.len() && #[trigger] a[p].replica_id == rid,
{
    let i = choose|i: int| 0 <= i < r.len() && #[trigger] r[i].replica_id == rid;
    if i < a.len() {
        assert(r[i] == raised_by(a, tk)[i]);
        assert(a[i].replica_id == rid);
    } else {
        assert(r[i] == fresh_entries(a, tk)[i - a.len()]);
        lemma_fresh_from(a, tk, i - a.len());
        let j = choose|j: int|
            0 <= j < tk.len() && #[trigger] tk[j] == fresh_entries(a, tk)[i - a.len()]
                && !dep_contains(a, tk[j].replica_id as int);
        assert(tk[j].replica_id == rid);
        assert(dep_contains(tk, rid));
    }
}

/// Extending the right operand of a union with a fresh replica id either
/// leaves the union unchanged (the left index dominates) or inserts the
/// new index.
proof fn lemma_union_step(a: Map<int, int>, b: Map<int, int>, rid: int, idx: int)
    requires
        !b.dom().contains(rid),
    ensures
        a.dom().contains(rid) && a[rid] >= idx ==> union_map(a, b.insert(rid, idx)) =~= union_map(
            a,
            b,
        ),
        !(a.dom().contains(rid) && a[rid] >= idx) ==> union_map(a, b.insert(rid, idx))
            =~= union_map(a, b).insert(rid, idx),
{
}

/// Overwriting the entry at a first-match position updates the map at
/// exactly that replica id.
proof fn lemma_set_update_map(s: Seq<InstanceId>, k: int, v: InstanceId)
    requires
        iids_wf(s),
        0 <= k < s.len(),
        s[k].replica_id == v.replica_id,
    ensures
        iids_wf(s.update(k, v)),
        dep_map(s.update(k, v)) =~= dep_map(s).insert(v.replica_id as int, v.idx as int),
{
    let t = s.update(k, v);
    assert forall|i: int, j: int| 0 <= i < j < t.len() implies #[trigger] t[i].replica_id
        != #[trigger] t[j].replica_id by {
        assert(s[i].replica_id != s[j].replica_id);
    }
    assert forall|r: int| #[trigger]
        dep_map(t).dom().contains(r) == dep_map(s).insert(
            v.replica_id as int,
            v.idx as int,
        ).dom().contains(r) by {
        if dep_contains(s, r) {
            let i = choose|i: int| 0 <= i < s.len() && #[trigger] s[i].replica_id == r;
            assert(t[i].replica_id == r);
            assert(dep_contains(t, r));
        }
        if dep_contains(t, r) {
            let i = choose|i: int| 0 <= i < t.len() && #[trigger] t[i].replica_id == r;
            if i == k {
                assert(s[k].replica_id == v.replica_id);
                assert(dep_contains(s, r) || r == v.replica_id as int);
            } else {
                assert(s[i].replica_id == r);
                assert(dep_contains(s, r));
            }
        }
        if r == v.replica_id as int {
            assert(t[k].replica_id == r);
            assert(dep_contains(t, r));
        }
    }
    assert forall|r: int| dep_map(t).dom().contains(r) implies #[trigger] dep_map(t)[r]
        == dep_map(s).insert(v.replica_id as int, v.idx as int)[r] by {
        lemma_wf_value(t, r);
        if r == v.replica_id as int {
            assert(t[k] == v);
            lemma_wf_unique(t, k);
        } else {
            let i = choose|i: int| 0 <= i < t.len() && #[trigger] t[i].replica_id == r;
            assert(i != k);
            assert(s[i].replica_id == r);
            lemma_wf_unique(t, i);
            lemma_wf_unique(s, i);
        }
    }
}

/// Appending an entry with a fresh replica id extends the map at exactly
/// that replica id.
proof fn lemma_set_push_map(s: Seq<InstanceId>, v: InstanceId)
    requires
        iids_wf(s),
        forall|j: int| 0 <= j < s.len() ==> #[trigger] s[j].replica_id != v.replica_id,
    ensures
        iids_wf(s.push(v)),
        dep_map(s.push(v)) =~= dep_map(s).insert(v.replica_id as int, v.idx as int),
{
    let t = s.push(v);
    assert forall|i: int, j: int| 0 <= i < j < t.len() implies #[trigger] t[i].replica_id
        != #[trigger] t[j].replica_id by {
        if j < s.len() {
            assert(s[i].replica_id != s[j].replica_id);
        } else {
            assert(t[j] == v);
            assert(s[i].replica_id != v.replica_id);
        }
    }
    assert forall|r: int| #[trigger]
        dep_map(t).dom().contains(r) == dep_map(s).insert(
            v.replica_id as int,
            v.idx as int,
        ).dom().contains(r) by {
        if dep_contains(s, r) {
            let i = choose|i: int| 0 <= i < s.len() && #[trigger] s[i].replica_id == r;
            assert(t[i].replica_id == r);
            assert(dep_contains(t, r));
        }
        if dep_contains(t, r) {
            let i = choose|i: int| 0 <= i < t.len() && #[trigger] t[i].replica_id == r;
            if i == s.len() {
                assert(t[i] == v);
            } else {
                assert(s[i].replica_id == r);
                assert(dep_contains(s, r));
            }
        }
        if r == v.replica_id as int {
            assert(t[s.len() as int].replica_id == r);
            assert(dep_contains(t, r));
        }
    }
    assert forall|r: int| dep_map(t).dom().contains(r) implies #[trigger] dep_map(t)[r]
        == dep_map(s).insert(v.replica_id as int, v.idx as int)[r] by {
        lemma_wf_value(t, r);
        if r == v.replica_id as int {
            assert(t[s.len() as int] == v);
            lemma_wf_unique(t, s.len() as int);
        } else {
            let i = choose|i: int| 0 <= i < t.len() && #[trigger] t[i].replica_id == r;
            assert(i != s.len());
            assert(s[i].replica_id == r);
            lemma_wf_unique(t, i);
            lemma_wf_unique(s, i);
        }
    }
}

/// In a well-formed vector, `dep_at` is witnessed by some entry.
proof fn lemma_wf_value(s: Seq<InstanceId>, r: int)
    requires
        iids_wf(s),
        dep_contains(s, r),
    ensures
        exists|i: int|
            0 <= i < s.len() && #[trigger] s[i].replica_id == r && s[i].idx as int == dep_at(s, r),
{
    let i = choose|i: int| 0 <= i < s.len() && #[trigger] s[i].replica_id == r;
    lemma_wf_unique(s, i);
}

/// Taking one more element of a well-formed vector extends its map at the
/// replica id of that element.
proof fn lemma_take_extend(s: Seq<InstanceId>, k: int)
    requires
        iids_wf(s),
        0 <= k < s.len(),
    ensures
        iids_wf(s.take(k)),
        iids_wf(s.take(k + 1)),
        dep_map(s.take(k + 1)) =~= dep_map(s.take(k)).insert(
            s[k].replica_id as int,
            s[k].idx as int,
        ),
{
    assert(s.take(k + 1) =~= s.take(k).push(s[k]));
    assert forall|j: int| 0 <= j < s.take(k).len() implies #[trigger] s.take(k)[j].replica_id
        != s[k].replica_id by {
        assert(s[j].replica_id != s[k].replica_id);
    }
    lemma_set_push_map(s.take(k), s[k]);
}

} // verus!
