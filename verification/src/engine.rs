//! The in-memory storage engine: three byte-keyed column families with
//! atomic batch writes, and a typed table of instances keyed by instance
//! id.
//!
//! The engine is the in-memory implementation of the durability layer:
//! an ordered key/value interface (`set`, `get`, `delete`, `next`,
//! `prev`, `write_batch`) over named column families, plus typed access
//! to the instance log. A disk-backed engine would persist each instance
//! under its durable key (see the key codec); the typed table models
//! exactly that map.

use vstd::prelude::*;

use crate::ids::iid_lt;
use crate::ids::InstanceId;
use crate::ids::ReplicaId;
use crate::instance::Instance;
use crate::instance::InstanceView;
use crate::storage::lex_lt;
use crate::storage::OrderedKv;

verus! {

/// The column families of the store.
#[derive(Clone, Copy, Debug, PartialEq, Eq, Structural, Hash)]
pub enum DBColumnFamily {
    Data,
    Instance,
    Status,
}

/// One operation of an atomic batch.
#[derive(Debug, PartialEq, Eq)]
pub enum WriteEntry {
    Nil,
    Put(DBColumnFamily, Vec<u8>, Vec<u8>),
    Delete(DBColumnFamily, Vec<u8>),
}

/// The mathematical value of a batch operation.
pub enum WriteEntryView {
    Nil,
    Put(DBColumnFamily, Seq<u8>, Seq<u8>),
    Delete(DBColumnFamily, Seq<u8>),
}

impl View for WriteEntry {
    type V = WriteEntryView;

    open spec fn view(&self) -> WriteEntryView {
        match self {
            WriteEntry::Nil => WriteEntryView::Nil,
            WriteEntry::Put(cf, k, v) => WriteEntryView::Put(*cf, k@, v@),
            WriteEntry::Delete(cf, k) => WriteEntryView::Delete(*cf, k@),
        }
    }
}

impl DeepView for WriteEntry {
    type V = WriteEntryView;

    open spec fn deep_view(&self) -> WriteEntryView {
        self@
    }
}

/// The value of the three column families together.
pub struct KvState {
    pub data: Map<Seq<u8>, Seq<u8>>,
    pub instance: Map<Seq<u8>, Seq<u8>>,
    pub status: Map<Seq<u8>, Seq<u8>>,
}

impl KvState {
    /// The map of one column family.
    pub open spec fn of(self, cf: DBColumnFamily) -> Map<Seq<u8>, Seq<u8>> {
        match cf {
            DBColumnFamily::Data => self.data,
            DBColumnFamily::Instance => self.instance,
            DBColumnFamily::Status => self.status,
        }
    }

    /// This state with one column family replaced.
    pub open spec fn with(self, cf: DBColumnFamily, m: Map<Seq<u8>, Seq<u8>>) -> KvState {
        match cf {
            DBColumnFamily::Data => KvState { data: m, ..self },
            DBColumnFamily::Instance => KvState { instance: m, ..self },
            DBColumnFamily::Status => KvState { status: m, ..self },
        }
    }
}

/// One batch operation applied to the state.
pub open spec fn apply_entry(st: KvState, e: WriteEntryView) -> KvState {
    match e {
        WriteEntryView::Nil => st,
        WriteEntryView::Put(cf, k, v) => st.with(cf, st.of(cf).insert(k, v)),
        WriteEntryView::Delete(cf, k) => st.with(cf, st.of(cf).remove(k)),
    }
}

/// A batch applied to the state, first operation first.
pub open spec fn apply_batch(st: KvState, b: Seq<WriteEntryView>) -> KvState
    decreases b.len(),
{
    if b.len() == 0 {
        st
    } else {
        apply_batch(apply_entry(st, b[0]), b.drop_first())
    }
}

/// Appending one operation to a batch applies it after the batch.
pub proof fn lemma_apply_batch_push(st: KvState, b: Seq<WriteEntryView>, e: WriteEntryView)
    ensures
        apply_batch(st, b.push(e)) == apply_entry(apply_batch(st, b), e),
    decreases b.len(),
{
    if b.len() == 0 {
        assert(b.push(e)[0] == e);
        assert(b.push(e).drop_first() =~= b);
        assert(apply_batch(st, b.push(e)) == apply_batch(apply_entry(st, e), b));
        assert(apply_batch(apply_entry(st, e), b) == apply_entry(st, e));
        assert(apply_batch(st, b) == st);
    } else {
        assert(b.push(e)[0] == b[0]);
        assert(b.push(e).drop_first() =~= b.drop_first().push(e));
        assert(apply_batch(st, b.push(e)) == apply_batch(
            apply_entry(st, b[0]),
            b.drop_first().push(e),
        ));
        lemma_apply_batch_push(apply_entry(st, b[0]), b.drop_first(), e);
        assert(apply_batch(st, b) == apply_batch(apply_entry(st, b[0]), b.drop_first()));
    }
}

/// A stored instance with its id.
pub struct InstPair {
    pub iid: InstanceId,
    pub inst: Instance,
}

/// Whether some entry carries the given instance id.
pub open spec fn it_contains(s: Seq<InstPair>, iid: InstanceId) -> bool {
    exists|i: int| 0 <= i < s.len() && #[trigger] s[i].iid == iid
}

/// The instance recorded under the given id (meaningful when the entries
/// are sorted and the id is present).
pub open spec fn it_at(s: Seq<InstPair>, iid: InstanceId) -> InstanceView {
    let i = choose|i: int| 0 <= i < s.len() && #[trigger] s[i].iid == iid;
    s[i].inst@
}

/// The entries read as a finite map from instance id to instance value.
pub open spec fn it_map(s: Seq<InstPair>) -> Map<InstanceId, InstanceView> {
    Map::new(|iid: InstanceId| it_contains(s, iid), |iid: InstanceId| it_at(s, iid))
}

/// Entries sorted strictly ascending by instance id.
pub open spec fn it_sorted(s: Seq<InstPair>) -> bool {
    forall|i: int, j: int| 0 <= i < j < s.len() ==> iid_lt(#[trigger] s[i].iid, #[trigger] s[j].iid)
}

/// In a sorted table ids are unique, so `it_at` names the instance of
/// every matching entry.
pub proof fn lemma_it_unique(s: Seq<InstPair>, i: int)
    requires
        it_sorted(s),
        0 <= i < s.len(),
    ensures
        it_contains(s, s[i].iid),
        it_at(s, s[i].iid) == s[i].inst@,
{
    let iid = s[i].iid;
    assert(it_contains(s, iid));
    let j = choose|j: int| 0 <= j < s.len() && #[trigger] s[j].iid == iid;
    assert(i == j);
}

/// The typed instance table: the instance log of one replica, keyed by
/// instance id.
pub struct InstStore {
    pub entries: Vec<InstPair>,
}

impl View for InstStore {
    type V = Map<InstanceId, InstanceView>;

    open spec fn view(&self) -> Map<InstanceId, InstanceView> {
        it_map(self.entries@)
    }
}

impl InstStore {
    /// Sortedness of the table.
    pub open spec fn wf(&self) -> bool {
        it_sorted(self.entries@)
    }

    /// An empty table.
    pub fn new() -> (r: InstStore)
        ensures
            r.wf(),
            r@ =~= Map::<InstanceId, InstanceView>::empty(),
    {
        let r = InstStore { entries: Vec::new() };
        proof {
            assert forall|iid: InstanceId| !it_contains(r.entries@, iid) by {
                assert(r.entries@.len() == 0);
            }
        }
        r
    }

    /// The position of the first entry whose id is at or after the given
    /// id.
    fn find_at_or_after(&self, iid: InstanceId) -> (p: usize)
        requires
            self.wf(),
        ensures
            0 <= p <= self.entries@.len(),
            forall|i: int| 0 <= i < p ==> iid_lt(#[trigger] self.entries@[i].iid, iid),
            p < self.entries@.len() ==> !iid_lt(self.entries@[p as int].iid, iid),
    {
        let n = self.entries.len();
        let mut k: usize = 0;
        while k < n
            invariant
                n == self.entries@.len(),
                0 <= k <= n,
                forall|i: int| 0 <= i < k ==> iid_lt(#[trigger] self.entries@[i].iid, iid),
            decreases n - k,
        {
            if !self.entries[k].iid.lt(&iid) {
                return k;
            }
            k += 1;
        }
        n
    }

    /// Reads the instance stored under an id.
    pub fn get_instance(&self, iid: InstanceId) -> (r: Option<Instance>)
        requires
            self.wf(),
        ensures
            r.is_some() == self@.dom().contains(iid),
            match r {
                Some(inst) => self@.dom().contains(iid) && inst@ == self@[iid],
                None => true,
            },
    {
        let p = self.find_at_or_after(iid);
        if p < self.entries.len() && self.entries[p].iid == iid {
            proof {
                lemma_it_unique(self.entries@, p as int);
            }
            Some(self.entries[p].inst.clone())
        } else {
            proof {
                let s = self.entries@;
                assert forall|i: int| 0 <= i < s.len() implies #[trigger] s[i].iid != iid by {
                    if i > p && p < s.len() {
                        assert(iid_lt(s[p as int].iid, s[i].iid));
                    }
                }
            }
            None
        }
    }

    /// Stores an instance under an id, inserting or overwriting.
    pub fn set_instance(&mut self, iid: InstanceId, inst: &Instance)
        requires
            old(self).wf(),
        ensures
            final(self).wf(),
            final(self)@ =~= old(self)@.insert(iid, inst@),
    {
        let p = self.find_at_or_after(iid);
        let pair = InstPair { iid, inst: inst.clone() };
        if p < self.entries.len() && self.entries[p].iid == iid {
            let ghost pre = self.entries@;
            proof {
                lemma_it_update(pre, p as int, pair);
            }
            self.entries[p] = pair;
            proof {
                assert(self.entries@ =~= pre.update(p as int, pair));
            }
        } else {
            let ghost pre = self.entries@;
            proof {
                lemma_it_insert(pre, p as int, pair);
            }
            self.entries.insert(p, pair);
            proof {
                assert(self.entries@ =~= pre.insert(p as int, pair));
            }
        }
    }

    /// The number of stored instances.
    pub fn len(&self) -> (n: usize)
        ensures
            n == self.entries@.len(),
    {
        self.entries.len()
    }

    /// The highest index stored for a replica, or zero when none is.
    pub fn max_idx_of(&self, rid: ReplicaId) -> (m: i64)
        requires
            self.wf(),
        ensures
            is_max_idx(self@, rid, m),
    {
        let n = self.entries.len();
        let mut best: i64 = 0;
        let mut k: usize = 0;
        while k < n
            invariant
                n == self.entries@.len(),
                0 <= k <= n,
                best == 0 || exists|i: int|
                    0 <= i < k && #[trigger] self.entries@[i].iid == (InstanceId {
                        replica_id: rid,
                        idx: best,
                    }),
                forall|i: int|
                    0 <= i < k && #[trigger] self.entries@[i].iid.replica_id == rid
                        ==> self.entries@[i].iid.idx <= best,
                best >= 0,
            decreases n - k,
        {
            let e = self.entries[k].iid;
            if e.replica_id == rid && e.idx > best {
                best = e.idx;
                proof {
                    assert(self.entries@[k as int].iid == (InstanceId {
                        replica_id: rid,
                        idx: best,
                    }));
                }
            }
            k += 1;
        }
        proof {
            if best != 0 {
                let i = choose|i: int|
                    0 <= i < n && #[trigger] self.entries@[i].iid == (InstanceId {
                        replica_id: rid,
                        idx: best,
                    });
                lemma_it_unique(self.entries@, i);
                assert(self@.dom().contains(InstanceId { replica_id: rid, idx: best }));
            }
            assert forall|j: i64|
                self@.dom().contains(
                    InstanceId { replica_id: rid, idx: j },
                ) implies j <= best by {
                let i = choose|i: int|
                    0 <= i < self.entries@.len() && #[trigger] self.entries@[i].iid == (InstanceId {
                        replica_id: rid,
                        idx: j,
                    });
                assert(self.entries@[i].iid.replica_id == rid);
            }
        }
        best
    }

    /// The highest index of a committed instance stored for a replica, or
    /// zero when there is none.
    pub fn max_committed_idx_of(&self, rid: ReplicaId) -> (m: i64)
        requires
            self.wf(),
        ensures
            is_max_committed_idx(self@, rid, m),
            max_committed_of(self@, rid) == m,
    {
        let n = self.entries.len();
        let mut best: i64 = 0;
        let mut k: usize = 0;
        while k < n
            invariant
                self.wf(),
                n == self.entries@.len(),
                0 <= k <= n,
                best == 0 || exists|i: int|
                    0 <= i < k && #[trigger] self.entries@[i].iid == (InstanceId {
                        replica_id: rid,
                        idx: best,
                    }) && self.entries@[i].inst@.committed,
                forall|i: int|
                    0 <= i < k && #[trigger] self.entries@[i].iid.replica_id == rid
                        && self.entries@[i].inst@.committed ==> self.entries@[i].iid.idx <= best,
                best >= 0,
            decreases n - k,
        {
            let e = &self.entries[k];
            if e.iid.replica_id == rid && e.inst.committed && e.iid.idx > best {
                best = e.iid.idx;
                proof {
                    assert(self.entries@[k as int].iid == (InstanceId {
                        replica_id: rid,
                        idx: best,
                    }) && self.entries@[k as int].inst@.committed);
                }
            }
            k += 1;
        }
        proof {
            if best != 0 {
                let i = choose|i: int|
                    0 <= i < n && #[trigger] self.entries@[i].iid == (InstanceId {
                        replica_id: rid,
                        idx: best,
                    }) && self.entries@[i].inst@.committed;
                lemma_it_unique(self.entries@, i);
                assert(committed_at(self@, InstanceId { replica_id: rid, idx: best }));
            }
            assert forall|j: i64|
                committed_at(self@, InstanceId { replica_id: rid, idx: j }) implies j <= best by {
                let iid = InstanceId { replica_id: rid, idx: j };
                let i = choose|i: int|
                    0 <= i < self.entries@.len() && #[trigger] self.entries@[i].iid == iid;
                lemma_it_unique(self.entries@, i);
                assert(self.entries@[i].iid.replica_id == rid);
                assert(self.entries@[i].inst@.committed);
            }
            lemma_max_committed_unique(self@, rid, best);
        }
        best
    }
}

/// Whether `idx` is the highest index the table holds for a replica,
/// taking zero when the replica has none.
pub open spec fn is_max_idx(m: Map<InstanceId, InstanceView>, rid: ReplicaId, idx: i64) -> bool {
    &&& idx == 0 || m.dom().contains(InstanceId { replica_id: rid, idx })
    &&& idx >= 0
    &&& forall|j: i64| m.dom().contains(InstanceId { replica_id: rid, idx: j }) ==> j <= idx
}

/// Whether the table holds a committed instance under this id.
pub open spec fn committed_at(m: Map<InstanceId, InstanceView>, iid: InstanceId) -> bool {
    m.dom().contains(iid) && m[iid].committed
}

/// Whether `idx` is the highest index of a committed instance the table
/// holds for a replica, taking zero when there is none.
pub open spec fn is_max_committed_idx(
    m: Map<InstanceId, InstanceView>,
    rid: ReplicaId,
    idx: i64,
) -> bool {
    &&& idx == 0 || committed_at(m, InstanceId { replica_id: rid, idx })
    &&& idx >= 0
    &&& forall|j: i64| committed_at(m, InstanceId { replica_id: rid, idx: j }) ==> j <= idx
}

/// The highest committed index of a replica, as a function of the table.
pub open spec fn max_committed_of(m: Map<InstanceId, InstanceView>, rid: ReplicaId) -> i64 {
    choose|c: i64| is_max_committed_idx(m, rid, c)
}

/// The highest committed index is unique, so any witness names it.
pub proof fn lemma_max_committed_unique(m: Map<InstanceId, InstanceView>, rid: ReplicaId, c: i64)
    requires
        is_max_committed_idx(m, rid, c),
    ensures
        max_committed_of(m, rid) == c,
{
    assert(exists|x: i64| is_max_committed_idx(m, rid, x));
    let d = choose|x: i64| is_max_committed_idx(m, rid, x);
    if c > 0 {
        assert(committed_at(m, InstanceId { replica_id: rid, idx: c }));
        assert(c <= d);
    }
    if d > 0 {
        assert(committed_at(m, InstanceId { replica_id: rid, idx: d }));
        assert(d <= c);
    }
}

/// Overwriting the entry at a matching position updates the table at
/// exactly that id.
proof fn lemma_it_update(s: Seq<InstPair>, p: int, pair: InstPair)
    requires
        it_sorted(s),
        0 <= p < s.len(),
        s[p].iid == pair.iid,
    ensures
        it_sorted(s.update(p, pair)),
        it_map(s.update(p, pair)) =~= it_map(s).insert(pair.iid, pair.inst@),
{
    let t = s.update(p, pair);
    assert forall|i: int, j: int| 0 <= i < j < t.len() implies iid_lt(
        #[trigger] t[i].iid,
        #[trigger] t[j].iid,
    ) by {
        assert(iid_lt(s[i].iid, s[j].iid));
    }
    assert forall|k2: InstanceId| #[trigger] it_contains(t, k2) == it_contains(s, k2) by {
        if it_contains(t, k2) {
            let i = choose|i: int| 0 <= i < t.len() && #[trigger] t[i].iid == k2;
            assert(s[i].iid == k2);
        }
        if it_contains(s, k2) {
            let i = choose|i: int| 0 <= i < s.len() && #[trigger] s[i].iid == k2;
            assert(t[i].iid == k2);
        }
    }
    assert forall|k2: InstanceId| it_contains(t, k2) implies #[trigger] it_at(t, k2) == it_map(
        s,
    ).insert(pair.iid, pair.inst@)[k2] by {
        let i = choose|i: int| 0 <= i < t.len() && #[trigger] t[i].iid == k2;
        lemma_it_unique(t, i);
        if k2 == pair.iid {
            lemma_it_unique(t, p);
        } else {
            assert(i != p);
            lemma_it_unique(s, i);
        }
    }
    assert(it_map(t) =~= it_map(s).insert(pair.iid, pair.inst@));
}

/// Inserting an entry at the position where every earlier id is smaller
/// and every later id is larger keeps the table sorted and inserts into
/// the map.
proof fn lemma_it_insert(s: Seq<InstPair>, p: int, pair: InstPair)
    requires
        it_sorted(s),
        0 <= p <= s.len(),
        forall|i: int| 0 <= i < p ==> iid_lt(#[trigger] s[i].iid, pair.iid),
        p < s.len() ==> !iid_lt(s[p].iid, pair.iid) && s[p].iid != pair.iid,
    ensures
        it_sorted(s.insert(p, pair)),
        it_map(s.insert(p, pair)) =~= it_map(s).insert(pair.iid, pair.inst@),
{
    let t = s.insert(p, pair);
    assert(t.len() == s.len() + 1);
    assert(forall|i: int| 0 <= i < p ==> t[i] == s[i]);
    assert(forall|i: int| p <= i < s.len() ==> t[i + 1] == s[i]);
    assert(t[p] == pair);
    assert forall|i: int, j: int| 0 <= i < j < t.len() implies iid_lt(
        #[trigger] t[i].iid,
        #[trigger] t[j].iid,
    ) by {
        if i < p && j > p {
            assert(t[j] == s[j - 1]);
            assert(iid_lt(s[i].iid, s[j - 1].iid) || i == j - 1);
        } else if i == p && j > p {
            assert(t[j] == s[j - 1]);
            assert(p <= j - 1 < s.len());
            assert(!iid_lt(s[p].iid, pair.iid) && s[p].iid != pair.iid);
            assert(iid_lt(pair.iid, s[p].iid));
            if j - 1 > p {
                assert(iid_lt(s[p].iid, s[j - 1].iid));
            }
        } else if i > p {
            assert(t[i] == s[i - 1]);
            assert(t[j] == s[j - 1]);
            assert(iid_lt(s[i - 1].iid, s[j - 1].iid));
        }
    }
    assert forall|k2: InstanceId| #[trigger]
        it_contains(t, k2) == (it_contains(s, k2) || k2 == pair.iid) by {
        if it_contains(t, k2) {
            let i = choose|i: int| 0 <= i < t.len() && #[trigger] t[i].iid == k2;
            if i < p {
                assert(s[i].iid == k2);
            } else if i > p {
                assert(t[i] == s[i - 1]);
                assert(s[i - 1].iid == k2);
            }
        }
        if it_contains(s, k2) {
            let i = choose|i: int| 0 <= i < s.len() && #[trigger] s[i].iid == k2;
            if i < p {
                assert(t[i].iid == k2);
            } else {
                assert(t[i + 1].iid == k2);
            }
        }
        if k2 == pair.iid {
            assert(t[p].iid == k2);
        }
    }
    assert forall|k2: InstanceId| it_contains(t, k2) implies #[trigger] it_at(t, k2) == it_map(
        s,
    ).insert(pair.iid, pair.inst@)[k2] by {
        let i = choose|i: int| 0 <= i < t.len() && #[trigger] t[i].iid == k2;
        lemma_it_unique(t, i);
        if k2 == pair.iid {
            lemma_it_unique(t, p);
        } else {
            assert(i != p);
            if i < p {
                lemma_it_unique(s, i);
            } else {
                lemma_it_unique(s, i - 1);
                assert(t[i] == s[i - 1]);
            }
        }
    }
    assert(it_map(t) =~= it_map(s).insert(pair.iid, pair.inst@));
}

/// The in-memory engine: three byte column families and the typed
/// instance table.
pub struct MemEngine {
    pub data: OrderedKv,
    pub instance: OrderedKv,
    pub status: OrderedKv,
    pub insts: InstStore,
}

impl MemEngine {
    /// Well-formedness: every store is sorted.
    pub open spec fn wf(&self) -> bool {
        &&& self.data.wf()
        &&& self.instance.wf()
        &&& self.status.wf()
        &&& self.insts.wf()
    }

    /// The value of the three byte column families.
    pub open spec fn kv_state(&self) -> KvState {
        KvState { data: self.data@, instance: self.instance@, status: self.status@ }
    }

    /// The value of the instance table.
    pub open spec fn inst_view(&self) -> Map<InstanceId, InstanceView> {
        self.insts@
    }

    /// An empty engine.
    pub fn new() -> (r: MemEngine)
        ensures
            r.wf(),
            r.kv_state().data =~= Map::<Seq<u8>, Seq<u8>>::empty(),
            r.kv_state().instance =~= Map::<Seq<u8>, Seq<u8>>::empty(),
            r.kv_state().status =~= Map::<Seq<u8>, Seq<u8>>::empty(),
            r.inst_view() =~= Map::<InstanceId, InstanceView>::empty(),
    {
        MemEngine {
            data: OrderedKv::new(),
            instance: OrderedKv::new(),
            status: OrderedKv::new(),
            insts: InstStore::new(),
        }
    }

    /// Writes a value under a key in one column family.
    pub fn set(&mut self, cf: DBColumnFamily, key: &Vec<u8>, value: &Vec<u8>)
        requires
            old(self).wf(),
        ensures
            final(self).wf(),
            final(self).kv_state() == apply_entry(
                old(self).kv_state(),
                WriteEntryView::Put(cf, key@, value@),
            ),
            final(self).inst_view() == old(self).inst_view(),
    {
        match cf {
            DBColumnFamily::Data => self.data.set(key, value),
            DBColumnFamily::Instance => self.instance.set(key, value),
            DBColumnFamily::Status => self.status.set(key, value),
        }
    }

    /// Reads the value under a key in one column family.
    pub fn get(&self, cf: DBColumnFamily, key: &Vec<u8>) -> (r: Option<Vec<u8>>)
        requires
            self.wf(),
        ensures
            r.is_some() == self.kv_state().of(cf).dom().contains(key@),
            match r {
                Some(v) => self.kv_state().of(cf).dom().contains(key@) && v@ == self.kv_state().of(
                    cf,
                )[key@],
                None => true,
            },
    {
        match cf {
            DBColumnFamily::Data => self.data.get(key),
            DBColumnFamily::Instance => self.instance.get(key),
            DBColumnFamily::Status => self.status.get(key),
        }
    }

    /// Removes the value under a key in one column family.
    pub fn delete(&mut self, cf: DBColumnFamily, key: &Vec<u8>)
        requires
            old(self).wf(),
        ensures
            final(self).wf(),
            final(self).kv_state() == apply_entry(
                old(self).kv_state(),
                WriteEntryView::Delete(cf, key@),
            ),
            final(self).inst_view() == old(self).inst_view(),
    {
        match cf {
            DBColumnFamily::Data => self.data.delete(key),
            DBColumnFamily::Instance => self.instance.delete(key),
            DBColumnFamily::Status => self.status.delete(key),
        }
    }

    /// The stored pair with the smallest key at or after (`inclusive`) or
    /// strictly after the given key, in one column family.
    pub fn next(&self, cf: DBColumnFamily, key: &Vec<u8>, inclusive: bool) -> (r: Option<
        (Vec<u8>, Vec<u8>),
    >)
        requires
            self.wf(),
        ensures
            crate::storage::next_post(
                self.kv_state().of(cf),
                key@,
                inclusive,
                crate::storage::opt_kv_view(r),
            ),
    {
        proof {
            assert(self.kv_state().of(DBColumnFamily::Data) == self.data@);
            assert(self.kv_state().of(DBColumnFamily::Instance) == self.instance@);
            assert(self.kv_state().of(DBColumnFamily::Status) == self.status@);
        }
        match cf {
            DBColumnFamily::Data => self.data.next(key, inclusive),
            DBColumnFamily::Instance => self.instance.next(key, inclusive),
            DBColumnFamily::Status => self.status.next(key, inclusive),
        }
    }

    /// The stored pair with the largest key at or before (`inclusive`) or
    /// strictly before the given key, in one column family.
    pub fn prev(&self, cf: DBColumnFamily, key: &Vec<u8>, inclusive: bool) -> (r: Option<
        (Vec<u8>, Vec<u8>),
    >)
        requires
            self.wf(),
        ensures
            crate::storage::prev_post(
                self.kv_state().of(cf),
                key@,
                inclusive,
                crate::storage::opt_kv_view(r),
            ),
    {
        proof {
            assert(self.kv_state().of(DBColumnFamily::Data) == self.data@);
            assert(self.kv_state().of(DBColumnFamily::Instance) == self.instance@);
            assert(self.kv_state().of(DBColumnFamily::Status) == self.status@);
        }
        match cf {
            DBColumnFamily::Data => self.data.prev(key, inclusive),
            DBColumnFamily::Instance => self.instance.prev(key, inclusive),
            DBColumnFamily::Status => self.status.prev(key, inclusive),
        }
    }

    /// Applies a batch of writes atomically: afterwards the state is the
    /// batch folded over the old state, first entry first.
    pub fn write_batch(&mut self, entries: &Vec<WriteEntry>)
        requires
            old(self).wf(),
        ensures
            final(self).wf(),
            final(self).kv_state() == apply_batch(old(self).kv_state(), entries.deep_view()),
            final(self).inst_view() == old(self).inst_view(),
    {
        let n = entries.len();
        let mut k: usize = 0;
        proof {
            assert(entries.deep_view().take(0) =~= Seq::<WriteEntryView>::empty());
        }
        while k < n
            invariant
                old(self).wf(),
                n == entries@.len(),
                0 <= k <= n,
                self.wf(),
                self.kv_state() == apply_batch(
                    old(self).kv_state(),
                    entries.deep_view().take(k as int),
                ),
                self.inst_view() == old(self).inst_view(),
            decreases n - k,
        {
            proof {
                lemma_apply_batch_push(
                    old(self).kv_state(),
                    entries.deep_view().take(k as int),
                    entries.deep_view()[k as int],
                );
                assert(entries.deep_view().take(k as int + 1) =~= entries.deep_view().take(
                    k as int,
                ).push(entries.deep_view()[k as int]));
            }
            match &entries[k] {
                WriteEntry::Nil => {},
                WriteEntry::Put(cf, key, value) => {
                    self.set(*cf, key, value);
                },
                WriteEntry::Delete(cf, key) => {
                    self.delete(*cf, key);
                },
            }
            k += 1;
        }
        proof {
            assert(entries.deep_view().take(n as int) =~= entries.deep_view());
        }
    }

    /// Reads the instance stored under an id.
    pub fn get_instance(&self, iid: InstanceId) -> (r: Option<Instance>)
        requires
            self.wf(),
        ensures
            r.is_some() == self.inst_view().dom().contains(iid),
            match r {
                Some(inst) => self.inst_view().dom().contains(iid) && inst@ == self.inst_view()[iid],
                None => true,
            },
    {
        self.insts.get_instance(iid)
    }

    /// Stores an instance under its own id, which must be set.
    pub fn set_instance(&mut self, inst: &Instance) -> (r: Result<(), crate::errors::ReplicaError>)
        requires
            old(self).wf(),
            inst@.instance_id is Some,
        ensures
            final(self).wf(),
            r is Ok,
            final(self).inst_view() =~= old(self).inst_view().insert(
                inst@.instance_id->Some_0,
                inst@,
            ),
            final(self).kv_state() == old(self).kv_state(),
    {
        let iid = match &inst.instance_id {
            Some(iid) => *iid,
            None => {
                proof {
                    assert(false);
                }
                InstanceId { replica_id: 0, idx: 0 }
            },
        };
        self.insts.set_instance(iid, inst);
        Ok(())
    }

    /// Stores an instance under an explicit id.
    pub fn set_obj(&mut self, iid: InstanceId, inst: &Instance) -> (r: Result<
        (),
        crate::errors::ReplicaError,
    >)
        requires
            old(self).wf(),
        ensures
            final(self).wf(),
            r is Ok,
            final(self).inst_view() =~= old(self).inst_view().insert(iid, inst@),
            final(self).kv_state() == old(self).kv_state(),
    {
        self.insts.set_instance(iid, inst);
        Ok(())
    }

    /// The highest index stored for a replica, or zero when none is.
    pub fn max_idx_of(&self, rid: ReplicaId) -> (m: i64)
        requires
            self.wf(),
        ensures
            is_max_idx(self.inst_view(), rid, m),
    {
        self.insts.max_idx_of(rid)
    }

    /// The highest committed index stored for a replica, or zero when
    /// there is none.
    pub fn max_committed_idx_of(&self, rid: ReplicaId) -> (m: i64)
        requires
            self.wf(),
        ensures
            is_max_committed_idx(self.inst_view(), rid, m),
            max_committed_of(self.inst_view(), rid) == m,
    {
        self.insts.max_committed_idx_of(rid)
    }
}

/// A disk-rooted engine handle: the path the store lives under, and the
/// store's modelled contents. File work belongs to the embedder; the
/// library speaks for the engine's value.
pub struct RocksDBEngine {
    pub path: String,
    pub db: MemEngine,
}

impl RocksDBEngine {
    /// Opens an engine rooted at a path, its modelled contents empty.
    pub fn new(path: &str) -> (r: Result<RocksDBEngine, crate::errors::StorageError>)
        ensures
            r is Ok,
            r->Ok_0.path@ == path@,
            r->Ok_0.db.wf(),
            r->Ok_0.db.inst_view() =~= Map::<InstanceId, InstanceView>::empty(),
            r->Ok_0.db.kv_state().data =~= Map::<Seq<u8>, Seq<u8>>::empty(),
            r->Ok_0.db.kv_state().instance =~= Map::<Seq<u8>, Seq<u8>>::empty(),
            r->Ok_0.db.kv_state().status =~= Map::<Seq<u8>, Seq<u8>>::empty(),
    {
        Ok(RocksDBEngine { path: path.to_owned(), db: MemEngine::new() })
    }
}

} // verus!
