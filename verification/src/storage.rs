//! An ordered key/value store over byte-string keys.
//!
//! Keys are ordered lexicographically. Beside point reads and writes the
//! store answers adjacency queries: the nearest stored key at or after
//! (`next`) or at or before (`prev`) a given key. The store is the
//! in-memory implementation of the durability layer's interface; its
//! value is the finite map from key bytes to value bytes.

use vstd::prelude::*;

use crate::command::bytes_eq;
use crate::command::slice_to_vec;

verus! {

/// Strict lexicographic order on byte strings.
pub open spec fn lex_lt(a: Seq<u8>, b: Seq<u8>) -> bool
    decreases a.len(),
{
    if b.len() == 0 {
        false
    } else if a.len() == 0 {
        true
    } else if a[0] < b[0] {
        true
    } else if a[0] > b[0] {
        false
    } else {
        lex_lt(a.drop_first(), b.drop_first())
    }
}

/// Of two byte strings, exactly one of `a < b`, `a == b`, `b < a` holds.
pub proof fn lemma_lex_trichotomy(a: Seq<u8>, b: Seq<u8>)
    ensures
        lex_lt(a, b) || lex_lt(b, a) || a == b,
        lex_lt(a, b) ==> !lex_lt(b, a) && a != b,
        lex_lt(b, a) ==> !lex_lt(a, b) && a != b,
    decreases a.len(),
{
    if a.len() == 0 && b.len() == 0 {
        assert(a =~= b);
    } else if a.len() != 0 && b.len() != 0 {
        if a[0] == b[0] {
            lemma_lex_trichotomy(a.drop_first(), b.drop_first());
            if a.drop_first() == b.drop_first() {
                assert(a =~= b) by {
                    assert forall|i: int| 0 <= i < a.len() implies a[i] == b[i] by {
                        if i > 0 {
                            assert(a.drop_first()[i - 1] == b.drop_first()[i - 1]);
                        }
                    }
                }
            }
            if a == b {
                assert(a.drop_first() =~= b.drop_first());
            }
        } else {
            if a == b {
                assert(a[0] == b[0]);
            }
        }
    }
}

/// No byte string is below itself.
pub proof fn lemma_lex_irreflexive(a: Seq<u8>)
    ensures
        !lex_lt(a, a),
    decreases a.len(),
{
    if a.len() > 0 {
        lemma_lex_irreflexive(a.drop_first());
    }
}

/// The lexicographic order is transitive.
pub proof fn lemma_lex_trans(a: Seq<u8>, b: Seq<u8>, c: Seq<u8>)
    requires
        lex_lt(a, b),
        lex_lt(b, c),
    ensures
        lex_lt(a, c),
    decreases a.len(),
{
    if a.len() == 0 {
        assert(b.len() != 0);
        assert(c.len() != 0);
    } else {
        assert(b.len() != 0);
        assert(c.len() != 0);
        if a[0] == b[0] && b[0] == c[0] {
            lemma_lex_trans(a.drop_first(), b.drop_first(), c.drop_first());
        }
    }
}

/// A stored pair: key bytes and value bytes.
pub struct KvPair {
    pub key: Vec<u8>,
    pub value: Vec<u8>,
}

/// Whether some entry carries the given key.
pub open spec fn kv_contains(s: Seq<KvPair>, k: Seq<u8>) -> bool {
    exists|i: int| 0 <= i < s.len() && #[trigger] s[i].key@ == k
}

/// The value recorded under the given key (meaningful when the entries
/// are sorted and the key is present).
pub open spec fn kv_at(s: Seq<KvPair>, k: Seq<u8>) -> Seq<u8> {
    let i = choose|i: int| 0 <= i < s.len() && #[trigger] s[i].key@ == k;
    s[i].value@
}

/// The entries read as a finite map from key bytes to value bytes.
pub open spec fn kv_map(s: Seq<KvPair>) -> Map<Seq<u8>, Seq<u8>> {
    Map::new(|k: Seq<u8>| kv_contains(s, k), |k: Seq<u8>| kv_at(s, k))
}

/// Entries sorted strictly ascending by key.
pub open spec fn kv_sorted(s: Seq<KvPair>) -> bool {
    forall|i: int, j: int| 0 <= i < j < s.len() ==> lex_lt(#[trigger] s[i].key@, #[trigger] s[j].key@)
}

/// In a sorted entry sequence keys are unique, so `kv_at` names the value
/// of every matching entry.
pub proof fn lemma_kv_unique(s: Seq<KvPair>, i: int)
    requires
        kv_sorted(s),
        0 <= i < s.len(),
    ensures
        kv_contains(s, s[i].key@),
        kv_at(s, s[i].key@) == s[i].value@,
{
    let k = s[i].key@;
    assert(kv_contains(s, k));
    lemma_lex_irreflexive(k);
    let j = choose|j: int| 0 <= j < s.len() && #[trigger] s[j].key@ == k;
    if i < j {
        lemma_lex_trichotomy(s[i].key@, s[j].key@);
    } else if j < i {
        lemma_lex_trichotomy(s[j].key@, s[i].key@);
    }
    assert(i == j);
}

/// The value of an optional returned pair.
pub open spec fn opt_kv_view(r: Option<(Vec<u8>, Vec<u8>)>) -> Option<(Seq<u8>, Seq<u8>)> {
    match r {
        Some(kv) => Some((kv.0@, kv.1@)),
        None => None,
    }
}

/// What a forward adjacency query answers over a map: the returned pair
/// is stored, satisfies the bound, and no stored key satisfying the
/// bound is smaller; `None` exactly when no stored key satisfies it.
pub open spec fn next_post(
    m: Map<Seq<u8>, Seq<u8>>,
    key: Seq<u8>,
    inclusive: bool,
    r: Option<(Seq<u8>, Seq<u8>)>,
) -> bool {
    match r {
        Some(kv) => {
            &&& m.dom().contains(kv.0)
            &&& kv.1 == m[kv.0]
            &&& if inclusive {
                !lex_lt(kv.0, key)
            } else {
                lex_lt(key, kv.0)
            }
            &&& forall|k2: Seq<u8>|
                m.dom().contains(k2) && (if inclusive {
                    !lex_lt(k2, key)
                } else {
                    lex_lt(key, k2)
                }) ==> !lex_lt(k2, kv.0)
        },
        None => forall|k2: Seq<u8>|
            m.dom().contains(k2) ==> (if inclusive {
                lex_lt(k2, key)
            } else {
                !lex_lt(key, k2)
            }),
    }
}

/// What a backward adjacency query answers over a map: the returned pair
/// is stored, satisfies the bound, and no stored key satisfying the
/// bound is larger; `None` exactly when no stored key satisfies it.
pub open spec fn prev_post(
    m: Map<Seq<u8>, Seq<u8>>,
    key: Seq<u8>,
    inclusive: bool,
    r: Option<(Seq<u8>, Seq<u8>)>,
) -> bool {
    match r {
        Some(kv) => {
            &&& m.dom().contains(kv.0)
            &&& kv.1 == m[kv.0]
            &&& if inclusive {
                !lex_lt(key, kv.0)
            } else {
                lex_lt(kv.0, key)
            }
            &&& forall|k2: Seq<u8>|
                m.dom().contains(k2) && (if inclusive {
                    !lex_lt(key, k2)
                } else {
                    lex_lt(k2, key)
                }) ==> !lex_lt(kv.0, k2)
        },
        None => forall|k2: Seq<u8>|
            m.dom().contains(k2) ==> (if inclusive {
                lex_lt(key, k2)
            } else {
                !lex_lt(k2, key)
            }),
    }
}

/// An ordered key/value store: entries sorted strictly ascending by key.
pub struct OrderedKv {
    pub entries: Vec<KvPair>,
}

impl View for OrderedKv {
    type V = Map<Seq<u8>, Seq<u8>>;

    open spec fn view(&self) -> Map<Seq<u8>, Seq<u8>> {
        kv_map(self.entries@)
    }
}

/// Compares two byte strings in the lexicographic order: negative for
/// less, zero for equal, positive for greater.
pub fn byte_key_cmp(a: &Vec<u8>, b: &Vec<u8>) -> (r: i32)
    ensures
        r < 0 <==> lex_lt(a@, b@),
        r == 0 <==> a@ == b@,
        r > 0 <==> lex_lt(b@, a@),
{
    let an = a.len();
    let bn = b.len();
    let min = if an < bn {
        an
    } else {
        bn
    };
    let mut k: usize = 0;
    while k < min
        invariant
            an == a@.len(),
            bn == b@.len(),
            min == if an < bn {
                an as int
            } else {
                bn as int
            },
            0 <= k <= min,
            forall|j: int| 0 <= j < k ==> a@[j] == b@[j],
        decreases min - k,
    {
        if a[k] < b[k] {
            proof {
                lemma_lex_skip(a@, b@, k as int);
                lemma_lex_trichotomy(a@, b@);
            }
            return -1;
        }
        if a[k] > b[k] {
            proof {
                lemma_lex_skip(a@, b@, k as int);
                lemma_lex_trichotomy(a@, b@);
            }
            return 1;
        }
        k += 1;
    }
    proof {
        lemma_lex_skip(a@, b@, min as int);
    }
    if an == bn {
        proof {
            assert(a@ =~= b@);
            lemma_lex_trichotomy(a@, b@);
        }
        0
    } else if an < bn {
        proof {
            lemma_lex_trichotomy(a@, b@);
        }
        -1
    } else {
        proof {
            lemma_lex_trichotomy(a@, b@);
        }
        1
    }
}

/// Two byte strings that agree on a prefix compare as their remainders
/// do.
proof fn lemma_lex_skip(a: Seq<u8>, b: Seq<u8>, k: int)
    requires
        0 <= k <= a.len(),
        0 <= k <= b.len(),
        forall|j: int| 0 <= j < k ==> a[j] == b[j],
    ensures
        lex_lt(a, b) == lex_lt(a.skip(k), b.skip(k)),
    decreases k,
{
    if k == 0 {
        assert(a.skip(0) =~= a);
        assert(b.skip(0) =~= b);
    } else {
        assert(a.len() > 0 && b.len() > 0);
        assert(a[0] == b[0]);
        assert(lex_lt(a, b) == lex_lt(a.drop_first(), b.drop_first()));
        assert(a.drop_first().skip(k - 1) =~= a.skip(k));
        assert(b.drop_first().skip(k - 1) =~= b.skip(k));
        assert(forall|j: int| 0 <= j < k - 1 ==> a.drop_first()[j] == b.drop_first()[j]);
        lemma_lex_skip(a.drop_first(), b.drop_first(), k - 1);
    }
}

impl OrderedKv {
    /// Sortedness of the stored entries.
    pub open spec fn wf(&self) -> bool {
        kv_sorted(self.entries@)
    }

    /// An empty store.
    pub fn new() -> (r: OrderedKv)
        ensures
            r.wf(),
            r@ =~= Map::<Seq<u8>, Seq<u8>>::empty(),
    {
        let r = OrderedKv { entries: Vec::new() };
        proof {
            assert forall|k: Seq<u8>| !kv_contains(r.entries@, k) by {
                assert(r.entries@.len() == 0);
            }
        }
        r
    }

    /// The position of the first entry whose key is at or after the given
    /// key; the number of entries when every key is before it.
    fn find_at_or_after(&self, key: &Vec<u8>) -> (p: usize)
        requires
            self.wf(),
        ensures
            0 <= p <= self.entries@.len(),
            forall|i: int| 0 <= i < p ==> lex_lt(#[trigger] self.entries@[i].key@, key@),
            p < self.entries@.len() ==> !lex_lt(self.entries@[p as int].key@, key@),
    {
        let n = self.entries.len();
        let mut k: usize = 0;
        while k < n
            invariant
                n == self.entries@.len(),
                0 <= k <= n,
                forall|i: int| 0 <= i < k ==> lex_lt(#[trigger] self.entries@[i].key@, key@),
            decreases n - k,
        {
            if byte_key_cmp(&self.entries[k].key, key) >= 0 {
                return k;
            }
            k += 1;
        }
        n
    }

    /// When the entry at the found position does not match the key, no
    /// entry does.
    proof fn lemma_no_match(&self, key: Seq<u8>, p: int)
        requires
            self.wf(),
            0 <= p <= self.entries@.len(),
            forall|i: int| 0 <= i < p ==> lex_lt(#[trigger] self.entries@[i].key@, key),
            p < self.entries@.len() ==> !lex_lt(self.entries@[p].key@, key) && self.entries@[p].key@
                != key,
        ensures
            !kv_contains(self.entries@, key),
    {
        let s = self.entries@;
        assert forall|i: int| 0 <= i < s.len() implies #[trigger] s[i].key@ != key by {
            if i < p {
                lemma_lex_trichotomy(s[i].key@, key);
            } else if i == p {
            } else {
                lemma_lex_trichotomy(s[p].key@, key);
                assert(lex_lt(key, s[p].key@));
                assert(lex_lt(s[p].key@, s[i].key@));
                lemma_lex_trans(key, s[p].key@, s[i].key@);
                lemma_lex_trichotomy(s[i].key@, key);
            }
        }
    }

    /// Reads the value stored under a key.
    pub fn get(&self, key: &Vec<u8>) -> (r: Option<Vec<u8>>)
        requires
            self.wf(),
        ensures
            r.is_some() == self@.dom().contains(key@),
            match r {
                Some(v) => self@.dom().contains(key@) && v@ == self@[key@],
                None => true,
            },
    {
        let p = self.find_at_or_after(key);
        if p < self.entries.len() && bytes_eq(&self.entries[p].key, key) {
            proof {
                lemma_kv_unique(self.entries@, p as int);
            }
            Some(slice_to_vec(self.entries[p].value.as_slice()))
        } else {
            proof {
                if p < self.entries@.len() {
                    self.lemma_no_match(key@, p as int);
                } else {
                    self.lemma_no_match(key@, p as int);
                }
            }
            None
        }
    }

    /// Writes a value under a key, inserting or overwriting.
    pub fn set(&mut self, key: &Vec<u8>, value: &Vec<u8>)
        requires
            old(self).wf(),
        ensures
            final(self).wf(),
            final(self)@ =~= old(self)@.insert(key@, value@),
    {
        let p = self.find_at_or_after(key);
        let pair = KvPair {
            key: slice_to_vec(key.as_slice()),
            value: slice_to_vec(value.as_slice()),
        };
        if p < self.entries.len() && bytes_eq(&self.entries[p].key, key) {
            let ghost pre = self.entries@;
            proof {
                lemma_kv_update(pre, p as int, pair);
            }
            self.entries[p] = pair;
            proof {
                assert(self.entries@ =~= pre.update(p as int, pair));
            }
        } else {
            let ghost pre = self.entries@;
            proof {
                if p < pre.len() {
                    lemma_lex_trichotomy(pre[p as int].key@, key@);
                }
                lemma_kv_insert(pre, p as int, pair);
            }
            self.entries.insert(p, pair);
            proof {
                assert(self.entries@ =~= pre.insert(p as int, pair));
            }
        }
    }

    /// Removes the value stored under a key, if any.
    pub fn delete(&mut self, key: &Vec<u8>)
        requires
            old(self).wf(),
        ensures
            final(self).wf(),
            final(self)@ =~= old(self)@.remove(key@),
    {
        let p = self.find_at_or_after(key);
        if p < self.entries.len() && bytes_eq(&self.entries[p].key, key) {
            let ghost pre = self.entries@;
            self.entries.remove(p);
            proof {
                lemma_kv_remove(pre, p as int, key@);
                assert(self.entries@ =~= pre.remove(p as int));
            }
        } else {
            proof {
                self.lemma_no_match(key@, p as int);
                assert(self@ =~= old(self)@.remove(key@));
            }
        }
    }

    /// The stored pair with the smallest key at or after (`inclusive`) or
    /// strictly after the given key.
    pub fn next(&self, key: &Vec<u8>, inclusive: bool) -> (r: Option<(Vec<u8>, Vec<u8>)>)
        requires
            self.wf(),
        ensures
            next_post(self@, key@, inclusive, opt_kv_view(r)),
    {
        let p = self.find_at_or_after(key);
        let n = self.entries.len();
        let q: usize = if inclusive {
            p
        } else {
            if p < n && bytes_eq(&self.entries[p].key, key) {
                p + 1
            } else {
                p
            }
        };
        proof {
            lemma_kv_adjacent(self.entries@, key@, p as int, q as int, inclusive);
        }
        if q < n {
            proof {
                lemma_kv_unique(self.entries@, q as int);
            }
            Some(
                (
                    slice_to_vec(self.entries[q].key.as_slice()),
                    slice_to_vec(self.entries[q].value.as_slice()),
                ),
            )
        } else {
            None
        }
    }

    /// The stored pair with the largest key at or before (`inclusive`) or
    /// strictly before the given key.
    pub fn prev(&self, key: &Vec<u8>, inclusive: bool) -> (r: Option<(Vec<u8>, Vec<u8>)>)
        requires
            self.wf(),
        ensures
            prev_post(self@, key@, inclusive, opt_kv_view(r)),
    {
        let p = self.find_at_or_after(key);
        let n = self.entries.len();
        let has: bool;
        let q: usize;
        if inclusive && p < n && bytes_eq(&self.entries[p].key, key) {
            has = true;
            q = p;
        } else if p > 0 {
            has = true;
            q = p - 1;
        } else {
            has = false;
            q = 0;
        }
        proof {
            lemma_kv_adjacent_prev(self.entries@, key@, p as int, q as int, has, inclusive);
        }
        if has {
            proof {
                lemma_kv_unique(self.entries@, q as int);
            }
            Some(
                (
                    slice_to_vec(self.entries[q].key.as_slice()),
                    slice_to_vec(self.entries[q].value.as_slice()),
                ),
            )
        } else {
            None
        }
    }
}
/// Overwriting the entry at a matching position updates the map at
/// exactly that key.
proof fn lemma_kv_update(s: Seq<KvPair>, p: int, pair: KvPair)
    requires
        kv_sorted(s),
        0 <= p < s.len(),
        s[p].key@ == pair.key@,
    ensures
        kv_sorted(s.update(p, pair)),
        kv_map(s.update(p, pair)) =~= kv_map(s).insert(pair.key@, pair.value@),
{
    let t = s.update(p, pair);
    let k = pair.key@;
    assert forall|i: int, j: int| 0 <= i < j < t.len() implies lex_lt(
        #[trigger] t[i].key@,
        #[trigger] t[j].key@,
    ) by {
        assert(t[i].key@ == s[i].key@);
        assert(t[j].key@ == s[j].key@);
        assert(lex_lt(s[i].key@, s[j].key@));
    }
    assert forall|k2: Seq<u8>| #[trigger] kv_contains(t, k2) == kv_contains(s, k2) by {
        if kv_contains(t, k2) {
            let i = choose|i: int| 0 <= i < t.len() && #[trigger] t[i].key@ == k2;
            assert(s[i].key@ == k2);
        }
        if kv_contains(s, k2) {
            let i = choose|i: int| 0 <= i < s.len() && #[trigger] s[i].key@ == k2;
            assert(t[i].key@ == k2);
        }
    }
    assert forall|k2: Seq<u8>| kv_contains(t, k2) implies #[trigger] kv_at(t, k2) == kv_map(
        s,
    ).insert(k, pair.value@)[k2] by {
        let i = choose|i: int| 0 <= i < t.len() && #[trigger] t[i].key@ == k2;
        lemma_kv_unique(t, i);
        if k2 == k {
            lemma_kv_unique(t, p);
        } else {
            assert(i != p);
            lemma_kv_unique(s, i);
        }
    }
    assert(kv_map(t) =~= kv_map(s).insert(k, pair.value@));
}

/// Inserting an entry at the position where every earlier key is smaller
/// and every later key is larger keeps the entries sorted and inserts
/// into the map.
proof fn lemma_kv_insert(s: Seq<KvPair>, p: int, pair: KvPair)
    requires
        kv_sorted(s),
        0 <= p <= s.len(),
        forall|i: int| 0 <= i < p ==> lex_lt(#[trigger] s[i].key@, pair.key@),
        p < s.len() ==> lex_lt(pair.key@, s[p].key@),
    ensures
        kv_sorted(s.insert(p, pair)),
        kv_map(s.insert(p, pair)) =~= kv_map(s).insert(pair.key@, pair.value@),
{
    let t = s.insert(p, pair);
    let k = pair.key@;
    assert(t.len() == s.len() + 1);
    assert(forall|i: int| 0 <= i < p ==> t[i] == s[i]);
    assert(forall|i: int| p <= i < s.len() ==> t[i + 1] == s[i]);
    assert(t[p] == pair);
    assert forall|i: int, j: int| 0 <= i < j < t.len() implies lex_lt(
        #[trigger] t[i].key@,
        #[trigger] t[j].key@,
    ) by {
        if i < p && j < p {
            assert(lex_lt(s[i].key@, s[j].key@));
        } else if i < p && j == p {
            assert(lex_lt(s[i].key@, k));
        } else if i < p && j > p {
            assert(t[j] == s[j - 1]);
            assert(lex_lt(s[i].key@, s[j - 1].key@));
        } else if i == p {
            assert(t[j] == s[j - 1]);
            assert(p <= j - 1 < s.len());
            if j - 1 == p {
                assert(lex_lt(k, s[p].key@));
            } else {
                assert(lex_lt(k, s[p].key@));
                assert(lex_lt(s[p].key@, s[j - 1].key@));
                lemma_lex_trans(k, s[p].key@, s[j - 1].key@);
            }
        } else {
            assert(t[i] == s[i - 1]);
            assert(t[j] == s[j - 1]);
            assert(lex_lt(s[i - 1].key@, s[j - 1].key@));
        }
    }
    assert forall|k2: Seq<u8>| #[trigger]
        kv_contains(t, k2) == (kv_contains(s, k2) || k2 == k) by {
        if kv_contains(t, k2) {
            let i = choose|i: int| 0 <= i < t.len() && #[trigger] t[i].key@ == k2;
            if i < p {
                assert(s[i].key@ == k2);
            } else if i == p {
            } else {
                assert(t[i] == s[i - 1]);
                assert(s[i - 1].key@ == k2);
            }
        }
        if kv_contains(s, k2) {
            let i = choose|i: int| 0 <= i < s.len() && #[trigger] s[i].key@ == k2;
            if i < p {
                assert(t[i].key@ == k2);
            } else {
                assert(t[i + 1].key@ == k2);
            }
        }
        if k2 == k {
            assert(t[p].key@ == k2);
        }
    }
    assert forall|k2: Seq<u8>| kv_contains(t, k2) implies #[trigger] kv_at(t, k2) == kv_map(
        s,
    ).insert(k, pair.value@)[k2] by {
        let i = choose|i: int| 0 <= i < t.len() && #[trigger] t[i].key@ == k2;
        lemma_kv_unique(t, i);
        if k2 == k {
            lemma_kv_unique(t, p);
        } else {
            assert(i != p);
            if i < p {
                lemma_kv_unique(s, i);
            } else {
                lemma_kv_unique(s, i - 1);
                assert(t[i] == s[i - 1]);
            }
        }
    }
    assert(kv_map(t) =~= kv_map(s).insert(k, pair.value@));
}

/// Removing the entry at a matching position removes exactly that key
/// from the map.
proof fn lemma_kv_remove(s: Seq<KvPair>, p: int, k: Seq<u8>)
    requires
        kv_sorted(s),
        0 <= p < s.len(),
        s[p].key@ == k,
    ensures
        kv_sorted(s.remove(p)),
        kv_map(s.remove(p)) =~= kv_map(s).remove(k),
{
    let t = s.remove(p);
    assert(t.len() == s.len() - 1);
    assert(forall|i: int| 0 <= i < p ==> t[i] == s[i]);
    assert(forall|i: int| p <= i < t.len() ==> #[trigger] t[i] == s[i + 1]);
    assert forall|i: int, j: int| 0 <= i < j < t.len() implies lex_lt(
        #[trigger] t[i].key@,
        #[trigger] t[j].key@,
    ) by {
        let si = if i < p {
            i
        } else {
            i + 1
        };
        let sj = if j < p {
            j
        } else {
            j + 1
        };
        assert(t[i] == s[si]);
        assert(t[j] == s[sj]);
        assert(lex_lt(s[si].key@, s[sj].key@));
    }
    assert forall|k2: Seq<u8>| #[trigger]
        kv_contains(t, k2) == (kv_contains(s, k2) && k2 != k) by {
        if kv_contains(t, k2) {
            let i = choose|i: int| 0 <= i < t.len() && #[trigger] t[i].key@ == k2;
            let si = if i < p {
                i
            } else {
                i + 1
            };
            assert(t[i] == s[si]);
            assert(s[si].key@ == k2);
            if k2 == k {
                if si < p {
                    assert(lex_lt(s[si].key@, s[p].key@));
                    lemma_lex_trichotomy(s[si].key@, s[p].key@);
                } else {
                    assert(lex_lt(s[p].key@, s[si].key@));
                    lemma_lex_trichotomy(s[p].key@, s[si].key@);
                }
            }
        }
        if kv_contains(s, k2) && k2 != k {
            let i = choose|i: int| 0 <= i < s.len() && #[trigger] s[i].key@ == k2;
            assert(i != p);
            if i < p {
                assert(t[i].key@ == k2);
            } else {
                assert(t[i - 1] == s[i]);
                assert(t[i - 1].key@ == k2);
            }
        }
    }
    assert forall|k2: Seq<u8>| kv_contains(t, k2) implies #[trigger] kv_at(t, k2) == kv_map(
        s,
    ).remove(k)[k2] by {
        let i = choose|i: int| 0 <= i < t.len() && #[trigger] t[i].key@ == k2;
        lemma_kv_unique(t, i);
        let si = if i < p {
            i
        } else {
            i + 1
        };
        assert(t[i] == s[si]);
        lemma_kv_unique(s, si);
    }
    assert(kv_map(t) =~= kv_map(s).remove(k));
}

/// The entry at the adjusted position is the forward adjacency query's
/// answer: it satisfies the bound and no stored key satisfying the bound
/// is smaller.
proof fn lemma_kv_adjacent(s: Seq<KvPair>, key: Seq<u8>, p: int, q: int, inclusive: bool)
    requires
        kv_sorted(s),
        0 <= p <= s.len(),
        forall|i: int| 0 <= i < p ==> lex_lt(#[trigger] s[i].key@, key),
        p < s.len() ==> !lex_lt(s[p].key@, key),
        if inclusive {
            q == p
        } else {
            q == if p < s.len() && s[p].key@ == key {
                p + 1
            } else {
                p
            }
        },
    ensures
        q < s.len() ==> (if inclusive {
            !lex_lt(s[q].key@, key)
        } else {
            lex_lt(key, s[q].key@)
        }),
        forall|k2: Seq<u8>|
            kv_contains(s, k2) && (if inclusive {
                !lex_lt(k2, key)
            } else {
                lex_lt(key, k2)
            }) ==> !lex_lt(k2, s[q].key@) && q < s.len(),
{
    if q < s.len() && !inclusive {
        if q == p + 1 {
            assert(lex_lt(s[p].key@, s[q].key@));
            assert(s[p].key@ == key);
        } else {
            lemma_lex_trichotomy(s[q].key@, key);
        }
    }
    assert forall|k2: Seq<u8>|
        kv_contains(s, k2) && (if inclusive {
            !lex_lt(k2, key)
        } else {
            lex_lt(key, k2)
        }) implies !lex_lt(k2, s[q].key@) && q < s.len() by {
        let i = choose|i: int| 0 <= i < s.len() && #[trigger] s[i].key@ == k2;
        if i < p {
            if inclusive {
                lemma_lex_trichotomy(k2, key);
            } else {
                lemma_lex_trans(key, k2, key);
                lemma_lex_trichotomy(key, key);
            }
        } else if !inclusive && i == p && q == p + 1 {
            lemma_lex_trichotomy(k2, key);
        }
        assert(q <= i);
        assert(q < s.len());
        if q < i {
            assert(lex_lt(s[q].key@, s[i].key@));
            lemma_lex_trichotomy(s[q].key@, s[i].key@);
        } else {
            assert(s[q].key@ == k2);
            lemma_lex_trichotomy(s[q].key@, k2);
        }
    }
}

/// The entry at the adjusted position answers the backward adjacency
/// query: it satisfies the bound and no stored key satisfying the bound
/// is larger.
proof fn lemma_kv_adjacent_prev(
    s: Seq<KvPair>,
    key: Seq<u8>,
    p: int,
    q: int,
    has: bool,
    inclusive: bool,
)
    requires
        kv_sorted(s),
        0 <= p <= s.len(),
        forall|i: int| 0 <= i < p ==> lex_lt(#[trigger] s[i].key@, key),
        p < s.len() ==> !lex_lt(s[p].key@, key),
        if inclusive && p < s.len() && s[p].key@ == key {
            has && q == p
        } else if p > 0 {
            has && q == p - 1
        } else {
            has == false && q == 0
        },
    ensures
        has ==> 0 <= q < s.len(),
        has ==> (if inclusive {
            !lex_lt(key, s[q].key@)
        } else {
            lex_lt(s[q].key@, key)
        }),
        has ==> forall|k2: Seq<u8>|
            kv_contains(s, k2) && (if inclusive {
                !lex_lt(key, k2)
            } else {
                lex_lt(k2, key)
            }) ==> !lex_lt(s[q].key@, k2),
        has == false ==> forall|k2: Seq<u8>|
            kv_contains(s, k2) ==> (if inclusive {
                lex_lt(key, k2)
            } else {
                !lex_lt(k2, key)
            }),
{
    if has {
        let at_key = inclusive && p < s.len() && s[p].key@ == key;
        if at_key {
            lemma_lex_trichotomy(key, s[q].key@);
        } else {
            assert(q == p - 1);
            assert(lex_lt(s[q].key@, key));
            if inclusive {
                lemma_lex_trichotomy(key, s[q].key@);
            }
        }
        assert forall|k2: Seq<u8>|
            kv_contains(s, k2) && (if inclusive {
                !lex_lt(key, k2)
            } else {
                lex_lt(k2, key)
            }) implies !lex_lt(s[q].key@, k2) by {
            let i = choose|i: int| 0 <= i < s.len() && #[trigger] s[i].key@ == k2;
            if i < q {
                assert(lex_lt(s[i].key@, s[q].key@));
                lemma_lex_trichotomy(s[q].key@, k2);
            } else if i == q {
                lemma_lex_trichotomy(s[q].key@, k2);
            } else {
                // i > q: the bound is violated for such an entry
                if at_key {
                    // s[q].key == key and s[i].key > key
                    assert(lex_lt(s[q].key@, s[i].key@));
                    lemma_lex_trichotomy(key, k2);
                    if !inclusive {
                        lemma_lex_trans(k2, key, k2);
                        lemma_lex_trichotomy(k2, k2);
                    }
                } else {
                    // q == p - 1, so i >= p and s[i].key >= key
                    assert(i >= p);
                    assert(p < s.len());
                    assert(!lex_lt(s[p].key@, key));
                    lemma_lex_trichotomy(s[p].key@, key);
                    if s[p].key@ == key {
                        // inclusive must be false here (not at_key)
                        assert(!inclusive);
                        if i == p {
                            lemma_lex_trichotomy(k2, key);
                        } else {
                            assert(lex_lt(s[p].key@, s[i].key@));
                            lemma_lex_trichotomy(key, k2);
                        }
                    } else {
                        assert(lex_lt(key, s[p].key@));
                        if i == p {
                        } else {
                            assert(lex_lt(s[p].key@, s[i].key@));
                            lemma_lex_trans(key, s[p].key@, s[i].key@);
                        }
                        assert(lex_lt(key, k2));
                        lemma_lex_trichotomy(key, k2);
                        if !inclusive {
                            lemma_lex_trans(k2, key, k2);
                            lemma_lex_trichotomy(k2, k2);
                        }
                    }
                }
            }
        }
    } else {
        assert(p == 0);
        assert forall|k2: Seq<u8>|
            kv_contains(s, k2) implies (if inclusive {
            lex_lt(key, k2)
        } else {
            !lex_lt(k2, key)
        }) by {
            let i = choose|i: int| 0 <= i < s.len() && #[trigger] s[i].key@ == k2;
            assert(!lex_lt(s[0].key@, key));
            lemma_lex_trichotomy(s[0].key@, key);
            if i == 0 {
                if inclusive {
                    assert(s[0].key@ != key);
                    assert(lex_lt(key, s[0].key@));
                }
                lemma_lex_trichotomy(k2, key);
            } else {
                assert(lex_lt(s[0].key@, s[i].key@));
                if s[0].key@ == key {
                    assert(lex_lt(key, k2));
                } else {
                    assert(lex_lt(key, s[0].key@));
                    lemma_lex_trans(key, s[0].key@, s[i].key@);
                }
                lemma_lex_trichotomy(k2, key);
            }
        }
    }
}

} // verus!
