//! An ordered map from byte-string keys, kept as sorted parallel vectors.
//!
//! Keys are held in strictly ascending unsigned byte order, so every key
//! occurs once and a walk from the front visits keys in ascending order.
use vstd::prelude::*;

use crate::bytes::{bytes_eq, bytes_lt, copy_bytes, lex_lt};
use crate::storage_api::bounds::Bounds;
use crate::storage_api::engine::{is_range_of, pair_keys, pair_views, Keyspace, Pair};

verus! {

/// Whether a sequence of keys is strictly ascending.
pub open spec fn strictly_ascending(keys: Seq<Seq<u8>>) -> bool {
    forall|i: int, j: int| 0 <= i < j < keys.len() ==> lex_lt(#[trigger] keys[i], #[trigger] keys[j])
}

/// An ordered map from byte-string keys to values.
///
/// The keys are held ascending in byte order, so a lookup is a binary search
/// and a range is a slice. std's `BTreeMap` would do the same job, but vstd
/// specifies it only for keys whose order vstd itself specifies, which
/// `Vec<u8>` is not, and gives its `range` no specification.
pub struct SortedMap<V> {
    keys: Vec<Vec<u8>>,
    values: Vec<V>,
}

impl<V> SortedMap<V> {
    /// The keys in the order they are held.
    pub closed spec fn key_seq(&self) -> Seq<Seq<u8>> {
        self.keys@.map_values(|k: Vec<u8>| k@)
    }

    /// The values in the order of their keys.
    pub closed spec fn value_seq(&self) -> Seq<V> {
        self.values@
    }

    /// The structure's invariant: one value per key, keys strictly ascending.
    pub open spec fn wf(&self) -> bool {
        &&& self.key_seq().len() == self.value_seq().len()
        &&& strictly_ascending(self.key_seq())
    }

    /// The position of `k`, when it is present.
    pub open spec fn position_of(&self, k: Seq<u8>) -> int {
        choose|i: int| 0 <= i < self.key_seq().len() && self.key_seq()[i] == k
    }

    /// The map this structure represents.
    pub open spec fn as_map(&self) -> Map<Seq<u8>, V> {
        Map::new(
            |k: Seq<u8>| exists|i: int| 0 <= i < self.key_seq().len() && self.key_seq()[i] == k,
            |k: Seq<u8>| self.value_seq()[self.position_of(k)],
        )
    }

    /// The entry at position `i` is what the map holds for its key.
    pub proof fn lemma_entry(&self, i: int)
        requires
            self.wf(),
            0 <= i < self.key_seq().len(),
        ensures
            self.as_map().contains_key(self.key_seq()[i]),
            self.as_map()[self.key_seq()[i]] == self.value_seq()[i],
            self.position_of(self.key_seq()[i]) == i,
    {
        let k = self.key_seq()[i];
        assert(exists|j: int| 0 <= j < self.key_seq().len() && self.key_seq()[j] == k);
        let j = self.position_of(k);
        if j < i {
            assert(lex_lt(self.key_seq()[j], self.key_seq()[i]));
            crate::bytes::lemma_lex_lt_irreflexive(k);
        } else if j > i {
            assert(lex_lt(self.key_seq()[i], self.key_seq()[j]));
            crate::bytes::lemma_lex_lt_irreflexive(k);
        }
    }

    /// Every key of the map sits at its position.
    pub proof fn lemma_position(&self, k: Seq<u8>)
        requires
            self.wf(),
            self.as_map().contains_key(k),
        ensures
            0 <= self.position_of(k) < self.key_seq().len(),
            self.key_seq()[self.position_of(k)] == k,
    {
    }

    /// The map holds finitely many keys.
    pub proof fn lemma_finite(&self)
        ensures
            self.as_map().dom().finite(),
    {
        let s = self.key_seq();
        assert(self.as_map().dom() =~= s.to_set());
        s.lemma_cardinality_of_set();
    }

    /// An empty map.
    pub fn new() -> (m: Self)
        ensures
            m.wf(),
            m.as_map() == Map::<Seq<u8>, V>::empty(),
            m.key_seq() == Seq::<Seq<u8>>::empty(),
    {
        let m = Self { keys: Vec::new(), values: Vec::new() };
        assert(m.key_seq() =~= Seq::<Seq<u8>>::empty());
        assert(m.as_map() =~= Map::<Seq<u8>, V>::empty());
        m
    }

    /// Number of keys held.
    pub fn len(&self) -> (n: usize)
        requires
            self.wf(),
        ensures
            n == self.key_seq().len(),
    {
        self.keys.len()
    }

    /// The key at position `i`.
    pub fn key_at(&self, i: usize) -> (k: &[u8])
        requires
            self.wf(),
            i < self.key_seq().len(),
        ensures
            k@ == self.key_seq()[i as int],
    {
        self.keys[i].as_slice()
    }

    /// The value at position `i`.
    pub fn value_at(&self, i: usize) -> (v: &V)
        requires
            self.wf(),
            i < self.key_seq().len(),
        ensures
            *v == self.value_seq()[i as int],
    {
        &self.values[i]
    }

    /// Replaces the value at position `i`, returning the value it held.
    pub fn replace_at(&mut self, i: usize, value: V) -> (prev: V)
        requires
            old(self).wf(),
            i < old(self).key_seq().len(),
        ensures
            final(self).wf(),
            final(self).key_seq() == old(self).key_seq(),
            final(self).value_seq() == old(self).value_seq().update(i as int, value),
            final(self).as_map() == old(self).as_map().insert(old(self).key_seq()[i as int], value),
            prev == old(self).value_seq()[i as int],
    {
        let prev = self.values.remove(i);
        self.values.insert(i, value);
        proof {
            assert(self.value_seq() =~= old(self).value_seq().update(i as int, value));
            old(self).lemma_entry(i as int);
            let key = old(self).key_seq()[i as int];
            let m1 = self.as_map();
            let m2 = old(self).as_map().insert(key, value);
            assert forall|k: Seq<u8>|
                #![trigger m1.dom().contains(k)]
                #![trigger m2.dom().contains(k)]
                m1.dom().contains(k) == m2.dom().contains(k)
                && (m1.dom().contains(k) ==> m1[k] == m2[k])
            by {
                if m1.dom().contains(k) {
                    let p = self.position_of(k);
                    self.lemma_entry(p);
                    old(self).lemma_entry(p);
                }
            }
            assert(m1 =~= m2);
        }
        prev
    }

    /// Appends `key`, which sorts after every key held, with `value`.
    pub fn push_greatest(&mut self, key: Vec<u8>, value: V)
        requires
            old(self).wf(),
            forall|j: int| 0 <= j < old(self).key_seq().len() ==> lex_lt(#[trigger] old(self).key_seq()[j], key@),
        ensures
            final(self).wf(),
            final(self).key_seq() == old(self).key_seq().push(key@),
            final(self).value_seq() == old(self).value_seq().push(value),
    {
        let ghost kv = key@;
        self.keys.push(key);
        self.values.push(value);
        assert(self.key_seq() =~= old(self).key_seq().push(kv));
        assert(self.value_seq() =~= old(self).value_seq().push(value));
    }

    /// Locates `key`: `Ok(i)` when it is held at position `i`, otherwise
    /// `Err(i)` where `i` is the position at which it would be inserted.
    pub fn find(&self, key: &[u8]) -> (r: Result<usize, usize>)
        requires
            self.wf(),
        ensures
            match r {
                Ok(i) => i < self.key_seq().len() && self.key_seq()[i as int] == key@,
                Err(i) => {
                    &&& i <= self.key_seq().len()
                    &&& forall|j: int| 0 <= j < i ==> lex_lt(#[trigger] self.key_seq()[j], key@)
                    &&& forall|j: int| i <= j < self.key_seq().len() ==> lex_lt(key@, #[trigger] self.key_seq()[j])
                },
            },
            r is Ok <==> self.as_map().contains_key(key@),
    {
        let mut lo: usize = 0;
        let mut hi: usize = self.keys.len();
        while lo < hi
            invariant
                self.wf(),
                lo <= hi <= self.key_seq().len(),
                forall|j: int| 0 <= j < lo ==> lex_lt(#[trigger] self.key_seq()[j], key@),
                forall|j: int| hi <= j < self.key_seq().len() ==> lex_lt(key@, #[trigger] self.key_seq()[j]),
            decreases hi - lo,
        {
            let mid = lo + (hi - lo) / 2;
            let k = self.keys[mid].as_slice();
            assert(k@ == self.key_seq()[mid as int]);
            if bytes_eq(k, key) {
                proof {
                    self.lemma_entry(mid as int);
                }
                return Ok(mid);
            } else if bytes_lt(k, key) {
                proof {
                    assert forall|j: int| 0 <= j < mid + 1 implies lex_lt(#[trigger] self.key_seq()[j], key@) by {
                        if j < mid {
                            crate::bytes::lemma_lex_lt_transitive(self.key_seq()[j], self.key_seq()[mid as int], key@);
                        }
                    }
                }
                lo = mid + 1;
            } else {
                proof {
                    crate::bytes::lemma_lex_lt_total(k@, key@);
                    assert forall|j: int| mid <= j < self.key_seq().len() implies lex_lt(key@, #[trigger] self.key_seq()[j]) by {
                        if j > mid {
                            crate::bytes::lemma_lex_lt_transitive(key@, self.key_seq()[mid as int], self.key_seq()[j]);
                        }
                    }
                }
                hi = mid;
            }
        }
        proof {
            if self.as_map().contains_key(key@) {
                let p = self.position_of(key@);
                crate::bytes::lemma_lex_lt_irreflexive(key@);
                if p < lo {
                    assert(lex_lt(self.key_seq()[p], key@));
                } else {
                    assert(lex_lt(key@, self.key_seq()[p]));
                }
            }
        }
        Err(lo)
    }

    /// The value held for `key`, if any.
    pub fn get(&self, key: &[u8]) -> (r: Option<&V>)
        requires
            self.wf(),
        ensures
            match r {
                Some(v) => self.as_map().contains_key(key@) && *v == self.as_map()[key@],
                None => !self.as_map().contains_key(key@),
            },
    {
        match self.find(key) {
            Ok(i) => {
                proof {
                    self.lemma_entry(i as int);
                }
                Some(&self.values[i])
            },
            Err(_) => None,
        }
    }

    /// Places `value` under `key`, returning the value it displaced.
    pub fn insert(&mut self, key: Vec<u8>, value: V) -> (prev: Option<V>)
        requires
            old(self).wf(),
        ensures
            final(self).wf(),
            final(self).as_map() == old(self).as_map().insert(key@, value),
            match prev {
                Some(v) => old(self).as_map().contains_key(key@) && v == old(self).as_map()[key@],
                None => !old(self).as_map().contains_key(key@),
            },
    {
        match self.find(key.as_slice()) {
            Ok(i) => {
                proof {
                    self.lemma_entry(i as int);
                }
                let ghost old_keys = self.key_seq();
                let old_value = self.values.remove(i);
                self.values.insert(i, value);
                proof {
                    assert(self.key_seq() == old_keys);
                    assert(self.value_seq() =~= old(self).value_seq().update(i as int, value));
                    assert forall|k: Seq<u8>| #![auto]
                        self.as_map().contains_key(k) == old(self).as_map().insert(key@, value).contains_key(k)
                        && (self.as_map().contains_key(k) ==> self.as_map()[k] == old(self).as_map().insert(key@, value)[k])
                    by {
                        if self.as_map().contains_key(k) {
                            let p = self.position_of(k);
                            self.lemma_entry(p);
                            old(self).lemma_entry(p);
                        }
                    }
                    assert(self.as_map() =~= old(self).as_map().insert(key@, value));
                }
                Some(old_value)
            },
            Err(i) => {
                let ghost kv = key@;
                self.keys.insert(i, key);
                self.values.insert(i, value);
                proof {
                    assert(self.key_seq() =~= old(self).key_seq().insert(i as int, kv));
                    assert(self.value_seq() =~= old(self).value_seq().insert(i as int, value));
                    let ks = self.key_seq();
                    assert forall|a: int, b: int| 0 <= a < b < ks.len() implies lex_lt(#[trigger] ks[a], #[trigger] ks[b]) by {
                        let oks = old(self).key_seq();
                        if b < i {
                        } else if a == i {
                            assert(lex_lt(kv, oks[b - 1]));
                        } else if b == i {
                            assert(lex_lt(oks[a], kv));
                        } else if a < i {
                            assert(lex_lt(oks[a], oks[b - 1]));
                        } else {
                            assert(lex_lt(oks[a - 1], oks[b - 1]));
                        }
                    }
                    let m1 = self.as_map();
                    let m2 = old(self).as_map().insert(kv, value);
                    assert forall|k: Seq<u8>|
                        #![trigger m1.dom().contains(k)]
                        #![trigger m2.dom().contains(k)]
                        m1.dom().contains(k) == m2.dom().contains(k)
                        && (m1.dom().contains(k) ==> m1[k] == m2[k])
                    by {
                        if self.as_map().contains_key(k) {
                            let p = self.position_of(k);
                            self.lemma_entry(p);
                            if p < i {
                                old(self).lemma_entry(p);
                            } else if p > i {
                                old(self).lemma_entry(p - 1);
                            }
                        }
                        if old(self).as_map().contains_key(k) {
                            let q = old(self).position_of(k);
                            if q < i {
                                assert(self.key_seq()[q] == k);
                            } else {
                                assert(self.key_seq()[q + 1] == k);
                            }
                        }
                        if k == kv {
                            assert(self.key_seq()[i as int] == k);
                        }
                    }
                    assert(m1 =~= m2);
                }
                None
            },
        }
    }

    /// Removes `key`, returning the value it held.
    pub fn remove(&mut self, key: &[u8]) -> (prev: Option<V>)
        requires
            old(self).wf(),
        ensures
            final(self).wf(),
            final(self).as_map() == old(self).as_map().remove(key@),
            match prev {
                Some(v) => old(self).as_map().contains_key(key@) && v == old(self).as_map()[key@],
                None => !old(self).as_map().contains_key(key@),
            },
    {
        match self.find(key) {
            Ok(i) => {
                proof {
                    self.lemma_entry(i as int);
                }
                self.keys.remove(i);
                let v = self.values.remove(i);
                proof {
                    assert(self.key_seq() =~= old(self).key_seq().remove(i as int));
                    assert(self.value_seq() =~= old(self).value_seq().remove(i as int));
                    let ks = self.key_seq();
                    let oks = old(self).key_seq();
                    assert forall|a: int, b: int| 0 <= a < b < ks.len() implies lex_lt(#[trigger] ks[a], #[trigger] ks[b]) by {
                        if b < i {
                        } else if a < i {
                            assert(lex_lt(oks[a], oks[b + 1]));
                        } else {
                            assert(lex_lt(oks[a + 1], oks[b + 1]));
                        }
                    }
                    let m1 = self.as_map();
                    let m2 = old(self).as_map().remove(key@);
                    assert forall|k: Seq<u8>|
                        #![trigger m1.dom().contains(k)]
                        #![trigger m2.dom().contains(k)]
                        m1.dom().contains(k) == m2.dom().contains(k)
                        && (m1.dom().contains(k) ==> m1[k] == m2[k])
                    by {
                        if self.as_map().contains_key(k) {
                            let p = self.position_of(k);
                            self.lemma_entry(p);
                            if p < i {
                                old(self).lemma_entry(p);
                                assert(lex_lt(oks[p], oks[i as int]));
                                crate::bytes::lemma_lex_lt_asymmetric(oks[p], oks[i as int]);
                            } else {
                                old(self).lemma_entry(p + 1);
                                assert(lex_lt(oks[i as int], oks[p + 1]));
                                crate::bytes::lemma_lex_lt_asymmetric(oks[i as int], oks[p + 1]);
                            }
                        }
                        if old(self).as_map().contains_key(k) && k != key@ {
                            let q = old(self).position_of(k);
                            if q < i {
                                assert(self.key_seq()[q] == k);
                            } else {
                                assert(q != i);
                                assert(self.key_seq()[q - 1] == k);
                            }
                        }
                    }
                    assert(m1 =~= m2);
                }
                Some(v)
            },
            Err(_) => {
                assert(self.as_map() =~= old(self).as_map().remove(key@));
                None
            },
        }
    }
}

impl SortedMap<Vec<u8>> {
    /// The keyspace a map of byte-string values represents.
    pub open spec fn keyspace(&self) -> Keyspace {
        self.as_map().map_values(|v: Vec<u8>| v@)
    }

    /// An independent copy of the map.
    pub fn duplicate(&self) -> (m: Self)
        requires
            self.wf(),
        ensures
            m.wf(),
            m.key_seq() == self.key_seq(),
            m.keyspace() == self.keyspace(),
    {
        let mut keys: Vec<Vec<u8>> = Vec::new();
        let mut values: Vec<Vec<u8>> = Vec::new();
        let mut i: usize = 0;
        while i < self.keys.len()
            invariant
                self.wf(),
                i <= self.key_seq().len(),
                keys@.len() == i,
                values@.len() == i,
                forall|j: int| 0 <= j < i ==> #[trigger] keys@[j]@ == self.key_seq()[j],
                forall|j: int| 0 <= j < i ==> #[trigger] values@[j]@ == self.value_seq()[j]@,
            decreases self.key_seq().len() - i,
        {
            keys.push(copy_bytes(self.keys[i].as_slice()));
            values.push(copy_bytes(self.values[i].as_slice()));
            i = i + 1;
        }
        let m = Self { keys, values };
        proof {
            assert(m.key_seq() =~= self.key_seq());
            assert forall|k: Seq<u8>| #[trigger] m.keyspace().contains_key(k) implies m.keyspace()[k] == self.keyspace()[k] by {
                let p = m.position_of(k);
                m.lemma_entry(p);
                self.lemma_entry(p);
            }
            assert(m.keyspace() =~= self.keyspace());
        }
        m
    }

    /// The pairs within `bounds` in ascending key order, at most `limit` of them.
    pub fn collect_range(&self, bounds: &Bounds, limit: Option<usize>) -> (out: Vec<Pair>)
        requires
            self.wf(),
        ensures
            is_range_of(pair_views(out@), self.keyspace(), bounds@, limit),
    {
        let mut out: Vec<Pair> = Vec::new();
        let ghost mut idx: Seq<int> = Seq::empty();
        let n = self.keys.len();
        let mut i: usize = 0;
        let ghost ks = self.key_seq();
        let mut full = match limit {
            Some(l) => l == 0,
            None => false,
        };
        while i < n && !full
            invariant
                full == (limit matches Some(l) && out@.len() >= l),
                self.wf(),
                n == ks.len(),
                ks == self.key_seq(),
                i <= n,
                out@.len() == idx.len(),
                limit matches Some(l) ==> out@.len() <= l,
                forall|a: int, b: int| 0 <= a < b < idx.len() ==> idx[a] < idx[b],
                forall|a: int| 0 <= a < idx.len() ==> 0 <= #[trigger] idx[a] < i,
                forall|a: int| 0 <= a < idx.len() ==> {
                    &&& pair_views(out@)[a].0 == ks[#[trigger] idx[a]]
                    &&& pair_views(out@)[a].1 == self.value_seq()[idx[a]]@
                    &&& bounds@.contains(ks[idx[a]])
                },
                forall|j: int| 0 <= j < i && bounds@.contains(#[trigger] ks[j]) ==> idx.contains(j),
            decreases n - i,
        {
            let ghost idx0 = idx;
            if bounds.contains(self.keys[i].as_slice()) {
                let k = copy_bytes(self.keys[i].as_slice());
                let v = copy_bytes(self.values[i].as_slice());
                out.push((k, v));
                proof {
                    idx = idx.push(i as int);
                }
            }
            proof {
                assert forall|j: int| 0 <= j < i + 1 && bounds@.contains(#[trigger] ks[j]) implies idx.contains(j) by {
                    if j < i {
                        let a = idx0.index_of(j);
                        assert(idx[a] == j);
                    } else {
                        assert(idx[idx.len() - 1] == j);
                    }
                }
            }
            i = i + 1;
            full = match limit {
                Some(l) => out.len() >= l,
                None => false,
            };
        }
        proof {
            let r = pair_views(out@);
            assert forall|a: int, b: int| 0 <= a < b < r.len() implies lex_lt(#[trigger] pair_keys(r)[a], #[trigger] pair_keys(r)[b]) by {
                assert(idx[a] < idx[b]);
            }
            assert forall|a: int| 0 <= a < r.len() implies {
                &&& self.keyspace().contains_key(#[trigger] r[a].0)
                &&& self.keyspace()[r[a].0] == r[a].1
                &&& bounds@.contains(r[a].0)
            } by {
                self.lemma_entry(idx[a]);
            }
            assert forall|k: Seq<u8>| #[trigger] self.keyspace().contains_key(k) && bounds@.contains(k) implies {
                ||| pair_keys(r).contains(k)
                ||| {
                    &&& limit matches Some(l) && r.len() == l
                    &&& forall|a: int| 0 <= a < r.len() ==> lex_lt(#[trigger] r[a].0, k)
                }
            } by {
                self.lemma_position(k);
                let p = self.position_of(k);
                if p < i {
                    assert(idx.contains(p));
                    let a = idx.index_of(p);
                    assert(pair_keys(r)[a] == k);
                } else {
                    assert forall|a: int| 0 <= a < r.len() implies lex_lt(#[trigger] r[a].0, k) by {
                        assert(idx[a] < p);
                    }
                }
            }
        }
        out
    }
}

/// Two strictly ascending sequences with the same elements are the same.
pub proof fn lemma_ascending_unique(x: Seq<Seq<u8>>, y: Seq<Seq<u8>>)
    requires
        strictly_ascending(x),
        strictly_ascending(y),
        forall|k: Seq<u8>| x.contains(k) <==> y.contains(k),
    ensures
        x == y,
    decreases x.len(),
{
    if x.len() == 0 {
        if y.len() > 0 {
            assert(y.contains(y[0]));
        }
        assert(x =~= y);
    } else {
        assert(x.contains(x[0]));
        let j = choose|j: int| 0 <= j < y.len() && y[j] == x[0];
        assert(y.contains(y[0]));
        let i = choose|i: int| 0 <= i < x.len() && x[i] == y[0];
        if j > 0 {
            assert(lex_lt(y[0], y[j]));
            if i > 0 {
                assert(lex_lt(x[0], x[i]));
                crate::bytes::lemma_lex_lt_asymmetric(x[0], x[i]);
            } else {
                crate::bytes::lemma_lex_lt_irreflexive(x[0]);
            }
        }
        assert(x[0] == y[0]);
        let xs = x.drop_first();
        let ys = y.drop_first();
        assert forall|k: Seq<u8>| xs.contains(k) <==> ys.contains(k) by {
            if xs.contains(k) {
                let a = choose|a: int| 0 <= a < xs.len() && xs[a] == k;
                assert(x[a + 1] == k);
                assert(lex_lt(x[0], x[a + 1]));
                assert(y.contains(k));
                let b = choose|b: int| 0 <= b < y.len() && y[b] == k;
                if b == 0 {
                    crate::bytes::lemma_lex_lt_irreflexive(k);
                }
                assert(ys[b - 1] == k);
            }
            if ys.contains(k) {
                let a = choose|a: int| 0 <= a < ys.len() && ys[a] == k;
                assert(y[a + 1] == k);
                assert(lex_lt(y[0], y[a + 1]));
                assert(x.contains(k));
                let b = choose|b: int| 0 <= b < x.len() && x[b] == k;
                if b == 0 {
                    crate::bytes::lemma_lex_lt_irreflexive(k);
                }
                assert(xs[b - 1] == k);
            }
        }
        assert forall|a: int, b: int| 0 <= a < b < xs.len() implies lex_lt(#[trigger] xs[a], #[trigger] xs[b]) by {
            assert(xs[a] == x[a + 1] && xs[b] == x[b + 1]);
        }
        assert forall|a: int, b: int| 0 <= a < b < ys.len() implies lex_lt(#[trigger] ys[a], #[trigger] ys[b]) by {
            assert(ys[a] == y[a + 1] && ys[b] == y[b + 1]);
        }
        lemma_ascending_unique(xs, ys);
        assert(x =~= y) by {
            assert forall|a: int| 0 <= a < x.len() implies x[a] == y[a] by {
                if a > 0 {
                    assert(x[a] == xs[a - 1] && y[a] == ys[a - 1]);
                }
            }
        }
    }
}

} // verus!
