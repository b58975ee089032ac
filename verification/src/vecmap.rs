//! A flat association map backed by two parallel vectors, used as the
//! per-shard table of the sharded map and as the collision bucket of the
//! nested map.

use vstd::prelude::*;

verus! {

use crate::key::MapKey;

/// Largest size at which callers may still prefer the flat representation
/// over a full hash table.
pub const THRESHOLD: usize = 64;

/// True when no element of the sequence occurs twice.
pub open spec fn distinct_seq<A>(s: Seq<A>) -> bool {
    forall|i: int, j: int| 0 <= i < j < s.len() ==> s[i] != s[j]
}

/// Some stored key with abstract value `kv` can make `f` return `b` on the
/// stored value `v`: the recorded outcome of one `retain` visit.
pub open spec fn pred_outcome<K: MapKey, V, F: Fn(&K, &V) -> bool>(
    f: F,
    kv: K::V,
    v: V,
    b: bool,
) -> bool {
    exists|ke: K| ke@ == kv && #[trigger] call_ensures(f, (&ke, &v), b)
}

/// Some stored key with abstract value `kv` can make `f` return `v_new` on
/// the stored value `v_old`: the recorded outcome of one `alter` visit.
pub open spec fn alter_outcome<K: MapKey, V, F: Fn(&K, &V) -> V>(
    f: F,
    kv: K::V,
    v_old: V,
    v_new: V,
) -> bool {
    exists|ke: K| ke@ == kv && #[trigger] call_ensures(f, (&ke, &v_old), v_new)
}

/// The association map described by parallel key and value sequences,
/// later entries winning over earlier ones.
pub closed spec fn entries_map<A, B>(ks: Seq<A>, vs: Seq<B>) -> Map<A, B>
    decreases ks.len(),
{
    if ks.len() == 0 || vs.len() == 0 {
        Map::empty()
    } else {
        entries_map(ks.drop_last(), vs.drop_last()).insert(ks.last(), vs.last())
    }
}

/// The domain of `entries_map` is exactly the set of keys in the sequence.
pub proof fn lemma_entries_map_dom<A, B>(ks: Seq<A>, vs: Seq<B>)
    requires
        ks.len() == vs.len(),
    ensures
        forall|k: A| #[trigger] entries_map(ks, vs).dom().contains(k) <==> ks.contains(k),
    decreases ks.len(),
{
    if ks.len() == 0 {
        assert(forall|k: A| !ks.contains(k));
        assert(entries_map(ks, vs) =~= Map::<A, B>::empty());
    } else {
        let kd = ks.drop_last();
        let vd = vs.drop_last();
        lemma_entries_map_dom(kd, vd);
        assert(entries_map(ks, vs) == entries_map(kd, vd).insert(ks.last(), vs.last()));
        assert forall|k: A| #[trigger] entries_map(ks, vs).dom().contains(k) <==> ks.contains(k) by {
            if entries_map(ks, vs).dom().contains(k) {
                if k == ks.last() {
                    assert(ks[ks.len() - 1] == k);
                    assert(ks.contains(k));
                } else {
                    assert(entries_map(kd, vd).dom().contains(k));
                    assert(kd.contains(k));
                    let i = choose|i: int| 0 <= i < kd.len() && kd[i] == k;
                    assert(kd[i] == ks[i]);
                    assert(ks[i] == k);
                    assert(ks.contains(k));
                }
            }
            if ks.contains(k) {
                let i = choose|i: int| 0 <= i < ks.len() && ks[i] == k;
                if i < ks.len() - 1 {
                    assert(kd[i] == k);
                    assert(kd.contains(k));
                    assert(entries_map(kd, vd).dom().contains(k));
                    assert(entries_map(ks, vs).dom().contains(k));
                } else {
                    assert(k == ks.last());
                    assert(entries_map(ks, vs).dom().contains(k));
                }
            }
        }
    }
}

/// With distinct keys, `entries_map` sends the `i`th key to the `i`th value.
pub proof fn lemma_entries_map_index<A, B>(ks: Seq<A>, vs: Seq<B>, i: int)
    requires
        ks.len() == vs.len(),
        distinct_seq(ks),
        0 <= i < ks.len(),
    ensures
        entries_map(ks, vs).dom().contains(ks[i]),
        entries_map(ks, vs)[ks[i]] == vs[i],
    decreases ks.len(),
{
    lemma_entries_map_dom(ks, vs);
    assert(ks.contains(ks[i]));
    if i < ks.len() - 1 {
        lemma_entries_map_index(ks.drop_last(), vs.drop_last(), i);
        assert(ks.drop_last()[i] == ks[i]);
        assert(ks[i] != ks.last());
    }
}

/// With distinct keys, the map has exactly as many entries as the sequence.
pub proof fn lemma_entries_map_len<A, B>(ks: Seq<A>, vs: Seq<B>)
    requires
        ks.len() == vs.len(),
        distinct_seq(ks),
    ensures
        entries_map(ks, vs).dom().finite(),
        entries_map(ks, vs).len() == ks.len(),
    decreases ks.len(),
{
    if ks.len() > 0 {
        lemma_entries_map_len(ks.drop_last(), vs.drop_last());
        lemma_entries_map_dom(ks.drop_last(), vs.drop_last());
        assert(!ks.drop_last().contains(ks.last()));
    }
}

/// Updating the `i`th value is an `insert` of the `i`th key.
pub proof fn lemma_entries_map_update<A, B>(ks: Seq<A>, vs: Seq<B>, i: int, v: B)
    requires
        ks.len() == vs.len(),
        distinct_seq(ks),
        0 <= i < ks.len(),
    ensures
        entries_map(ks, vs.update(i, v)) =~= entries_map(ks, vs).insert(ks[i], v),
    decreases ks.len(),
{
    lemma_entries_map_dom(ks, vs);
    let n: int = ks.len() - 1;
    if i == n {
        assert(vs.update(i, v).drop_last() =~= vs.drop_last());
        assert(vs.update(i, v).last() == v);
    } else {
        lemma_entries_map_update(ks.drop_last(), vs.drop_last(), i, v);
        assert(vs.update(i, v).drop_last() =~= vs.drop_last().update(i, v));
        assert(vs.update(i, v).last() == vs.last());
        assert(ks.drop_last()[i] == ks[i]);
        assert(ks[i] != ks.last());
        assert(entries_map(ks.drop_last(), vs.drop_last()).insert(ks[i], v).insert(ks.last(), vs.last())
            =~= entries_map(ks.drop_last(), vs.drop_last()).insert(ks.last(), vs.last()).insert(ks[i], v));
    }
}

/// Removing the `i`th entry of both sequences is a `remove` of the `i`th key.
pub proof fn lemma_entries_map_remove<A, B>(ks: Seq<A>, vs: Seq<B>, i: int)
    requires
        ks.len() == vs.len(),
        distinct_seq(ks),
        0 <= i < ks.len(),
    ensures
        entries_map(ks.remove(i), vs.remove(i)) =~= entries_map(ks, vs).remove(ks[i]),
    decreases ks.len(),
{
    lemma_entries_map_dom(ks, vs);
    let n: int = ks.len() - 1;
    if i == n {
        assert(ks.remove(i) =~= ks.drop_last());
        assert(vs.remove(i) =~= vs.drop_last());
        lemma_entries_map_dom(ks.drop_last(), vs.drop_last());
        assert(!ks.drop_last().contains(ks.last()));
        assert(entries_map(ks.drop_last(), vs.drop_last()).insert(ks.last(), vs.last()).remove(ks[i])
            =~= entries_map(ks.drop_last(), vs.drop_last()));
    } else {
        lemma_entries_map_remove(ks.drop_last(), vs.drop_last(), i);
        assert(ks.remove(i).drop_last() =~= ks.drop_last().remove(i));
        assert(vs.remove(i).drop_last() =~= vs.drop_last().remove(i));
        assert(ks.remove(i).last() == ks.last());
        assert(vs.remove(i).last() == vs.last());
        assert(ks.drop_last()[i] == ks[i]);
        assert(ks[i] != ks.last());
        assert(entries_map(ks.drop_last(), vs.drop_last()).remove(ks[i]).insert(ks.last(), vs.last())
            =~= entries_map(ks.drop_last(), vs.drop_last()).insert(ks.last(), vs.last()).remove(ks[i]));
    }
}

/// A flat map: keys and values in two parallel vectors, scanned linearly.
/// Cheap for small sizes; the sharded map uses one per shard.
pub struct VecMap<K: MapKey, V> {
    keys: Vec<K>,
    values: Vec<V>,
}

impl<K: MapKey, V> View for VecMap<K, V> {
    type V = Map<K::V, V>;

    closed spec fn view(&self) -> Map<K::V, V> {
        entries_map(self.key_views(), self.values@)
    }
}

impl<K: MapKey, V> VecMap<K, V> {
    /// The keys' abstract values in storage order.
    pub closed spec fn key_views(self) -> Seq<K::V> {
        self.keys@.map_values(|k: K| k@)
    }

    /// The stored values in storage order.
    pub closed spec fn value_seq(self) -> Seq<V> {
        self.values@
    }

    /// Well-formed: as many values as keys, and no key stored twice.
    pub closed spec fn wf(self) -> bool {
        &&& self.keys@.len() == self.values@.len()
        &&& distinct_seq(self.key_views())
    }

    /// A well-formed map stores each key at most once.
    pub proof fn lemma_distinct(self)
        requires
            self.wf(),
        ensures
            distinct_seq(self.key_views()),
            self.key_views().len() == self.value_seq().len(),
    {
    }

    /// The `i`th stored key is mapped to the `i`th stored value.
    pub proof fn lemma_index(self, i: int)
        requires
            self.wf(),
            0 <= i < self.key_views().len(),
        ensures
            self.key_views().len() == self.value_seq().len(),
            self@.dom().contains(self.key_views()[i]),
            self@[self.key_views()[i]] == self.value_seq()[i],
    {
        lemma_entries_map_index(self.key_views(), self.values@, i);
    }

    /// The number of stored entries equals the size of the abstract map.
    pub proof fn lemma_len(self)
        requires
            self.wf(),
        ensures
            self@.len() == self.key_views().len(),
            self@.dom().finite(),
            forall|k: K::V| #[trigger] self@.dom().contains(k) <==> self.key_views().contains(k),
    {
        lemma_entries_map_len(self.key_views(), self.values@);
        lemma_entries_map_dom(self.key_views(), self.values@);
    }

    pub fn new() -> (r: Self)
        ensures
            r.wf(),
            r@ == Map::<K::V, V>::empty(),
            r.key_views() == Seq::<K::V>::empty(),
    {
        Self { keys: Vec::new(), values: Vec::new() }
    }

    pub fn with_capacity(c: usize) -> (r: Self)
        ensures
            r.wf(),
            r@ == Map::<K::V, V>::empty(),
            r.key_views() == Seq::<K::V>::empty(),
    {
        Self { keys: Vec::with_capacity(c), values: Vec::with_capacity(c) }
    }

    /// Whether this map is still within the size bound under which the flat
    /// representation is used.
    pub fn should_convert(&self) -> (r: bool)
        requires
            self.wf(),
        ensures
            r == (self@.len() <= THRESHOLD),
    {
        proof {
            self.lemma_len();
        }
        self.keys.len() <= THRESHOLD
    }

    pub fn len(&self) -> (r: usize)
        requires
            self.wf(),
        ensures
            r == self@.len(),
    {
        proof {
            self.lemma_len();
        }
        self.keys.len()
    }

    /// Index of the entry holding `k`, if one does.
    fn find(&self, k: &K) -> (r: Option<usize>)
        requires
            self.wf(),
        ensures
            match r {
                Some(i) => i < self.key_views().len() && self.key_views()[i as int] == k@,
                None => !self.key_views().contains(k@),
            },
    {
        let n: usize = self.keys.len();
        let mut i: usize = 0;
        while i < n
            invariant
                n == self.keys@.len(),
                i <= n,
                self.wf(),
                forall|j: int| 0 <= j < i ==> self.key_views()[j] != k@,
            decreases n - i,
        {
            if self.keys[i].key_eq(k) {
                assert(self.key_views()[i as int] == k@);
                return Some(i);
            }
            i += 1;
        }
        None
    }

    /// Place `(k, v)`, replacing any prior value for `k`; returns the new
    /// key together with the replaced value when one existed.
    pub fn insert(&mut self, k: K, v: V) -> (r: Option<(K, V)>)
        requires
            old(self).wf(),
        ensures
            final(self).wf(),
            final(self)@ == old(self)@.insert(k@, v),
            match r {
                Some(p) => old(self)@.dom().contains(k@) && p.0@ == k@ && p.1 == old(self)@[k@],
                None => !old(self)@.dom().contains(k@),
            },
    {
        proof {
            self.lemma_len();
        }
        match self.find(&k) {
            Some(i) => {
                proof {
                    lemma_entries_map_index(self.key_views(), self.values@, i as int);
                    lemma_entries_map_update(self.key_views(), self.values@, i as int, v);
                }
                let mut v2 = v;
                let slot = &mut self.values[i];
                core::mem::swap(slot, &mut v2);
                Some((k, v2))
            },
            None => {
                let ghost ks0 = self.key_views();
                let ghost vs0 = self.values@;
                self.keys.push(k);
                self.values.push(v);
                proof {
                    assert(self.key_views() =~= ks0.push(k@));
                    assert(self.key_views().drop_last() =~= ks0);
                    assert(self.values@.drop_last() =~= vs0);
                    assert(forall|j: int| 0 <= j < ks0.len() ==> ks0[j] != k@);
                }
                None
            },
        }
    }

    /// Remove the entry for `k`, returning the stored key and value; the
    /// remaining entries keep their storage order.
    pub fn remove(&mut self, k: &K) -> (r: Option<(K, V)>)
        requires
            old(self).wf(),
        ensures
            final(self).wf(),
            final(self)@ == old(self)@.remove(k@),
            match r {
                Some(p) => {
                    &&& old(self)@.dom().contains(k@)
                    &&& p.0@ == k@
                    &&& p.1 == old(self)@[k@]
                    &&& exists|i: int|
                        0 <= i < old(self).key_views().len() && #[trigger] old(self).key_views()[i]
                            == k@ && final(self).key_views() == old(self).key_views().remove(i)
                            && final(self).value_seq() == old(self).value_seq().remove(i)
                },
                None => !old(self)@.dom().contains(k@) && *final(self) == *old(self),
            },
    {
        proof {
            self.lemma_len();
        }
        match self.find(k) {
            Some(i) => {
                proof {
                    lemma_entries_map_index(self.key_views(), self.values@, i as int);
                    lemma_entries_map_remove(self.key_views(), self.values@, i as int);
                    assert(self.keys@.remove(i as int).map_values(|x: K| x@)
                        =~= self.key_views().remove(i as int));
                }
                let ghost iw = i as int;
                let k1 = self.keys.remove(i);
                let v1 = self.values.remove(i);
                proof {
                    assert(old(self).key_views()[iw] == k@);
                    assert(self.key_views() =~= old(self).key_views().remove(iw));
                    assert(self.value_seq() =~= old(self).value_seq().remove(iw));
                }
                Some((k1, v1))
            },
            None => {
                proof {
                    assert(old(self)@.remove(k@) =~= old(self)@);
                }
                None
            },
        }
    }

    /// A shared borrow of the value stored for `k`.
    pub fn get(&self, k: &K) -> (r: Option<&V>)
        requires
            self.wf(),
        ensures
            match r {
                Some(v) => self@.dom().contains(k@) && *v == self@[k@],
                None => !self@.dom().contains(k@),
            },
    {
        proof {
            self.lemma_len();
        }
        match self.find(k) {
            Some(i) => {
                proof {
                    lemma_entries_map_index(self.key_views(), self.values@, i as int);
                }
                Some(&self.values[i])
            },
            None => None,
        }
    }

    /// A unique borrow of the value stored for `k`.
    pub fn get_mut(&mut self, k: &K) -> (r: Option<&mut V>)
        requires
            old(self).wf(),
        ensures
            match r {
                Some(v) => {
                    &&& old(self)@.dom().contains(k@)
                    &&& *v == old(self)@[k@]
                    &&& final(self).wf()
                    &&& final(self)@ == old(self)@.insert(k@, *final(v))
                    &&& final(self).key_views() == old(self).key_views()
                },
                None => !old(self)@.dom().contains(k@) && *final(self) == *old(self),
            },
    {
        proof {
            self.lemma_len();
        }
        match self.find(k) {
            Some(i) => {
                proof {
                    lemma_entries_map_index(self.key_views(), self.values@, i as int);
                    lemma_entries_map_update(self.key_views(), self.values@, i as int, old(self)@[k@]);
                }
                let ghost ks0 = self.key_views();
                let ghost vs0 = self.values@;
                let slot = &mut self.values[i];
                proof {
                    lemma_entries_map_update(ks0, vs0, i as int, *final(slot));
                }
                Some(slot)
            },
            None => None,
        }
    }

    /// Borrow the stored key and value for `k`.
    pub fn get_entry(&self, k: &K) -> (r: Option<(&K, &V)>)
        requires
            self.wf(),
        ensures
            match r {
                Some(p) => self@.dom().contains(k@) && p.0@ == k@ && *p.1 == self@[k@],
                None => !self@.dom().contains(k@),
            },
    {
        proof {
            self.lemma_len();
        }
        match self.find(k) {
            Some(i) => {
                proof {
                    lemma_entries_map_index(self.key_views(), self.values@, i as int);
                }
                Some((&self.keys[i], &self.values[i]))
            },
            None => None,
        }
    }

    /// Whether an entry for `k` is stored.
    pub fn contains_key(&self, k: &K) -> (r: bool)
        requires
            self.wf(),
        ensures
            r == self@.dom().contains(k@),
    {
        proof {
            self.lemma_len();
        }
        self.find(k).is_some()
    }

    /// Borrow every entry in storage order.
    pub fn iter(&self) -> (r: Vec<(&K, &V)>)
        requires
            self.wf(),
        ensures
            r@.len() == self@.len(),
            forall|i: int| 0 <= i < r@.len()
                ==> (#[trigger] r@[i].0)@ == self.key_views()[i] && *r@[i].1 == self.value_seq()[i],
    {
        proof {
            self.lemma_len();
        }
        let n: usize = self.keys.len();
        let mut r: Vec<(&K, &V)> = Vec::new();
        let mut i: usize = 0;
        while i < n
            invariant
                n == self.keys@.len(),
                self.wf(),
                i <= n,
                r@.len() == i,
                forall|j: int| 0 <= j < i
                    ==> (#[trigger] r@[j].0)@ == self.key_views()[j] && *r@[j].1 == self.value_seq()[j],
            decreases n - i,
        {
            r.push((&self.keys[i], &self.values[i]));
            i += 1;
        }
        r
    }

    /// The key stored at position `i`.
    pub fn key_at(&self, i: usize) -> (r: &K)
        requires
            self.wf(),
            i < self.key_views().len(),
        ensures
            r@ == self.key_views()[i as int],
            self@.dom().contains(r@),
            self@[r@] == self.value_seq()[i as int],
    {
        proof {
            lemma_entries_map_index(self.key_views(), self.values@, i as int);
        }
        &self.keys[i]
    }

    /// The value stored at position `i`.
    pub fn value_at(&self, i: usize) -> (r: &V)
        requires
            self.wf(),
            i < self.key_views().len(),
        ensures
            *r == self.value_seq()[i as int],
    {
        &self.values[i]
    }

    /// A unique borrow of the value stored at position `i`.
    pub fn value_at_mut(&mut self, i: usize) -> (r: &mut V)
        requires
            old(self).wf(),
            i < old(self).key_views().len(),
        ensures
            *r == old(self).value_seq()[i as int],
            final(self).wf(),
            final(self).key_views() == old(self).key_views(),
            final(self).value_seq() == old(self).value_seq().update(i as int, *final(r)),
            final(self)@ == old(self)@.insert(old(self).key_views()[i as int], *final(r)),
    {
        proof {
            lemma_entries_map_index(self.key_views(), self.values@, i as int);
            lemma_entries_map_update(self.key_views(), self.values@, i as int, self.values@[i as int]);
        }
        let ghost ks0 = self.key_views();
        let ghost vs0 = self.values@;
        let slot = &mut self.values[i];
        proof {
            lemma_entries_map_update(ks0, vs0, i as int, *final(slot));
        }
        slot
    }
}

} // verus!

verus! {

impl<K: MapKey, V> VecMap<K, V> {
    /// Drop every entry.
    pub fn clear(&mut self)
        ensures
            final(self).wf(),
            final(self)@ == Map::<K::V, V>::empty(),
            final(self).key_views() == Seq::<K::V>::empty(),
    {
        self.keys.clear();
        self.values.clear();
        proof {
            assert(final(self)@ =~= Map::<K::V, V>::empty());
            assert(final(self).key_views() =~= Seq::<K::V>::empty());
        }
    }

    /// Keep exactly the entries for which `f` returned true when visited.
    pub fn retain<F: Fn(&K, &V) -> bool>(&mut self, f: &F)
        requires
            old(self).wf(),
            forall|k: &K, v: &V| call_requires(*f, (k, v)),
        ensures
            final(self).wf(),
            forall|kv: K::V| #[trigger] final(self)@.dom().contains(kv)
                ==> old(self)@.dom().contains(kv) && final(self)@[kv] == old(self)@[kv],
            forall|kv: K::V| #[trigger] old(self)@.dom().contains(kv)
                ==> pred_outcome(*f, kv, old(self)@[kv], final(self)@.dom().contains(kv)),
    {
        let ghost orig_k = old(self).key_views();
        let ghost orig_v = old(self).value_seq();
        let mut i: usize = 0;
        let ghost mut m: int = 0;
        while i < self.keys.len()
            invariant
                self.wf(),
                forall|k: &K, v: &V| call_requires(*f, (k, v)),
                i <= self.key_views().len(),
                i <= m <= orig_k.len(),
                orig_k.len() == orig_v.len(),
                distinct_seq(orig_k),
                self.key_views().skip(i as int) =~= orig_k.skip(m),
                self.value_seq().skip(i as int) =~= orig_v.skip(m),
                forall|p: int| 0 <= p < i ==> exists|q: int|
                    0 <= q < m && orig_k[q] == #[trigger] self.key_views()[p]
                        && orig_v[q] == self.value_seq()[p],
                forall|q: int| #![trigger orig_k[q]] 0 <= q < m
                    ==> pred_outcome(*f, orig_k[q], orig_v[q],
                        self.key_views().take(i as int).contains(orig_k[q])),
            decreases self.keys@.len() - i,
        {
            let ghost pre = *self;
            proof {
                assert(self.key_views().skip(i as int).len() == orig_k.skip(m).len());
                assert(m < orig_k.len());
                vstd::seq_lib::lemma_seq_skip_index(self.key_views(), i as int, 0);
                vstd::seq_lib::lemma_seq_skip_index(orig_k, m, 0);
                vstd::seq_lib::lemma_seq_skip_index(self.value_seq(), i as int, 0);
                vstd::seq_lib::lemma_seq_skip_index(orig_v, m, 0);
                assert(self.key_views().skip(i as int)[0] == orig_k.skip(m)[0]);
                assert(self.key_views()[i as int] == orig_k[m]);
                assert(self.value_seq().skip(i as int)[0] == orig_v.skip(m)[0]);
                assert(self.value_seq()[i as int] == orig_v[m]);
            }
            let keep = f(&self.keys[i], &self.values[i]);
            let ghost cur_key = self.keys@[i as int];
            if keep {
                i += 1;
                proof {
                    assert forall|j: int| 0 <= j < self.key_views().skip(i as int).len()
                        implies #[trigger] self.key_views().skip(i as int)[j] == orig_k.skip(
                        m + 1,
                    )[j] by {
                        vstd::seq_lib::lemma_seq_skip_index(self.key_views(), i as int, j);
                        vstd::seq_lib::lemma_seq_skip_index(orig_k, m + 1, j);
                        vstd::seq_lib::lemma_seq_skip_index(self.key_views(), i - 1, j + 1);
                        vstd::seq_lib::lemma_seq_skip_index(orig_k, m, j + 1);
                        assert(self.key_views().skip(i - 1)[j + 1] == orig_k.skip(m)[j + 1]);
                    }
                    assert(self.key_views().skip(i as int) =~= orig_k.skip(m + 1));
                    assert forall|j: int| 0 <= j < self.value_seq().skip(i as int).len()
                        implies #[trigger] self.value_seq().skip(i as int)[j] == orig_v.skip(
                        m + 1,
                    )[j] by {
                        vstd::seq_lib::lemma_seq_skip_index(self.value_seq(), i as int, j);
                        vstd::seq_lib::lemma_seq_skip_index(orig_v, m + 1, j);
                        vstd::seq_lib::lemma_seq_skip_index(self.value_seq(), i - 1, j + 1);
                        vstd::seq_lib::lemma_seq_skip_index(orig_v, m, j + 1);
                        assert(self.value_seq().skip(i - 1)[j + 1] == orig_v.skip(m)[j + 1]);
                    }
                    assert(self.value_seq().skip(i as int) =~= orig_v.skip(m + 1));
                    assert(self.key_views().take(i as int)
                        =~= pre.key_views().take(i - 1).push(orig_k[m]));
                    assert forall|q: int| #![trigger orig_k[q]] 0 <= q < m + 1
                        implies pred_outcome(*f, orig_k[q], orig_v[q],
                        self.key_views().take(i as int).contains(orig_k[q])) by {
                        if q < m {
                            assert(orig_k[q] != orig_k[m]);
                            assert(self.key_views().take(i as int).contains(orig_k[q])
                                == pre.key_views().take(i - 1).contains(orig_k[q])) by {
                                if pre.key_views().take(i - 1).contains(orig_k[q]) {
                                    let p = choose|p: int|
                                        0 <= p < i - 1 && #[trigger] pre.key_views().take(
                                            i - 1,
                                        )[p] == orig_k[q];
                                    assert(self.key_views().take(i as int)[p] == orig_k[q]);
                                }
                                if self.key_views().take(i as int).contains(orig_k[q]) {
                                    let p = choose|p: int|
                                        0 <= p < i && #[trigger] self.key_views().take(
                                            i as int,
                                        )[p] == orig_k[q];
                                    assert(p < i - 1 || self.key_views()[p] == orig_k[m]);
                                    assert(p < i - 1);
                                    assert(pre.key_views().take(i - 1)[p] == orig_k[q]);
                                }
                            }
                        } else {
                            assert(cur_key@ == orig_k[m]);
                            assert(call_ensures(*f, (&cur_key, &orig_v[m]), true));
                            assert(self.key_views().take(i as int)[i - 1] == orig_k[m]);
                            assert(self.key_views().take(i as int).contains(orig_k[m]));
                            assert(pred_outcome(*f, orig_k[m], orig_v[m], true));
                        }
                    }
                    assert forall|p: int| #![trigger self.key_views()[p]] 0 <= p < i
                        implies exists|q: int|
                        0 <= q < m + 1 && orig_k[q] == self.key_views()[p]
                            && orig_v[q] == self.value_seq()[p] by {
                        if p == i - 1 {
                            assert(orig_k[m] == self.key_views()[p]);
                            assert(orig_v[m] == self.value_seq()[p]);
                        }
                    }
                    m = m + 1;
                }
            } else {
                proof {
                    lemma_entries_map_remove(self.key_views(), self.values@, i as int);
                    assert(self.keys@.remove(i as int).map_values(|x: K| x@)
                        =~= self.key_views().remove(i as int));
                }
                let k1 = self.keys.remove(i);
                let v1 = self.values.remove(i);
                proof {
                    assert(self.key_views() =~= pre.key_views().remove(i as int));
                    assert(self.value_seq() =~= pre.value_seq().remove(i as int));
                    assert(self.key_views().skip(i as int) =~= pre.key_views().skip(i + 1));
                    assert(self.value_seq().skip(i as int) =~= pre.value_seq().skip(i + 1));
                    assert forall|j: int| 0 <= j < pre.key_views().skip(i + 1).len()
                        implies #[trigger] pre.key_views().skip(i + 1)[j] == orig_k.skip(
                        m + 1,
                    )[j] by {
                        vstd::seq_lib::lemma_seq_skip_index(pre.key_views(), i + 1, j);
                        vstd::seq_lib::lemma_seq_skip_index(orig_k, m + 1, j);
                        vstd::seq_lib::lemma_seq_skip_index(pre.key_views(), i as int, j + 1);
                        vstd::seq_lib::lemma_seq_skip_index(orig_k, m, j + 1);
                        assert(pre.key_views().skip(i as int)[j + 1] == orig_k.skip(m)[j + 1]);
                    }
                    assert(pre.key_views().skip(i + 1) =~= orig_k.skip(m + 1));
                    assert forall|j: int| 0 <= j < pre.value_seq().skip(i + 1).len()
                        implies #[trigger] pre.value_seq().skip(i + 1)[j] == orig_v.skip(
                        m + 1,
                    )[j] by {
                        vstd::seq_lib::lemma_seq_skip_index(pre.value_seq(), i + 1, j);
                        vstd::seq_lib::lemma_seq_skip_index(orig_v, m + 1, j);
                        vstd::seq_lib::lemma_seq_skip_index(pre.value_seq(), i as int, j + 1);
                        vstd::seq_lib::lemma_seq_skip_index(orig_v, m, j + 1);
                        assert(pre.value_seq().skip(i as int)[j + 1] == orig_v.skip(m)[j + 1]);
                    }
                    assert(pre.value_seq().skip(i + 1) =~= orig_v.skip(m + 1));
                    assert(self.key_views().take(i as int) =~= pre.key_views().take(i as int));
                    assert(forall|p: int| 0 <= p < i
                        ==> #[trigger] self.key_views()[p] == pre.key_views()[p]
                            && self.value_seq()[p] == pre.value_seq()[p]);
                    assert(!self.key_views().take(i as int).contains(orig_k[m])) by {
                        if self.key_views().take(i as int).contains(orig_k[m]) {
                            let p = choose|p: int|
                                0 <= p < i && #[trigger] self.key_views().take(i as int)[p]
                                    == orig_k[m];
                            assert(pre.key_views()[p] == orig_k[m]);
                            let q = choose|q: int|
                                0 <= q < m && orig_k[q] == pre.key_views()[p]
                                    && orig_v[q] == pre.value_seq()[p];
                            assert(orig_k[q] == orig_k[m] && q != m);
                        }
                    }
                    assert forall|q: int| #![trigger orig_k[q]] 0 <= q < m + 1 implies exists|ke: K, b: bool| {
                        &&& ke@ == orig_k[q]
                        &&& #[trigger] call_ensures(*f, (&ke, &orig_v[q]), b)
                        &&& b == self.key_views().take(i as int).contains(orig_k[q])
                    } by {
                        if q < m {
                            let (ke0, b0) = choose|ke: K, b: bool| {
                                &&& ke@ == orig_k[q]
                                &&& #[trigger] call_ensures(*f, (&ke, &orig_v[q]), b)
                                &&& b == pre.key_views().take(i as int).contains(orig_k[q])
                            };
                            assert(self.key_views().take(i as int)
                                =~= pre.key_views().take(i as int));
                            assert(call_ensures(*f, (&ke0, &orig_v[q]), b0));
                        } else {
                            assert(k1 == cur_key);
                            assert(cur_key@ == orig_k[m]);
                            assert(v1 == orig_v[m]);
                            assert(call_ensures(*f, (&k1, &orig_v[m]), false));
                        }
                    }
                    m = m + 1;
                }
            }
        }
        proof {
            assert(i == self.key_views().len());
            assert(orig_k.skip(m).len() == 0);
            assert(m == orig_k.len());
            assert(self.key_views().take(i as int) =~= self.key_views());
            self.lemma_len();
            lemma_entries_map_dom(orig_k, orig_v);
            assert forall|kv: K::V| #[trigger] self@.dom().contains(kv)
                implies entries_map(orig_k, orig_v).dom().contains(kv)
                    && self@[kv] == entries_map(orig_k, orig_v)[kv] by {
                let p = choose|p: int|
                    0 <= p < self.key_views().len() && #[trigger] self.key_views()[p] == kv;
                lemma_entries_map_index(self.key_views(), self.values@, p);
                let q = choose|q: int|
                    0 <= q < m && orig_k[q] == self.key_views()[p]
                        && orig_v[q] == self.value_seq()[p];
                assert(orig_k[q] == kv);
                lemma_entries_map_index(orig_k, orig_v, q);
            }
            assert forall|kv: K::V| #[trigger]
                entries_map(orig_k, orig_v).dom().contains(kv) implies pred_outcome(
                *f,
                kv,
                entries_map(orig_k, orig_v)[kv],
                self@.dom().contains(kv),
            ) by {
                let q = choose|q: int| 0 <= q < orig_k.len() && #[trigger] orig_k[q] == kv;
                lemma_entries_map_index(orig_k, orig_v, q);
                assert(pred_outcome(*f, orig_k[q], orig_v[q],
                    self.key_views().take(i as int).contains(orig_k[q])));
                assert(self@.dom().contains(kv) == self.key_views().contains(kv));
                assert(self.key_views().take(i as int) =~= self.key_views());
            }
        }
    }

    /// Apply `f` to every entry, storing its result as the entry's new value.
    pub fn alter<F: Fn(&K, &V) -> V>(&mut self, f: &F)
        requires
            old(self).wf(),
            forall|k: &K, v: &V| call_requires(*f, (k, v)),
        ensures
            final(self).wf(),
            final(self).key_views() == old(self).key_views(),
            forall|kv: K::V| #[trigger] final(self)@.dom().contains(kv)
                <==> old(self)@.dom().contains(kv),
            forall|kv: K::V| #[trigger] old(self)@.dom().contains(kv)
                ==> alter_outcome(*f, kv, old(self)@[kv], final(self)@[kv]),
    {
        let ghost orig = *old(self);
        let n: usize = self.keys.len();
        let mut i: usize = 0;
        while i < n
            invariant
                self.wf(),
                forall|k: &K, v: &V| call_requires(*f, (k, v)),
                n == self.keys@.len(),
                i <= n,
                self.key_views() == orig.key_views(),
                orig.wf(),
                forall|p: int| i <= p < n
                    ==> #[trigger] self.value_seq()[p] == orig.value_seq()[p],
                forall|p: int| #![trigger orig.key_views()[p]] 0 <= p < i ==> exists|ke: K|
                    ke@ == orig.key_views()[p]
                        && call_ensures(*f, (&ke, &orig.value_seq()[p]),
                            self.value_seq()[p]),
            decreases n - i,
        {
            let ghost pre = *self;
            let nv = f(&self.keys[i], &self.values[i]);
            let ghost cur_key = self.keys@[i as int];
            let slot = self.value_at_mut(i);
            *slot = nv;
            proof {
                assert(self.value_seq() =~= pre.value_seq().update(i as int, nv));
                assert forall|p: int| #![trigger orig.key_views()[p]] 0 <= p < i + 1
                    implies exists|ke: K|
                    ke@ == orig.key_views()[p]
                        && call_ensures(*f, (&ke, &orig.value_seq()[p]),
                            self.value_seq()[p]) by {
                    if p == i {
                        assert(cur_key@ == orig.key_views()[p]);
                        assert(pre.value_seq()[p] == orig.value_seq()[p]);
                        assert(call_ensures(*f, (&cur_key, &orig.value_seq()[p]),
                            self.value_seq()[p]));
                    } else {
                        let ke0 = choose|ke: K|
                            ke@ == orig.key_views()[p]
                                && #[trigger] call_ensures(*f, (&ke, &orig.value_seq()[p]),
                                    pre.value_seq()[p]);
                        assert(self.value_seq()[p] == pre.value_seq()[p]);
                        assert(call_ensures(*f, (&ke0, &orig.value_seq()[p]),
                            self.value_seq()[p]));
                    }
                }
            }
            i += 1;
        }
        proof {
            self.lemma_len();
            orig.lemma_len();
            assert forall|kv: K::V| #[trigger] orig@.dom().contains(kv) implies alter_outcome(
                *f,
                kv,
                orig@[kv],
                self@[kv],
            ) by {
                let p = choose|p: int|
                    0 <= p < orig.key_views().len() && #[trigger] orig.key_views()[p] == kv;
                lemma_entries_map_index(orig.key_views(), orig.value_seq(), p);
                lemma_entries_map_index(self.key_views(), self.values@, p);
                let ke0 = choose|ke: K|
                    ke@ == orig.key_views()[p]
                        && #[trigger] call_ensures(*f, (&ke, &orig.value_seq()[p]),
                            self.value_seq()[p]);
                assert(call_ensures(*f, (&ke0, &orig@[kv]), self@[kv]));
            }
        }
    }
}

} // verus!
