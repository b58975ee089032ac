//! The nested hash table: a map made of hash-addressed levels, each slot
//! holding nothing, one entry, or a deeper level under a fresh salt. The
//! guard-taking variants accept a pre-acquired epoch pin so callers can
//! amortize pinning over many operations.

pub mod raw;

use vstd::prelude::*;

verus! {

use crate::dashmap::clamp_to_usize;
use crate::key::MapKey;

pub use crate::stack::aquire_guard;

/// A reference to one entry of a `NestedMap`, holding its epoch pin for as
/// long as it lives.
pub struct TableRef<'a, K: MapKey, V> {
    guard: crossbeam_epoch::Guard,
    k: &'a K,
    v: &'a V,
}

impl<'a, K: MapKey, V> TableRef<'a, K, V> {
    /// The entry's abstract key.
    pub closed spec fn key_view(self) -> K::V {
        self.k@
    }

    /// The entry's value.
    pub closed spec fn value_view(self) -> V {
        *self.v
    }

    /// The key of the entry.
    pub fn key(&self) -> (r: &K)
        ensures
            r@ == self.key_view(),
    {
        self.k
    }

    /// The value of the entry.
    pub fn value(&self) -> (r: &V)
        ensures
            *r == self.value_view(),
    {
        self.v
    }
}

/// The nested map: a root table of `raw::TABLE_SIZE` slots, each colliding
/// pair of entries pushed into deeper levels under fresh salts.
pub struct NestedMap<K: MapKey, V> {
    root: raw::Table<K, V>,
}

impl<K: MapKey, V> View for NestedMap<K, V> {
    type V = Map<K::V, V>;

    closed spec fn view(&self) -> Map<K::V, V> {
        raw::table_view(self.root, raw::MAX_DEPTH as nat)
    }
}

impl<K: MapKey, V> NestedMap<K, V> {
    /// Well-formed: the root table is, within the depth budget.
    pub closed spec fn wf(self) -> bool {
        raw::table_wf(self.root, raw::MAX_DEPTH as nat)
    }

    pub fn new() -> (r: Self)
        ensures
            r.wf(),
            r@ == Map::<K::V, V>::empty(),
    {
        Self { root: raw::Table::empty() }
    }

    /// Place `(key, value)`, replacing any prior value for the key.
    pub fn insert(&mut self, key: K, value: V)
        requires
            old(self).wf(),
        ensures
            final(self).wf(),
            final(self)@ == old(self)@.insert(key@, value),
    {
        let guard = aquire_guard();
        self.insert_with_guard(key, value, &guard);
    }

    /// As `insert`, under a caller-held epoch pin. The entry is tagged with
    /// a fresh random tag for the slot allocator's pool selection.
    pub fn insert_with_guard(&mut self, key: K, value: V, guard: &crossbeam_epoch::Guard)
        requires
            old(self).wf(),
        ensures
            final(self).wf(),
            final(self)@ == old(self)@.insert(key@, value),
    {
        let _ = guard;
        let tag: u8 = crate::util::random_u8();
        self.root.insert(key, value, tag, raw::MAX_DEPTH);
    }

    /// A guarded reference to the entry for `key`, if present.
    pub fn get<'a>(&'a self, key: &K) -> (r: Option<TableRef<'a, K, V>>)
        requires
            self.wf(),
        ensures
            match r {
                Some(g) => self@.dom().contains(key@) && g.key_view() == key@ && g.value_view()
                    == self@[key@],
                None => !self@.dom().contains(key@),
            },
    {
        let guard = aquire_guard();
        self.get_with_guard(key, guard)
    }

    /// As `get`, consuming a caller-acquired epoch pin.
    pub fn get_with_guard<'a>(&'a self, key: &K, guard: crossbeam_epoch::Guard) -> (r: Option<
        TableRef<'a, K, V>,
    >)
        requires
            self.wf(),
        ensures
            match r {
                Some(g) => self@.dom().contains(key@) && g.key_view() == key@ && g.value_view()
                    == self@[key@],
                None => !self@.dom().contains(key@),
            },
    {
        match self.root.get(key, raw::MAX_DEPTH) {
            Some((k, v)) => Some(TableRef { guard, k, v }),
            None => None,
        }
    }

    /// Remove any entry for `key`.
    pub fn remove(&mut self, key: &K)
        requires
            old(self).wf(),
        ensures
            final(self).wf(),
            final(self)@ == old(self)@.remove(key@),
    {
        let guard = aquire_guard();
        self.remove_with_guard(key, &guard);
    }

    /// As `remove`, under a caller-held epoch pin.
    pub fn remove_with_guard(&mut self, key: &K, guard: &crossbeam_epoch::Guard)
        requires
            old(self).wf(),
        ensures
            final(self).wf(),
            final(self)@ == old(self)@.remove(key@),
    {
        let _ = guard;
        self.root.remove(key, raw::MAX_DEPTH);
    }

    /// Whether the map holds `key`.
    pub fn contains_key(&self, key: &K) -> (r: bool)
        requires
            self.wf(),
        ensures
            r == self@.dom().contains(key@),
    {
        self.root.contains_key(key, raw::MAX_DEPTH)
    }

    /// Borrow every entry of the map, each exactly once.
    pub fn iter(&self) -> (r: Vec<(&K, &V)>)
        requires
            self.wf(),
        ensures
            r@.len() == self@.len(),
            forall|p: int|
                0 <= p < r@.len() ==> self@.dom().contains((#[trigger] r@[p]).0@) && *r@[p].1
                    == self@[r@[p].0@],
            forall|p: int, q: int| 0 <= p < q < r@.len() ==> (#[trigger] r@[p]).0@ != (
            #[trigger] r@[q]).0@,
    {
        let mut out: Vec<(&K, &V)> = Vec::new();
        self.root.collect_pairs(raw::MAX_DEPTH, &mut out);
        out
    }

    /// The number of entries, clamped into a machine word.
    pub fn len(&self) -> (r: usize)
        requires
            self.wf(),
        ensures
            r == clamp_to_usize(self@.len()),
    {
        self.root.len(raw::MAX_DEPTH)
    }

    /// Whether the map holds no entries.
    pub fn is_empty(&self) -> (r: bool)
        requires
            self.wf(),
        ensures
            r == (self@.len() == 0),
    {
        self.len() == 0
    }
}

impl<K: MapKey, V> Default for NestedMap<K, V> {
    fn default() -> (r: Self)
        ensures
            r.wf(),
            r@ == Map::<K::V, V>::empty(),
    {
        Self::new()
    }
}

} // verus!
