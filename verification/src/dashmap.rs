//! The sharded hash map: a table split into `2^k` independently held
//! sub-tables, each owning the keys that the keyed hash routes to it.

use vstd::prelude::*;

verus! {

use crate::key::MapKey;
use crate::util::random_u64;
use crate::vecmap::VecMap;

/// Union of a sequence of maps, later maps winning on shared keys.
pub closed spec fn union_seq<A, B>(ms: Seq<Map<A, B>>) -> Map<A, B>
    decreases ms.len(),
{
    if ms.len() == 0 {
        Map::empty()
    } else {
        union_seq(ms.drop_last()).union_prefer_right(ms.last())
    }
}

/// A key is in the union exactly when some map of the sequence holds it.
pub proof fn lemma_union_seq_contains<A, B>(ms: Seq<Map<A, B>>, k: A)
    ensures
        union_seq(ms).dom().contains(k) <==> exists|i: int|
            0 <= i < ms.len() && (#[trigger] ms[i].dom().contains(k)),
    decreases ms.len(),
{
    if ms.len() == 0 {
        assert(union_seq(ms) =~= Map::<A, B>::empty());
    } else {
        let md = ms.drop_last();
        lemma_union_seq_contains(md, k);
        assert(union_seq(ms) == union_seq(md).union_prefer_right(ms.last()));
        if union_seq(ms).dom().contains(k) {
            if ms.last().dom().contains(k) {
                assert(ms[ms.len() - 1].dom().contains(k));
            } else {
                assert(union_seq(md).dom().contains(k));
                let i = choose|i: int| 0 <= i < md.len() && (#[trigger] md[i].dom().contains(k));
                assert(ms[i].dom().contains(k));
            }
        }
        if exists|i: int| 0 <= i < ms.len() && (#[trigger] ms[i].dom().contains(k)) {
            let i = choose|i: int| 0 <= i < ms.len() && (#[trigger] ms[i].dom().contains(k));
            if i == ms.len() - 1 {
                assert(ms.last().dom().contains(k));
            } else {
                assert(md[i].dom().contains(k));
                assert(union_seq(md).dom().contains(k));
            }
            assert(union_seq(ms).dom().contains(k));
        }
    }
}

/// When exactly one map of the sequence holds a key, the union agrees with it.
pub proof fn lemma_union_seq_get<A, B>(ms: Seq<Map<A, B>>, i: int, k: A)
    requires
        0 <= i < ms.len(),
        ms[i].dom().contains(k),
        forall|j: int| 0 <= j < ms.len() && j != i ==> !(#[trigger] ms[j].dom().contains(k)),
    ensures
        union_seq(ms).dom().contains(k),
        union_seq(ms)[k] == ms[i][k],
    decreases ms.len(),
{
    let md = ms.drop_last();
    assert(union_seq(ms) == union_seq(md).union_prefer_right(ms.last()));
    if i == ms.len() - 1 {
        assert(ms.last().dom().contains(k));
    } else {
        assert(md[i] == ms[i]);
        assert(forall|j: int| 0 <= j < md.len() && j != i ==> !(#[trigger] md[j].dom().contains(k)));
        lemma_union_seq_get(md, i, k);
        assert(!ms[ms.len() - 1].dom().contains(k));
        assert(!ms.last().dom().contains(k));
    }
}

/// Sum of the sizes of the maps of the sequence.
pub open spec fn sum_lens<A, B>(ms: Seq<Map<A, B>>) -> nat
    decreases ms.len(),
{
    if ms.len() == 0 {
        0
    } else {
        sum_lens(ms.drop_last()) + ms.last().len()
    }
}

/// For pairwise-disjoint finite maps, the union's size is the sum of sizes.
pub proof fn lemma_union_seq_len<A, B>(ms: Seq<Map<A, B>>)
    requires
        forall|i: int| 0 <= i < ms.len() ==> (#[trigger] ms[i].dom().finite()),
        forall|i: int, j: int, k: A|
            0 <= i < ms.len() && 0 <= j < ms.len() && i != j && (#[trigger] ms[i].dom().contains(
                k,
            )) ==> !(#[trigger] ms[j].dom().contains(k)),
    ensures
        union_seq(ms).dom().finite(),
        union_seq(ms).len() == sum_lens(ms),
    decreases ms.len(),
{
    if ms.len() == 0 {
        assert(union_seq(ms) =~= Map::<A, B>::empty());
    } else {
        let md = ms.drop_last();
        assert(forall|i: int| 0 <= i < md.len() ==> #[trigger] md[i] == ms[i]);
        lemma_union_seq_len(md);
        assert(union_seq(ms) == union_seq(md).union_prefer_right(ms.last()));
        assert forall|k: A| #[trigger]
            union_seq(md).dom().contains(k) implies !ms.last().dom().contains(k) by {
            lemma_union_seq_contains(md, k);
            let i = choose|i: int| 0 <= i < md.len() && (#[trigger] md[i].dom().contains(k));
            assert(ms[i].dom().contains(k));
            assert(ms[ms.len() - 1] == ms.last());
        }
        assert(union_seq(md).dom().disjoint(ms.last().dom()));
        assert(ms[ms.len() - 1] == ms.last());
        assert(ms.last().dom().finite());
        vstd::map_lib::lemma_disjoint_union_size(union_seq(md), ms.last());
        vstd::map_lib::lemma_union_dom(union_seq(md), ms.last());
        vstd::set::axiom_set_union_finite(union_seq(md).dom(), ms.last().dom());
    }
}

/// A error possibly returned by the try_get family of methods.
#[derive(Clone, Copy, PartialEq, Eq, Structural, Debug)]
pub enum TryGetError {
    /// Returned if the key did not exist in the map.
    InvalidKey,
    /// Returned if the operation was going to block.
    WouldBlock,
    /// Returned if the lock did not become available within the specified timeout.
    DidNotResolve,
}

/// Alias for a Result with TryGetError as its error type.
pub type TryGetResult<T> = Result<T, TryGetError>;

/// The sharded map. Keys are routed to one of `2^ncb` sub-tables by the top
/// bits of a keyed 64-bit hash, so that every key is owned by exactly one
/// shard; the shard count is fixed at construction.
pub struct DashMap<K: MapKey, V> {
    ncb: usize,
    submaps: Vec<VecMap<K, V>>,
    hash_nonce: u64,
}

impl<K: MapKey, V> View for DashMap<K, V> {
    type V = Map<K::V, V>;

    closed spec fn view(&self) -> Map<K::V, V> {
        union_seq(self.shard_views())
    }
}

impl<K: MapKey, V> DashMap<K, V> {
    /// The abstract contents of each shard, in shard order.
    pub closed spec fn shard_views(self) -> Seq<Map<K::V, V>> {
        self.submaps@.map_values(|m: VecMap<K, V>| m@)
    }

    /// The shard that owns a key: the top `ncb` bits of its keyed hash.
    pub closed spec fn shard_of(self, k: K::V) -> int {
        if self.ncb == 0 {
            0
        } else {
            (K::hash_spec(k, self.hash_nonce) >> ((64 - self.ncb) as u64)) as int
        }
    }

    /// Well-formed: `2^ncb` shards, each internally consistent and holding
    /// exactly the keys that hash-route to it.
    pub closed spec fn wf(self) -> bool {
        &&& self.ncb <= 62
        &&& self.submaps@.len() == (1u64 << (self.ncb as u64)) as int
        &&& forall|i: int|
            0 <= i < self.submaps@.len() ==> (#[trigger] self.submaps@[i]).wf()
        &&& forall|i: int, k: K::V|
            0 <= i < self.submaps@.len() && (#[trigger] self.submaps@[i]@.dom().contains(k))
                ==> self.shard_of(k) == i
    }

    /// The number of shards.
    pub closed spec fn spec_chunks_count(self) -> int {
        self.submaps@.len() as int
    }

    /// Each key's owning shard index is a valid shard index.
    proof fn lemma_shard_of_bounds(self, k: K::V)
        requires
            self.wf(),
        ensures
            0 <= self.shard_of(k) < self.submaps@.len(),
    {
        if self.ncb != 0 {
            let h: u64 = K::hash_spec(k, self.hash_nonce);
            let n = self.ncb as u64;
            assert(h >> ((64 - n) as u64) < (1u64 << n)) by (bit_vector)
                requires
                    1 <= n <= 62,
            ;
        } else {
            assert((1u64 << 0u64) == 1u64) by (bit_vector);
        }
    }

    /// Membership and value of the whole map, read through the owning shard.
    proof fn lemma_route(self, k: K::V)
        requires
            self.wf(),
        ensures
            0 <= self.shard_of(k) < self.submaps@.len(),
            self@.dom().contains(k) <==> self.shard_views()[self.shard_of(k)].dom().contains(k),
            self@.dom().contains(k) ==> self@[k] == self.shard_views()[self.shard_of(k)][k],
    {
        self.lemma_shard_of_bounds(k);
        let s: int = self.shard_of(k);
        let ms = self.shard_views();
        lemma_union_seq_contains(ms, k);
        if ms[s].dom().contains(k) {
            assert(forall|j: int|
                0 <= j < ms.len() && j != s ==> !(#[trigger] ms[j].dom().contains(k)));
            lemma_union_seq_get(ms, s, k);
        } else {
            assert forall|i: int| 0 <= i < ms.len() implies !(#[trigger] ms[i].dom().contains(k)) by {
                if ms[i].dom().contains(k) {
                    assert(self.submaps@[i]@.dom().contains(k));
                }
            }
        }
    }

    /// Create a map of `2^num_chunks_log_2` empty shards.
    pub fn new(num_chunks_log_2: u8) -> (r: Self)
        requires
            num_chunks_log_2 <= 62,
            num_chunks_log_2 >= 32 ==> ((1u64 << (num_chunks_log_2 as u64)) as int)
                <= usize::MAX as int,
        ensures
            r.wf(),
            r@ == Map::<K::V, V>::empty(),
            r.spec_chunks_count() == (1u64 << (num_chunks_log_2 as u64)) as int,
    {
        Self::with_capacity(num_chunks_log_2, 0)
    }

    /// Create a map of `2^num_chunks_log_2` shards, each pre-sized for its
    /// share of `capacity` entries.
    pub fn with_capacity(num_chunks_log_2: u8, capacity: usize) -> (r: Self)
        requires
            num_chunks_log_2 <= 62,
            num_chunks_log_2 >= 32 ==> ((1u64 << (num_chunks_log_2 as u64)) as int)
                <= usize::MAX as int,
        ensures
            r.wf(),
            r@ == Map::<K::V, V>::empty(),
            r.spec_chunks_count() == (1u64 << (num_chunks_log_2 as u64)) as int,
    {
        proof {
            let n = num_chunks_log_2 as u64;
            if n < 32 {
                assert(1u64 << n <= 0x8000_0000u64) by (bit_vector)
                    requires
                        n < 32,
                ;
                assert(0x8000_0000u64 as int <= usize::MAX as int);
            }
        }
        let ncb: usize = num_chunks_log_2 as usize;
        let ncm64: u64 = 1u64 << (ncb as u64);
        assert(1u64 << (ncb as u64) >= 1u64 && 1u64 << (ncb as u64) <= 0x4000_0000_0000_0000u64)
            by (bit_vector)
            requires
                ncb as u64 <= 62,
        ;
        let ncm: usize = ncm64 as usize;
        assert(ncm >= 1);
        let cpm: usize = capacity / ncm;
        let mut submaps: Vec<VecMap<K, V>> = Vec::new();
        let mut i: usize = 0;
        while i < ncm
            invariant
                i <= ncm,
                submaps@.len() == i,
                forall|j: int| 0 <= j < i ==> (#[trigger] submaps@[j]).wf(),
                forall|j: int| 0 <= j < i ==> (#[trigger] submaps@[j])@ == Map::<K::V, V>::empty(),
            decreases ncm - i,
        {
            submaps.push(VecMap::with_capacity(cpm));
            i += 1;
        }
        let r = Self { ncb, submaps, hash_nonce: random_u64() };
        proof {
            assert forall|i2: int, k: K::V|
                0 <= i2 < r.submaps@.len() && (#[trigger] r.submaps@[i2]@.dom().contains(k))
                    implies r.shard_of(k) == i2 by {
                assert(r.submaps@[i2]@ == Map::<K::V, V>::empty());
            }
            assert forall|k: K::V| !(#[trigger] r@.dom().contains(k)) by {
                lemma_union_seq_contains(r.shard_views(), k);
                if r@.dom().contains(k) {
                    let i2 = choose|i2: int|
                        0 <= i2 < r.shard_views().len() && (#[trigger] r.shard_views()[i2].dom().contains(k));
                    assert(r.submaps@[i2]@.dom().contains(k));
                }
            }
            assert(r@ =~= Map::<K::V, V>::empty());
        }
        r
    }

    /// The shard index that owns `key`.
    fn determine_map(&self, key: &K) -> (r: usize)
        requires
            self.wf(),
        ensures
            r == self.shard_of(key@),
            r < self.submaps@.len(),
    {
        proof {
            self.lemma_shard_of_bounds(key@);
        }
        let h: u64 = key.key_hash(self.hash_nonce);
        let nshards: usize = self.submaps.len();
        if self.ncb == 0 {
            0
        } else {
            let shift: u64 = (64 - self.ncb) as u64;
            let idx64: u64 = h >> shift;
            proof {
                let n = self.ncb as u64;
                assert(h >> ((64 - n) as u64) < (1u64 << n)) by (bit_vector)
                    requires
                        1 <= n <= 62,
                ;
                assert(idx64 < nshards as u64);
            }
            idx64 as usize
        }
    }

    /// Insert an element into the map, replacing any prior value for the key.
    pub fn insert(&mut self, key: K, value: V)
        requires
            old(self).wf(),
        ensures
            final(self).wf(),
            final(self)@ == old(self)@.insert(key@, value),
            final(self).spec_chunks_count() == old(self).spec_chunks_count(),
    {
        let mapi: usize = self.determine_map(&key);
        let ghost ms0 = self.shard_views();
        let ghost k = key@;
        proof {
            self.lemma_route(k);
        }
        let submap = &mut self.submaps[mapi];
        submap.insert(key, value);
        proof {
            let ms1 = self.shard_views();
            assert(ms1 =~= ms0.update(mapi as int, ms0[mapi as int].insert(k, value)));
            assert forall|i2: int, k2: K::V|
                0 <= i2 < self.submaps@.len() && (#[trigger] self.submaps@[i2]@.dom().contains(k2))
                    implies self.shard_of(k2) == i2 by {
                if i2 == mapi as int {
                    if k2 != k {
                        assert(ms0[i2].dom().contains(k2));
                        assert(old(self).submaps@[i2]@.dom().contains(k2));
                    }
                } else {
                    assert(old(self).submaps@[i2]@.dom().contains(k2));
                }
            }
            assert(self.wf());
            assert forall|k2: K::V| #[trigger]
                self@.dom().contains(k2) implies old(self)@.insert(k, value).dom().contains(k2)
                && self@[k2] == old(self)@.insert(k, value)[k2] by {
                self.lemma_route(k2);
                old(self).lemma_route(k2);
                assert(self.shard_of(k2) == old(self).shard_of(k2));
                if k2 != k {
                    assert(ms1[self.shard_of(k2)] == ms0[self.shard_of(k2)].insert(k, value)
                        || ms1[self.shard_of(k2)] == ms0[self.shard_of(k2)]);
                }
            }
            assert forall|k2: K::V| #[trigger]
                old(self)@.insert(k, value).dom().contains(k2) implies self@.dom().contains(
                k2,
            ) by {
                self.lemma_route(k2);
                old(self).lemma_route(k2);
                assert(self.shard_of(k2) == old(self).shard_of(k2));
                if k2 == k {
                    assert(ms1[self.shard_of(k2)].dom().contains(k2));
                }
            }
            assert(self@ =~= old(self)@.insert(k, value));
        }
    }

    /// Check if the map contains the specified key.
    pub fn contains_key(&self, key: &K) -> (r: bool)
        requires
            self.wf(),
        ensures
            r == self@.dom().contains(key@),
    {
        proof {
            self.lemma_route(key@);
        }
        let mapi: usize = self.determine_map(key);
        self.submaps[mapi].contains_key(key)
    }

    /// Get a shared reference to the value stored for `key`.
    pub fn get(&self, key: &K) -> (r: Option<&V>)
        requires
            self.wf(),
        ensures
            match r {
                Some(v) => self@.dom().contains(key@) && *v == self@[key@],
                None => !self@.dom().contains(key@),
            },
    {
        proof {
            self.lemma_route(key@);
        }
        let mapi: usize = self.determine_map(key);
        self.submaps[mapi].get(key)
    }

    /// The number of shards.
    pub fn chunks_count(&self) -> (r: usize)
        ensures
            r == self.spec_chunks_count(),
    {
        self.submaps.len()
    }


    /// Rewriting one shard so that it gains `(k, v2)`, the key routing
    /// there, rewrites the whole map's contents to an `insert`.
    proof fn lemma_value_update(pre: Self, post: Self, i: int, k: K::V, v2: V)
        requires
            pre.wf(),
            0 <= i < pre.submaps@.len(),
            post.ncb == pre.ncb,
            post.hash_nonce == pre.hash_nonce,
            post.submaps@.len() == pre.submaps@.len(),
            forall|j: int|
                0 <= j < pre.submaps@.len() && j != i ==> #[trigger] post.submaps@[j]
                    == pre.submaps@[j],
            post.submaps@[i].wf(),
            post.submaps@[i]@ == pre.submaps@[i]@.insert(k, v2),
            pre.shard_of(k) == i,
        ensures
            post.wf(),
            post@ == pre@.insert(k, v2),
    {
        assert(forall|kv: K::V| post.shard_of(kv) == pre.shard_of(kv));
        assert forall|i2: int, k2: K::V|
            0 <= i2 < post.submaps@.len() && (#[trigger] post.submaps@[i2]@.dom().contains(k2))
                implies post.shard_of(k2) == i2 by {
            if i2 == i {
                if k2 != k {
                    assert(pre.submaps@[i2]@.dom().contains(k2));
                }
            } else {
                assert(pre.submaps@[i2]@.dom().contains(k2));
            }
        }
        assert(post.wf());
        assert forall|k2: K::V| #[trigger]
            post@.dom().contains(k2) implies pre@.insert(k, v2).dom().contains(k2) && post@[k2]
            == pre@.insert(k, v2)[k2] by {
            post.lemma_route(k2);
            pre.lemma_route(k2);
        }
        assert forall|k2: K::V| #[trigger]
            pre@.insert(k, v2).dom().contains(k2) implies post@.dom().contains(k2) by {
            post.lemma_route(k2);
            pre.lemma_route(k2);
        }
        assert(post@ =~= pre@.insert(k, v2));
    }

    /// Rewriting one shard so that it loses `k`, the key routing there,
    /// rewrites the whole map's contents to a `remove`.
    proof fn lemma_key_remove(pre: Self, post: Self, i: int, k: K::V)
        requires
            pre.wf(),
            0 <= i < pre.submaps@.len(),
            post.ncb == pre.ncb,
            post.hash_nonce == pre.hash_nonce,
            post.submaps@.len() == pre.submaps@.len(),
            forall|j: int|
                0 <= j < pre.submaps@.len() && j != i ==> #[trigger] post.submaps@[j]
                    == pre.submaps@[j],
            post.submaps@[i].wf(),
            post.submaps@[i]@ == pre.submaps@[i]@.remove(k),
            pre.shard_of(k) == i,
        ensures
            post.wf(),
            post@ == pre@.remove(k),
    {
        assert(forall|kv: K::V| post.shard_of(kv) == pre.shard_of(kv));
        assert forall|i2: int, k2: K::V|
            0 <= i2 < post.submaps@.len() && (#[trigger] post.submaps@[i2]@.dom().contains(k2))
                implies post.shard_of(k2) == i2 by {
            if i2 == i {
                assert(pre.submaps@[i2]@.dom().contains(k2));
            } else {
                assert(pre.submaps@[i2]@.dom().contains(k2));
            }
        }
        assert(post.wf());
        assert forall|k2: K::V| #[trigger]
            post@.dom().contains(k2) implies pre@.remove(k).dom().contains(k2) && post@[k2]
            == pre@.remove(k)[k2] by {
            post.lemma_route(k2);
            pre.lemma_route(k2);
        }
        assert forall|k2: K::V| #[trigger]
            pre@.remove(k).dom().contains(k2) implies post@.dom().contains(k2) by {
            post.lemma_route(k2);
            pre.lemma_route(k2);
        }
        assert(post@ =~= pre@.remove(k));
    }

    /// Remove the entry for the key if it exists, returning the pair.
    pub fn remove(&mut self, key: &K) -> (r: Option<(K, V)>)
        requires
            old(self).wf(),
        ensures
            final(self).wf(),
            final(self)@ == old(self)@.remove(key@),
            final(self).spec_chunks_count() == old(self).spec_chunks_count(),
            match r {
                Some(p) => old(self)@.dom().contains(key@) && p.0@ == key@ && p.1 == old(
                    self,
                )@[key@],
                None => !old(self)@.dom().contains(key@),
            },
    {
        let ghost k = key@;
        proof {
            self.lemma_route(k);
        }
        let mapi: usize = self.determine_map(key);
        let ghost pre = *self;
        let sub = &mut self.submaps[mapi];
        let r = sub.remove(key);
        proof {
            Self::lemma_key_remove(pre, *self, mapi as int, k);
        }
        r
    }

    /// Drop every entry, shard by shard.
    pub fn clear(&mut self)
        requires
            old(self).wf(),
        ensures
            final(self).wf(),
            final(self)@ == Map::<K::V, V>::empty(),
            final(self).spec_chunks_count() == old(self).spec_chunks_count(),
    {
        let n: usize = self.submaps.len();
        let mut i: usize = 0;
        while i < n
            invariant
                n == self.submaps@.len(),
                i <= n,
                self.ncb == old(self).ncb,
                self.hash_nonce == old(self).hash_nonce,
                self.submaps@.len() == old(self).submaps@.len(),
                old(self).wf(),
                forall|j: int| 0 <= j < i ==> (#[trigger] self.submaps@[j]).wf(),
                forall|j: int| 0 <= j < i
                    ==> (#[trigger] self.submaps@[j])@ == Map::<K::V, V>::empty(),
                forall|j: int| i <= j < n ==> #[trigger] self.submaps@[j]
                    == old(self).submaps@[j],
            decreases n - i,
        {
            let sub = &mut self.submaps[i];
            sub.clear();
            i += 1;
        }
        proof {
            assert forall|i2: int, k2: K::V|
                0 <= i2 < self.submaps@.len() && (#[trigger] self.submaps@[i2]@.dom().contains(
                    k2,
                )) implies self.shard_of(k2) == i2 by {
                assert(self.submaps@[i2]@ == Map::<K::V, V>::empty());
            }
            assert(self.wf());
            assert forall|k2: K::V| !(#[trigger] self@.dom().contains(k2)) by {
                lemma_union_seq_contains(self.shard_views(), k2);
                if self@.dom().contains(k2) {
                    let i2 = choose|i2: int|
                        0 <= i2 < self.shard_views().len()
                            && (#[trigger] self.shard_views()[i2].dom().contains(k2));
                    assert(self.submaps@[i2]@.dom().contains(k2));
                }
            }
            assert(self@ =~= Map::<K::V, V>::empty());
        }
    }

    /// Sum of per-shard sizes, clamped into a machine word.
    pub fn len(&self) -> (r: usize)
        requires
            self.wf(),
        ensures
            r == clamp_to_usize(self@.len()),
    {
        let n: usize = self.submaps.len();
        let mut acc: usize = 0;
        let mut i: usize = 0;
        while i < n
            invariant
                self.wf(),
                n == self.submaps@.len(),
                i <= n,
                acc == clamp_to_usize(sum_lens(self.shard_views().take(i as int))),
            decreases n - i,
        {
            proof {
                lemma_sum_lens_take_step(self.shard_views(), i as int);
                self.submaps@[i as int].lemma_len();
            }
            let s: usize = self.submaps[i].len();
            acc = if acc > usize::MAX - s {
                usize::MAX
            } else {
                acc + s
            };
            i += 1;
        }
        proof {
            assert(self.shard_views().take(n as int) =~= self.shard_views());
            assert forall|i2: int, j2: int, k2: K::V|
                0 <= i2 < self.shard_views().len() && 0 <= j2 < self.shard_views().len() && i2
                    != j2 && (#[trigger] self.shard_views()[i2].dom().contains(k2)) implies !(
            #[trigger] self.shard_views()[j2].dom().contains(k2)) by {
                assert(self.submaps@[i2]@.dom().contains(k2));
                if self.shard_views()[j2].dom().contains(k2) {
                    assert(self.submaps@[j2]@.dom().contains(k2));
                }
            }
            assert forall|i2: int|
                0 <= i2 < self.shard_views().len()
                    implies (#[trigger] self.shard_views()[i2].dom().finite()) by {
                self.submaps@[i2].lemma_len();
            }
            lemma_union_seq_len(self.shard_views());
        }
        acc
    }

    /// Whether the map holds no entries.
    pub fn is_empty(&self) -> (r: bool)
        requires
            self.wf(),
        ensures
            r == (self@.len() == 0),
    {
        self.len() == 0
    }

    /// Get a unique reference to the value stored for `key`.
    pub fn get_mut(&mut self, key: &K) -> (r: Option<&mut V>)
        requires
            old(self).wf(),
        ensures
            match r {
                Some(v) => {
                    &&& old(self)@.dom().contains(key@)
                    &&& *v == old(self)@[key@]
                    &&& final(self).wf()
                    &&& final(self)@ == old(self)@.insert(key@, *final(v))
                    &&& final(self).spec_chunks_count() == old(self).spec_chunks_count()
                },
                None => {
                    &&& !old(self)@.dom().contains(key@)
                    &&& final(self).wf()
                    &&& final(self)@ == old(self)@
                    &&& final(self).spec_chunks_count() == old(self).spec_chunks_count()
                },
            },
    {
        let ghost k = key@;
        proof {
            self.lemma_route(k);
        }
        let mapi: usize = self.determine_map(key);
        let ghost pre = *self;
        let sub = &mut self.submaps[mapi];
        let r = sub.get_mut(key);
        match r {
            Some(v) => {
                proof {
                    Self::lemma_value_update(pre, *after_borrow(self), mapi as int, k, *final(v));
                }
                Some(v)
            },
            None => {
                proof {
                    assert(after_borrow(self).submaps@ =~= pre.submaps@);
                    assert(after_borrow(self).shard_views() =~= pre.shard_views());
                }
                None
            },
        }
    }

    /// Shortcut for a get followed by an unwrap; the key must be present.
    pub fn index(&self, key: &K) -> (r: DashMapRef<'_, V>)
        requires
            self.wf(),
            self@.dom().contains(key@),
        ensures
            r@ == self@[key@],
    {
        match self.get(key) {
            Some(v) => DashMapRef { v },
            None => vstd::pervasive::unreached(),
        }
    }

    /// Shortcut for a get_mut followed by an unwrap; the key must be present.
    pub fn index_mut(&mut self, key: &K) -> (r: &mut V)
        requires
            old(self).wf(),
            old(self)@.dom().contains(key@),
        ensures
            *r == old(self)@[key@],
            final(self).wf(),
            final(self)@ == old(self)@.insert(key@, *final(r)),
            final(self).spec_chunks_count() == old(self).spec_chunks_count(),
    {
        match self.get_mut(key) {
            Some(v) => v,
            None => vstd::pervasive::unreached(),
        }
    }

    /// As `get`, but wrapped as the non-blocking variant: with exclusive
    /// access the read lock is always free, so `WouldBlock` cannot arise.
    pub fn try_get(&self, key: &K) -> (r: TryGetResult<DashMapRef<'_, V>>)
        requires
            self.wf(),
        ensures
            match r {
                Ok(g) => self@.dom().contains(key@) && g@ == self@[key@],
                Err(e) => e == TryGetError::InvalidKey && !self@.dom().contains(key@),
            },
    {
        match self.get(key) {
            Some(v) => Ok(DashMapRef { v }),
            None => Err(TryGetError::InvalidKey),
        }
    }

    /// As `try_get`; the timeout is never consumed, since with exclusive
    /// access the lock is free at once.
    pub fn try_get_with_timeout(&self, key: &K, timeout: core::time::Duration) -> (r:
        TryGetResult<DashMapRef<'_, V>>)
        requires
            self.wf(),
        ensures
            match r {
                Ok(g) => self@.dom().contains(key@) && g@ == self@[key@],
                Err(e) => e == TryGetError::InvalidKey && !self@.dom().contains(key@),
            },
    {
        let _ = timeout;
        self.try_get(key)
    }

    /// As `get_mut`, wrapped as the non-blocking variant.
    pub fn try_get_mut(&mut self, key: &K) -> (r: TryGetResult<&mut V>)
        requires
            old(self).wf(),
        ensures
            match r {
                Ok(v) => {
                    &&& old(self)@.dom().contains(key@)
                    &&& *v == old(self)@[key@]
                    &&& final(self).wf()
                    &&& final(self)@ == old(self)@.insert(key@, *final(v))
                    &&& final(self).spec_chunks_count() == old(self).spec_chunks_count()
                },
                Err(e) => {
                    &&& e == TryGetError::InvalidKey
                    &&& !old(self)@.dom().contains(key@)
                    &&& final(self).wf()
                    &&& final(self)@ == old(self)@
                    &&& final(self).spec_chunks_count() == old(self).spec_chunks_count()
                },
            },
    {
        match self.get_mut(key) {
            Some(v) => Ok(v),
            None => Err(TryGetError::InvalidKey),
        }
    }

    /// As `try_get_mut`; the timeout is never consumed.
    pub fn try_get_mut_with_timeout(&mut self, key: &K, timeout: core::time::Duration) -> (r:
        TryGetResult<&mut V>)
        requires
            old(self).wf(),
        ensures
            match r {
                Ok(v) => {
                    &&& old(self)@.dom().contains(key@)
                    &&& *v == old(self)@[key@]
                    &&& final(self).wf()
                    &&& final(self)@ == old(self)@.insert(key@, *final(v))
                    &&& final(self).spec_chunks_count() == old(self).spec_chunks_count()
                },
                Err(e) => {
                    &&& e == TryGetError::InvalidKey
                    &&& !old(self)@.dom().contains(key@)
                    &&& final(self).wf()
                    &&& final(self)@ == old(self)@
                    &&& final(self).spec_chunks_count() == old(self).spec_chunks_count()
                },
            },
    {
        let _ = timeout;
        self.try_get_mut(key)
    }

    /// Return the present value for the key, or insert `default` and hand
    /// back a unique reference to the fresh entry.
    pub fn get_or_insert(&mut self, key: &K, default: V) -> (r: DashMapRefAny<'_, V>)
        requires
            old(self).wf(),
        ensures
            match r {
                DashMapRefAny::Shared(v) => {
                    &&& old(self)@.dom().contains(key@)
                    &&& *v == old(self)@[key@]
                    &&& final(self).wf()
                    &&& final(self)@ == old(self)@
                    &&& final(self).spec_chunks_count() == old(self).spec_chunks_count()
                },
                DashMapRefAny::Unique(v) => {
                    &&& !old(self)@.dom().contains(key@)
                    &&& *v == default
                    &&& final(self).wf()
                    &&& final(self)@ == old(self)@.insert(key@, *final(v))
                    &&& final(self).spec_chunks_count() == old(self).spec_chunks_count()
                },
            },
    {
        let ghost k = key@;
        proof {
            self.lemma_route(k);
        }
        let mapi: usize = self.determine_map(key);
        if self.submaps[mapi].contains_key(key) {
            match self.submaps[mapi].get(key) {
                Some(v) => DashMapRefAny::Shared(v),
                None => vstd::pervasive::unreached(),
            }
        } else {
            self.insert(key.key_clone(), default);
            match self.get_mut(key) {
                Some(v) => {
                    proof {
                        assert(after_borrow(self)@ =~= old(self)@.insert(k, *final(v)));
                    }
                    DashMapRefAny::Unique(v)
                },
                None => vstd::pervasive::unreached(),
            }
        }
    }

    /// As `get_or_insert`, computing the missing value only when needed.
    pub fn get_or_insert_with<F: FnOnce() -> V>(&mut self, key: &K, default: F) -> (r:
        DashMapRefAny<'_, V>)
        requires
            old(self).wf(),
            call_requires(default, ()),
        ensures
            match r {
                DashMapRefAny::Shared(v) => {
                    &&& old(self)@.dom().contains(key@)
                    &&& *v == old(self)@[key@]
                    &&& final(self).wf()
                    &&& final(self)@ == old(self)@
                    &&& final(self).spec_chunks_count() == old(self).spec_chunks_count()
                },
                DashMapRefAny::Unique(v) => {
                    &&& !old(self)@.dom().contains(key@)
                    &&& call_ensures(default, (), *v)
                    &&& final(self).wf()
                    &&& final(self)@ == old(self)@.insert(key@, *final(v))
                    &&& final(self).spec_chunks_count() == old(self).spec_chunks_count()
                },
            },
    {
        let ghost k = key@;
        proof {
            self.lemma_route(k);
        }
        let mapi: usize = self.determine_map(key);
        if self.submaps[mapi].contains_key(key) {
            match self.submaps[mapi].get(key) {
                Some(v) => DashMapRefAny::Shared(v),
                None => vstd::pervasive::unreached(),
            }
        } else {
            let d = default();
            self.insert(key.key_clone(), d);
            match self.get_mut(key) {
                Some(v) => {
                    proof {
                        assert(after_borrow(self)@ =~= old(self)@.insert(k, *final(v)));
                    }
                    DashMapRefAny::Unique(v)
                },
                None => vstd::pervasive::unreached(),
            }
        }
    }

    /// Retain all elements that the given predicate accepted.
    pub fn retain<F: Fn(&K, &V) -> bool>(&mut self, f: &F)
        requires
            old(self).wf(),
            forall|k: &K, v: &V| call_requires(*f, (k, v)),
        ensures
            final(self).wf(),
            final(self).spec_chunks_count() == old(self).spec_chunks_count(),
            forall|kv: K::V| #[trigger] final(self)@.dom().contains(kv)
                ==> old(self)@.dom().contains(kv) && final(self)@[kv] == old(self)@[kv],
            forall|kv: K::V| #[trigger] old(self)@.dom().contains(kv)
                ==> crate::vecmap::pred_outcome(*f, kv, old(self)@[kv],
                    final(self)@.dom().contains(kv)),
    {
        let n: usize = self.submaps.len();
        let mut i: usize = 0;
        while i < n
            invariant
                n == self.submaps@.len(),
                i <= n,
                self.ncb == old(self).ncb,
                self.hash_nonce == old(self).hash_nonce,
                self.submaps@.len() == old(self).submaps@.len(),
                old(self).wf(),
                forall|k: &K, v: &V| call_requires(*f, (k, v)),
                forall|j: int| 0 <= j < n ==> (#[trigger] self.submaps@[j]).wf(),
                forall|j: int| i <= j < n ==> #[trigger] self.submaps@[j]
                    == old(self).submaps@[j],
                forall|j: int, kv: K::V|
                    0 <= j < i && (#[trigger] self.submaps@[j]@.dom().contains(kv))
                        ==> old(self).submaps@[j]@.dom().contains(kv) && self.submaps@[j]@[kv]
                        == old(self).submaps@[j]@[kv],
                forall|j: int, kv: K::V|
                    0 <= j < i && (#[trigger] old(self).submaps@[j]@.dom().contains(kv))
                        ==> crate::vecmap::pred_outcome(*f, kv, old(self).submaps@[j]@[kv],
                            self.submaps@[j]@.dom().contains(kv)),
            decreases n - i,
        {
            let sub = &mut self.submaps[i];
            sub.retain(f);
            i += 1;
        }
        proof {
            assert(forall|kv: K::V| self.shard_of(kv) == old(self).shard_of(kv));
            assert forall|i2: int, k2: K::V|
                0 <= i2 < self.submaps@.len() && (#[trigger] self.submaps@[i2]@.dom().contains(
                    k2,
                )) implies self.shard_of(k2) == i2 by {
                assert(old(self).submaps@[i2]@.dom().contains(k2));
            }
            assert(self.wf());
            assert forall|kv: K::V| #[trigger]
                self@.dom().contains(kv) implies old(self)@.dom().contains(kv) && self@[kv]
                == old(self)@[kv] by {
                self.lemma_route(kv);
                old(self).lemma_route(kv);
            }
            assert forall|kv: K::V| #[trigger]
                old(self)@.dom().contains(kv) implies crate::vecmap::pred_outcome(
                *f,
                kv,
                old(self)@[kv],
                self@.dom().contains(kv),
            ) by {
                self.lemma_route(kv);
                old(self).lemma_route(kv);
                let s2 = old(self).shard_of(kv);
                assert(old(self).submaps@[s2]@.dom().contains(kv));
                assert(crate::vecmap::pred_outcome(*f, kv, old(self).submaps@[s2]@[kv],
                    self.submaps@[s2]@.dom().contains(kv)));
            }
        }
    }

    /// Apply `f` to every entry, storing its result as the entry's value.
    pub fn alter<F: Fn(&K, &V) -> V>(&mut self, f: &F)
        requires
            old(self).wf(),
            forall|k: &K, v: &V| call_requires(*f, (k, v)),
        ensures
            final(self).wf(),
            final(self).spec_chunks_count() == old(self).spec_chunks_count(),
            forall|kv: K::V| #[trigger] final(self)@.dom().contains(kv) <==> old(
                self,
            )@.dom().contains(kv),
            forall|kv: K::V| #[trigger] old(self)@.dom().contains(kv)
                ==> crate::vecmap::alter_outcome(*f, kv, old(self)@[kv], final(self)@[kv]),
    {
        let n: usize = self.submaps.len();
        let mut i: usize = 0;
        while i < n
            invariant
                n == self.submaps@.len(),
                i <= n,
                self.ncb == old(self).ncb,
                self.hash_nonce == old(self).hash_nonce,
                self.submaps@.len() == old(self).submaps@.len(),
                old(self).wf(),
                forall|k: &K, v: &V| call_requires(*f, (k, v)),
                forall|j: int| 0 <= j < n ==> (#[trigger] self.submaps@[j]).wf(),
                forall|j: int| i <= j < n ==> #[trigger] self.submaps@[j]
                    == old(self).submaps@[j],
                forall|j: int| 0 <= j < i ==> (#[trigger] self.submaps@[j]).key_views()
                    == old(self).submaps@[j].key_views(),
                forall|j: int, kv: K::V|
                    0 <= j < i ==> ((#[trigger] self.submaps@[j]@.dom().contains(kv)) <==> old(
                        self,
                    ).submaps@[j]@.dom().contains(kv)),
                forall|j: int, kv: K::V|
                    0 <= j < i && (#[trigger] old(self).submaps@[j]@.dom().contains(kv))
                        ==> crate::vecmap::alter_outcome(*f, kv, old(self).submaps@[j]@[kv],
                            self.submaps@[j]@[kv]),
            decreases n - i,
        {
            let sub = &mut self.submaps[i];
            sub.alter(f);
            i += 1;
        }
        proof {
            assert(forall|kv: K::V| self.shard_of(kv) == old(self).shard_of(kv));
            assert forall|i2: int, k2: K::V|
                0 <= i2 < self.submaps@.len() && (#[trigger] self.submaps@[i2]@.dom().contains(
                    k2,
                )) implies self.shard_of(k2) == i2 by {
                assert(old(self).submaps@[i2]@.dom().contains(k2));
            }
            assert(self.wf());
            assert forall|kv: K::V| #[trigger]
                self@.dom().contains(kv) <==> old(self)@.dom().contains(kv) by {
                self.lemma_route(kv);
                old(self).lemma_route(kv);
            }
            assert forall|kv: K::V| #[trigger]
                old(self)@.dom().contains(kv) implies crate::vecmap::alter_outcome(
                *f,
                kv,
                old(self)@[kv],
                self@[kv],
            ) by {
                self.lemma_route(kv);
                old(self).lemma_route(kv);
                let s2 = old(self).shard_of(kv);
                assert(old(self).submaps@[s2]@.dom().contains(kv));
                assert(crate::vecmap::alter_outcome(*f, kv, old(self).submaps@[s2]@[kv],
                    self.submaps@[s2]@[kv]));
            }
        }
    }

    /// The sum of per-shard sizes is exactly the map's size.
    pub proof fn lemma_len_is_shard_sum(self)
        requires
            self.wf(),
        ensures
            sum_lens(self.shard_views()) == self@.len(),
            self@.dom().finite(),
    {
        assert forall|i2: int, j2: int, k2: K::V|
            0 <= i2 < self.shard_views().len() && 0 <= j2 < self.shard_views().len() && i2 != j2
                && (#[trigger] self.shard_views()[i2].dom().contains(k2)) implies !(
        #[trigger] self.shard_views()[j2].dom().contains(k2)) by {
            assert(self.submaps@[i2]@.dom().contains(k2));
            if self.shard_views()[j2].dom().contains(k2) {
                assert(self.submaps@[j2]@.dom().contains(k2));
            }
        }
        assert forall|i2: int|
            0 <= i2 < self.shard_views().len()
                implies (#[trigger] self.shard_views()[i2].dom().finite()) by {
            self.submaps@[i2].lemma_len();
        }
        lemma_union_seq_len(self.shard_views());
    }

    /// Borrow every entry of the map: each pair exactly once, shard by shard.
    pub fn iter(&self) -> (r: Vec<DashMapIterRef<'_, K, V>>)
        requires
            self.wf(),
        ensures
            r@.len() == self@.len(),
            forall|p: int|
                0 <= p < r@.len() ==> self@.dom().contains((#[trigger] r@[p]).key_view())
                    && r@[p].value_view() == self@[r@[p].key_view()],
            forall|p: int, q: int|
                0 <= p < q < r@.len() ==> r@[p].key_view() != r@[q].key_view(),
    {
        let n: usize = self.submaps.len();
        let mut r: Vec<DashMapIterRef<'_, K, V>> = Vec::new();
        let mut s: usize = 0;
        while s < n
            invariant
                self.wf(),
                n == self.submaps@.len(),
                s <= n,
                r@.len() == sum_lens(self.shard_views().take(s as int)),
                forall|p: int|
                    0 <= p < r@.len() ==> self@.dom().contains((#[trigger] r@[p]).key_view())
                        && r@[p].value_view() == self@[r@[p].key_view()],
                forall|p: int|
                    0 <= p < r@.len() ==> 0 <= self.shard_of((#[trigger] r@[p]).key_view()) < s,
                forall|p: int, q: int|
                    0 <= p < q < r@.len() ==> r@[p].key_view() != r@[q].key_view(),
            decreases n - s,
        {
            proof {
                self.submaps@[s as int].lemma_len();
                lemma_sum_lens_take_step(self.shard_views(), s as int);
            }
            let sub = &self.submaps[s];
            let pairs = sub.iter();
            let m = pairs.len();
            let ghost base = r@.len();
            let mut t: usize = 0;
            while t < m
                invariant
                    self.wf(),
                    s < n,
                    n == self.submaps@.len(),
                    sub == self.submaps@[s as int],
                    sub.wf(),
                    m == pairs@.len(),
                    m == sub@.len(),
                    t <= m,
                    pairs@.len() == sub.key_views().len(),
                    forall|j: int|
                        0 <= j < pairs@.len() ==> ((#[trigger] pairs@[j]).0)@
                            == sub.key_views()[j] && *pairs@[j].1 == sub.value_seq()[j],
                    r@.len() == base + t,
                    forall|j: int|
                        0 <= j < t ==> (#[trigger] r@[base + j]).key_view()
                            == sub.key_views()[j] && r@[base + j].value_view()
                            == sub.value_seq()[j],
                    forall|p: int|
                        0 <= p < base ==> 0 <= self.shard_of((#[trigger] r@[p]).key_view()) < s,
                    forall|p: int|
                        0 <= p < r@.len() ==> self@.dom().contains(
                            (#[trigger] r@[p]).key_view(),
                        ) && r@[p].value_view() == self@[r@[p].key_view()],
                    forall|p: int, q: int|
                        0 <= p < q < r@.len() ==> r@[p].key_view() != r@[q].key_view(),
                decreases m - t,
            {
                let (pk, pv) = pairs[t];
                proof {
                    sub.lemma_index(t as int);
                    sub.lemma_len();
                    sub.lemma_distinct();
                    assert(sub@.dom().contains(pk@));
                    assert(self.submaps@[s as int]@.dom().contains(pk@));
                    assert(self.shard_of(pk@) == s as int);
                    self.lemma_route(pk@);
                    assert(sub@[pk@] == sub.value_seq()[t as int]);
                }
                let ghost r0 = r@;
                r.push(DashMapIterRef { k: pk, v: pv });
                proof {
                    assert(forall|p: int| 0 <= p < r0.len() ==> #[trigger] r@[p] == r0[p]);
                    assert(r@.len() - 1 == base + t);
                    assert(r@[base + t as int].key_view() == sub.key_views()[t as int]);
                    assert(r@[base + t as int].value_view() == sub.value_seq()[t as int]);
                    assert forall|p: int, q: int|
                        0 <= p < q < r@.len() implies r@[p].key_view() != r@[q].key_view() by {
                        if q == r@.len() - 1 {
                            if p < base {
                                assert(self.shard_of(r@[p].key_view()) < s);
                                assert(self.shard_of(r@[q].key_view()) == s);
                            } else {
                                let j1 = p - base;
                                let j2 = q - base;
                                assert(r@[base + j1].key_view() == sub.key_views()[j1]);
                                assert(r@[base + j2].key_view() == sub.key_views()[j2]);
                                assert(r@[p].key_view() == sub.key_views()[j1]);
                                assert(r@[q].key_view() == sub.key_views()[j2]);
                            }
                        }
                    }
                }
                t += 1;
            }
            proof {
                assert(t == m);
                assert(r@.len() == base + sub@.len());
                assert(r@.len() == sum_lens(self.shard_views().take(s + 1)));
                assert forall|p: int|
                    0 <= p < r@.len() implies 0 <= self.shard_of((#[trigger] r@[p]).key_view())
                    < s + 1 by {
                    if p >= base {
                        let j = p - base;
                        assert(r@[base + j].key_view() == sub.key_views()[j]);
                        assert(r@[p].key_view() == sub.key_views()[j]);
                        sub.lemma_len();
                        assert(sub@.dom().contains(sub.key_views()[j]));
                        assert(self.submaps@[s as int]@.dom().contains(r@[p].key_view()));
                    }
                }
            }
            s += 1;
        }
        proof {
            assert(self.shard_views().take(n as int) =~= self.shard_views());
            self.lemma_len_is_shard_sum();
        }
        r
    }

    /// Read-only views of the shards, in shard order.
    pub fn chunks(&self) -> (r: Vec<Chunk<'_, K, V>>)
        requires
            self.wf(),
        ensures
            r@.len() == self.spec_chunks_count(),
            forall|j: int|
                0 <= j < r@.len() ==> (#[trigger] r@[j])@ == self.shard_views()[j]
                    && r@[j].wf(),
    {
        let n: usize = self.submaps.len();
        let mut r: Vec<Chunk<'_, K, V>> = Vec::new();
        let mut i: usize = 0;
        while i < n
            invariant
                self.wf(),
                n == self.submaps@.len(),
                i <= n,
                r@.len() == i,
                forall|j: int|
                    0 <= j < i ==> (#[trigger] r@[j])@ == self.shard_views()[j] && r@[j].wf(),
            decreases n - i,
        {
            r.push(Chunk { inner: &self.submaps[i] });
            i += 1;
        }
        r
    }

    /// The abstract keys of shard `s`, in storage order.
    pub closed spec fn shard_keys(self, s: int) -> Seq<K::V> {
        self.submaps@[s].key_views()
    }

    /// Every key of the map sits at some position of some shard's key
    /// sequence, every such position holds a key of the map, and no two
    /// positions hold the same key.
    pub proof fn lemma_shard_keys_partition(self)
        requires
            self.wf(),
        ensures
            forall|kv: K::V| #[trigger] self@.dom().contains(kv) ==> exists|s: int, i: int|
                0 <= s < self.spec_chunks_count() && 0 <= i < self.shard_keys(s).len()
                    && self.shard_keys(s)[i] == kv,
            forall|s: int, i: int|
                0 <= s < self.spec_chunks_count() && 0 <= i < self.shard_keys(s).len()
                    ==> self@.dom().contains(#[trigger] self.shard_keys(s)[i]),
            forall|s: int, i: int, s2: int, i2: int|
                0 <= s < self.spec_chunks_count() && 0 <= i < self.shard_keys(s).len() && 0 <= s2
                    < self.spec_chunks_count() && 0 <= i2 < self.shard_keys(s2).len() && !(s == s2
                    && i == i2) ==> (#[trigger] self.shard_keys(s)[i]) != (
                #[trigger] self.shard_keys(s2)[i2]),
    {
        assert forall|kv: K::V| #[trigger] self@.dom().contains(kv) implies exists|s: int, i: int|
            0 <= s < self.spec_chunks_count() && 0 <= i < self.shard_keys(s).len()
                && self.shard_keys(s)[i] == kv by {
            self.lemma_route(kv);
            let sv = self.shard_of(kv);
            assert(self.submaps@[sv]@.dom().contains(kv));
            self.submaps@[sv].lemma_len();
            assert(self.submaps@[sv].key_views().contains(kv));
            let i = choose|i: int|
                0 <= i < self.submaps@[sv].key_views().len()
                    && #[trigger] self.submaps@[sv].key_views()[i] == kv;
            assert(self.shard_keys(sv)[i] == kv);
        }
        assert forall|s: int, i: int|
            0 <= s < self.spec_chunks_count() && 0 <= i < self.shard_keys(s).len()
                implies self@.dom().contains(#[trigger] self.shard_keys(s)[i]) by {
            self.submaps@[s].lemma_index(i);
            assert(self.submaps@[s]@.dom().contains(self.shard_keys(s)[i]));
            self.lemma_route(self.shard_keys(s)[i]);
        }
        assert forall|s: int, i: int, s2: int, i2: int|
            0 <= s < self.spec_chunks_count() && 0 <= i < self.shard_keys(s).len() && 0 <= s2
                < self.spec_chunks_count() && 0 <= i2 < self.shard_keys(s2).len() && !(s == s2
                && i == i2) implies (#[trigger] self.shard_keys(s)[i]) != (
        #[trigger] self.shard_keys(s2)[i2]) by {
            if self.shard_keys(s)[i] == self.shard_keys(s2)[i2] {
                self.submaps@[s].lemma_index(i);
                self.submaps@[s2].lemma_index(i2);
                assert(self.submaps@[s]@.dom().contains(self.shard_keys(s)[i]));
                assert(self.submaps@[s2]@.dom().contains(self.shard_keys(s2)[i2]));
                assert(s == s2);
                self.submaps@[s].lemma_distinct();
                assert(false);
            }
        }
    }

    /// The number of entries in shard `s`.
    pub fn shard_len(&self, s: usize) -> (r: usize)
        requires
            self.wf(),
            s < self.spec_chunks_count(),
        ensures
            r == self.shard_keys(s as int).len(),
    {
        proof {
            self.submaps@[s as int].lemma_len();
        }
        self.submaps[s].len()
    }

    /// The key stored at position `i` of shard `s`.
    pub fn shard_key_at(&self, s: usize, i: usize) -> (r: &K)
        requires
            self.wf(),
            s < self.spec_chunks_count(),
            i < self.shard_keys(s as int).len(),
        ensures
            r@ == self.shard_keys(s as int)[i as int],
            self@.dom().contains(r@),
    {
        proof {
            self.submaps@[s as int].lemma_index(i as int);
            self.submaps@[s as int].lemma_len();
            self.lemma_route(self.shard_keys(s as int)[i as int]);
        }
        self.submaps[s].key_at(i)
    }

    /// The value stored at position `i` of shard `s`.
    pub fn shard_value_at(&self, s: usize, i: usize) -> (r: &V)
        requires
            self.wf(),
            s < self.spec_chunks_count(),
            i < self.shard_keys(s as int).len(),
        ensures
            self@.dom().contains(self.shard_keys(s as int)[i as int]),
            *r == self@[self.shard_keys(s as int)[i as int]],
    {
        proof {
            self.submaps@[s as int].lemma_index(i as int);
            self.submaps@[s as int].lemma_len();
            self.lemma_route(self.shard_keys(s as int)[i as int]);
        }
        self.submaps[s].value_at(i)
    }

    /// A unique borrow of the value stored at position `i` of shard `s`.
    pub fn shard_value_at_mut(&mut self, s: usize, i: usize) -> (r: &mut V)
        requires
            old(self).wf(),
            s < old(self).spec_chunks_count(),
            i < old(self).shard_keys(s as int).len(),
        ensures
            old(self)@.dom().contains(old(self).shard_keys(s as int)[i as int]),
            *r == old(self)@[old(self).shard_keys(s as int)[i as int]],
            final(self).wf(),
            final(self)@ == old(self)@.insert(
                old(self).shard_keys(s as int)[i as int],
                *final(r),
            ),
            final(self).spec_chunks_count() == old(self).spec_chunks_count(),
            forall|s2: int| 0 <= s2 < old(self).spec_chunks_count()
                ==> final(self).shard_keys(s2) == old(self).shard_keys(s2),
    {
        let ghost kv = self.shard_keys(s as int)[i as int];
        proof {
            self.submaps@[s as int].lemma_index(i as int);
            self.submaps@[s as int].lemma_len();
            self.lemma_route(kv);
        }
        let ghost pre = *self;
        let sub = &mut self.submaps[s];
        let r = sub.value_at_mut(i);
        proof {
            Self::lemma_value_update(pre, *after_borrow(self), s as int, kv, *final(r));
        }
        r
    }

    /// The smallest `k` with `2^k` at least `vcount`, within the supported
    /// range of shard counts.
    fn chunks_log_2_for(vcount: usize) -> (k: u8)
        ensures
            1 <= k <= 30,
            vcount <= (1u64 << (k as u64)) as int || k == 30,
            k > 1 ==> ((1u64 << ((k - 1) as u64)) as int) < vcount,
    {
        let mut p2exp: u8 = 1;
        while (1u64 << (p2exp as u64)) < vcount as u64 && p2exp < 30
            invariant
                1 <= p2exp <= 30,
                p2exp > 1 ==> ((1u64 << ((p2exp - 1) as u64)) as int) < vcount,
            decreases 30 - p2exp,
        {
            p2exp += 1;
        }
        p2exp
    }
}

impl<K: MapKey, V> Default for DashMap<K, V> {
    /// Creates a map sized from the number of logical CPUs: the smallest
    /// power of two of shards that is at least eight per CPU. Whatever that
    /// count turns out to be, the map gets a power of two of at least eight
    /// shards, and at most `2^30`.
    fn default() -> (r: Self)
        ensures
            r.wf(),
            r@ == Map::<K::V, V>::empty(),
            8 <= r.spec_chunks_count(),
            exists|k: u64| 1 <= k <= 30 && r.spec_chunks_count() == ((1u64 << k) as int),
    {
        let cpus = crate::util::cpu_count();
        let vcount = if cpus > 0x0800_0000 {
            0x4000_0000
        } else {
            cpus * 8
        };
        let k = Self::chunks_log_2_for(vcount);
        proof {
            let k64 = k as u64;
            assert(1u64 << k64 <= 0x4000_0000u64 && 2u64 <= (1u64 << k64)) by (bit_vector)
                requires
                    1 <= k64 <= 30,
            ;
            assert(8 <= vcount);
            if k64 == 30 {
                assert(8u64 <= (1u64 << k64)) by (bit_vector)
                    requires
                        k64 == 30,
                ;
            } else {
                assert(vcount <= (1u64 << k64) as int);
            }
        }
        let r = Self::new(k);
        proof {
            let k64 = k as u64;
            assert(1 <= k64 <= 30 && r.spec_chunks_count() == ((1u64 << k64) as int));
        }
        r
    }
}

/// A shared reference into a DashMap.
pub struct DashMapRef<'a, V> {
    v: &'a V,
}

impl<'a, V> View for DashMapRef<'a, V> {
    type V = V;

    closed spec fn view(&self) -> V {
        *self.v
    }
}

impl<'a, V> DashMapRef<'a, V> {
    /// The borrowed value.
    pub fn value(&self) -> (r: &V)
        ensures
            *r == self@,
    {
        self.v
    }
}

/// The shared-or-unique result of `get_or_insert`: either the entry was
/// already there and is borrowed shared, or it was freshly inserted and is
/// borrowed uniquely.
pub enum DashMapRefAny<'a, V> {
    Shared(&'a V),
    Unique(&'a mut V),
}

impl<'a, V> DashMapRefAny<'a, V> {
    /// The value currently behind the reference.
    pub closed spec fn cur(self) -> V {
        match self {
            DashMapRefAny::Shared(v) => *v,
            DashMapRefAny::Unique(v) => *v,
        }
    }

    /// Read the value behind either variant.
    pub fn value(&self) -> (r: &V)
        ensures
            *r == self.cur(),
    {
        match self {
            DashMapRefAny::Shared(v) => v,
            DashMapRefAny::Unique(v) => v,
        }
    }
}

/// `n`, unless it exceeds the machine word, which then stands in for it.
pub open spec fn clamp_to_usize(n: nat) -> nat {
    if n > usize::MAX as nat {
        usize::MAX as nat
    } else {
        n
    }
}

/// A shared reference to one entry, yielded by `iter`.
pub struct DashMapIterRef<'a, K: MapKey, V> {
    k: &'a K,
    v: &'a V,
}

impl<'a, K: MapKey, V> DashMapIterRef<'a, K, V> {
    /// The entry's abstract key.
    pub closed spec fn key_view(self) -> K::V {
        self.k@
    }

    /// The entry's value.
    pub closed spec fn value_view(self) -> V {
        *self.v
    }

    /// Get the key of the entry.
    pub fn key(&self) -> (r: &K)
        ensures
            r@ == self.key_view(),
    {
        self.k
    }

    /// Get the value of the entry.
    pub fn value(&self) -> (r: &V)
        ensures
            *r == self.value_view(),
    {
        self.v
    }
}

/// A read-only view of one shard.
pub struct Chunk<'a, K: MapKey, V> {
    inner: &'a VecMap<K, V>,
}

impl<'a, K: MapKey, V> View for Chunk<'a, K, V> {
    type V = Map<K::V, V>;

    closed spec fn view(&self) -> Map<K::V, V> {
        self.inner@
    }
}

impl<'a, K: MapKey, V> Chunk<'a, K, V> {
    /// The shard behind this chunk is internally consistent.
    pub closed spec fn wf(self) -> bool {
        self.inner.wf()
    }

    /// Borrow every entry of the shard.
    pub fn iter(&self) -> (r: Vec<(&K, &V)>)
        requires
            self.wf(),
        ensures
            r@.len() == self@.len(),
            forall|j: int|
                0 <= j < r@.len() ==> self@.dom().contains((#[trigger] r@[j]).0@)
                    && *r@[j].1 == self@[r@[j].0@],
    {
        let pairs = self.inner.iter();
        proof {
            self.inner.lemma_len();
            assert forall|j: int|
                0 <= j < pairs@.len() implies self@.dom().contains((#[trigger] pairs@[j]).0@)
                && *pairs@[j].1 == self@[pairs@[j].0@] by {
                self.inner.lemma_index(j);
            }
        }
        pairs
    }
}

/// One more shard's size on top of a prefix sum.
pub proof fn lemma_sum_lens_take_step<A, B>(ms: Seq<Map<A, B>>, i: int)
    requires
        0 <= i < ms.len(),
    ensures
        sum_lens(ms.take(i + 1)) == sum_lens(ms.take(i)) + ms[i].len(),
{
    assert(ms.take(i + 1).drop_last() =~= ms.take(i));
    assert(ms.take(i + 1).last() == ms[i]);
}

} // verus!
