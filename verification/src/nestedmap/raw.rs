//! The raw nested hash table: at every level a fixed array of slots, each
//! empty, a single entry, or a whole nested table under a fresh hash salt.
//! Two entries colliding in a slot are promoted into a nested table; past a
//! fixed nesting depth they fall back to a flat bucket.

use vstd::prelude::*;

verus! {

use crate::dashmap::lemma_union_seq_contains;
use crate::dashmap::lemma_union_seq_get;
use crate::dashmap::lemma_union_seq_len;
use crate::dashmap::sum_lens;
use crate::dashmap::union_seq;
use crate::key::MapKey;
use crate::util::random_u8;
use crate::vecmap::VecMap;

/// Number of slots per table level.
pub const TABLE_SIZE: usize = 32;

/// Number of nested levels after which colliding entries stop splitting
/// and share a flat bucket instead.
pub const MAX_DEPTH: usize = 16;

/// One stored pair.
pub struct Entry<K: MapKey, V> {
    pub key: K,
    pub value: V,
}

/// What a slot holds: a single entry tagged for the slot allocator, a
/// nested table, or the flat fallback bucket of the deepest level.
pub enum Bucket<K: MapKey, V> {
    Leaf(u8, Entry<K, V>),
    Branch(u8, Table<K, V>),
    Flat(VecMap<K, V>),
}

/// One table level: a salt of its own and a fixed array of slots.
pub struct Table<K: MapKey, V> {
    nonce: u8,
    buckets: Vec<Option<Bucket<K, V>>>,
}

/// The slot that a key hashes to under a level's salt.
pub open spec fn slot_of<K: MapKey>(kv: K::V, nonce: u8) -> int {
    (K::hash_spec(kv, nonce as u64) % (TABLE_SIZE as u64)) as int
}

/// The entries reachable through one bucket, `depth` nested levels allowed.
pub closed spec fn bucket_view<K: MapKey, V>(b: Bucket<K, V>, depth: nat) -> Map<K::V, V>
    decreases depth, 0int, 0int,
{
    match b {
        Bucket::Leaf(_, e) => Map::empty().insert(e.key@, e.value),
        Bucket::Flat(vm) => vm@,
        Bucket::Branch(_, t) => if depth == 0 {
            Map::empty()
        } else {
            table_view(t, (depth - 1) as nat)
        },
    }
}

/// The entries reachable through one optional bucket.
pub closed spec fn opt_bucket_view<K: MapKey, V>(o: Option<Bucket<K, V>>, depth: nat) -> Map<
    K::V,
    V,
>
    decreases depth, 0int, 1int,
{
    match o {
        None => Map::empty(),
        Some(b) => bucket_view(b, depth),
    }
}

/// The per-slot contents of a slot sequence, in slot order.
pub closed spec fn slot_views<K: MapKey, V>(s: Seq<Option<Bucket<K, V>>>, depth: nat) -> Seq<
    Map<K::V, V>,
>
    decreases depth, 1int, s.len(),
{
    if s.len() == 0 {
        Seq::empty()
    } else {
        slot_views(s.drop_last(), depth).push(opt_bucket_view(s.last(), depth))
    }
}

/// All entries reachable through a table.
pub closed spec fn table_view<K: MapKey, V>(t: Table<K, V>, depth: nat) -> Map<K::V, V>
    decreases depth, 2int, 0int,
{
    union_seq(slot_views(t.buckets@, depth))
}

/// One bucket is well-formed: a nested table consumes one level of the
/// depth budget and is itself well-formed; the flat fallback is.
pub closed spec fn bucket_wf<K: MapKey, V>(b: Bucket<K, V>, depth: nat) -> bool
    decreases depth, 0int, 0int,
{
    match b {
        Bucket::Leaf(_, _) => true,
        Bucket::Flat(vm) => vm.wf(),
        Bucket::Branch(_, t) => depth > 0 && table_wf(t, (depth - 1) as nat),
    }
}

/// A slot is well-formed when its bucket is and every key reachable
/// through it hashes to this very slot under the level's salt.
pub closed spec fn slot_wf<K: MapKey, V>(o: Option<Bucket<K, V>>, nonce: u8, i: int, depth: nat) -> bool
    decreases depth, 1int, 0int,
{
    match o {
        None => true,
        Some(b) => bucket_wf(b, depth) && forall|kv: K::V|
            #[trigger] bucket_view(b, depth).dom().contains(kv) ==> slot_of::<K>(kv, nonce) == i,
    }
}

/// A table level is well-formed: full width, and every slot is.
pub closed spec fn table_wf<K: MapKey, V>(t: Table<K, V>, depth: nat) -> bool
    decreases depth, 2int, 0int,
{
    &&& t.buckets@.len() == TABLE_SIZE
    &&& forall|i: int|
        0 <= i < t.buckets@.len() ==> slot_wf(#[trigger] t.buckets@[i], t.nonce, i, depth)
}

/// Length and elements of `slot_views`.
proof fn lemma_slot_views_index<K: MapKey, V>(s: Seq<Option<Bucket<K, V>>>, depth: nat)
    ensures
        slot_views(s, depth).len() == s.len(),
        forall|i: int| 0 <= i < s.len() ==> slot_views(s, depth)[i] == opt_bucket_view(
            #[trigger] s[i],
            depth,
        ),
    decreases s.len(),
{
    if s.len() > 0 {
        lemma_slot_views_index(s.drop_last(), depth);
        assert forall|i: int| 0 <= i < s.len() implies slot_views(s, depth)[i]
            == opt_bucket_view(#[trigger] s[i], depth) by {
            if i < s.len() - 1 {
                assert(s.drop_last()[i] == s[i]);
                assert(slot_views(s, depth)[i] == slot_views(s.drop_last(), depth)[i]);
            } else {
                assert(s[i] == s.last());
            }
        }
    }
}

/// Membership and value of a whole table, read through the owning slot.
proof fn lemma_table_route<K: MapKey, V>(t: Table<K, V>, depth: nat, kv: K::V)
    requires
        table_wf(t, depth),
    ensures
        0 <= slot_of::<K>(kv, t.nonce) < t.buckets@.len(),
        table_view(t, depth).dom().contains(kv) <==> opt_bucket_view(
            t.buckets@[slot_of::<K>(kv, t.nonce)],
            depth,
        ).dom().contains(kv),
        table_view(t, depth).dom().contains(kv) ==> table_view(t, depth)[kv] == opt_bucket_view(
            t.buckets@[slot_of::<K>(kv, t.nonce)],
            depth,
        )[kv],
{
    let i: int = slot_of::<K>(kv, t.nonce);
    let ms = slot_views(t.buckets@, depth);
    lemma_slot_views_index(t.buckets@, depth);
    lemma_union_seq_contains(ms, kv);
    if opt_bucket_view(t.buckets@[i], depth).dom().contains(kv) {
        assert forall|j: int| 0 <= j < ms.len() && j != i implies !(#[trigger] ms[j].dom().contains(
            kv,
        )) by {
            if ms[j].dom().contains(kv) {
                assert(opt_bucket_view(t.buckets@[j], depth).dom().contains(kv));
                assert(slot_wf(t.buckets@[j], t.nonce, j, depth));
                assert(bucket_view(t.buckets@[j]->Some_0, depth).dom().contains(kv));
            }
        }
        assert(ms[i].dom().contains(kv));
        lemma_union_seq_get(ms, i, kv);
    } else {
        assert forall|j: int| 0 <= j < ms.len() implies !(#[trigger] ms[j].dom().contains(kv)) by {
            if ms[j].dom().contains(kv) {
                assert(opt_bucket_view(t.buckets@[j], depth).dom().contains(kv));
                assert(slot_wf(t.buckets@[j], t.nonce, j, depth));
                assert(bucket_view(t.buckets@[j]->Some_0, depth).dom().contains(kv));
                assert(j == i);
            }
        }
    }
}

/// Rewriting the slot that `kv` routes to, so that its contents gain
/// `(kv, v)`, rewrites the whole level's contents to an `insert`.
proof fn lemma_table_insert<K: MapKey, V>(
    pre: Table<K, V>,
    post: Table<K, V>,
    depth: nat,
    kv: K::V,
    v: V,
)
    requires
        table_wf(pre, depth),
        post.nonce == pre.nonce,
        post.buckets@.len() == pre.buckets@.len(),
        forall|j: int|
            0 <= j < pre.buckets@.len() && j != slot_of::<K>(kv, pre.nonce)
                ==> #[trigger] post.buckets@[j] == pre.buckets@[j],
        slot_wf(
            post.buckets@[slot_of::<K>(kv, pre.nonce)],
            post.nonce,
            slot_of::<K>(kv, pre.nonce),
            depth,
        ),
        opt_bucket_view(post.buckets@[slot_of::<K>(kv, pre.nonce)], depth) == opt_bucket_view(
            pre.buckets@[slot_of::<K>(kv, pre.nonce)],
            depth,
        ).insert(kv, v),
        0 <= slot_of::<K>(kv, pre.nonce) < pre.buckets@.len(),
    ensures
        table_wf(post, depth),
        table_view(post, depth) == table_view(pre, depth).insert(kv, v),
{
    let i: int = slot_of::<K>(kv, pre.nonce);
    assert forall|j: int| 0 <= j < post.buckets@.len() implies slot_wf(
        #[trigger] post.buckets@[j],
        post.nonce,
        j,
        depth,
    ) by {
        if j != i {
            assert(post.buckets@[j] == pre.buckets@[j]);
            assert(slot_wf(pre.buckets@[j], pre.nonce, j, depth));
        }
    }
    assert(table_wf(post, depth));
    assert forall|k2: K::V| #[trigger]
        table_view(post, depth).dom().contains(k2) implies table_view(pre, depth).insert(
        kv,
        v,
    ).dom().contains(k2) && table_view(post, depth)[k2] == table_view(pre, depth).insert(
        kv,
        v,
    )[k2] by {
        lemma_table_route(post, depth, k2);
        lemma_table_route(pre, depth, k2);
    }
    assert forall|k2: K::V| #[trigger]
        table_view(pre, depth).insert(kv, v).dom().contains(k2) implies table_view(
        post,
        depth,
    ).dom().contains(k2) by {
        lemma_table_route(post, depth, k2);
        lemma_table_route(pre, depth, k2);
    }
    assert(table_view(post, depth) =~= table_view(pre, depth).insert(kv, v));
}

/// Rewriting the slot that `kv` routes to, so that its contents lose `kv`,
/// rewrites the whole level's contents to a `remove`.
proof fn lemma_table_remove<K: MapKey, V>(
    pre: Table<K, V>,
    post: Table<K, V>,
    depth: nat,
    kv: K::V,
)
    requires
        table_wf(pre, depth),
        post.nonce == pre.nonce,
        post.buckets@.len() == pre.buckets@.len(),
        forall|j: int|
            0 <= j < pre.buckets@.len() && j != slot_of::<K>(kv, pre.nonce)
                ==> #[trigger] post.buckets@[j] == pre.buckets@[j],
        slot_wf(
            post.buckets@[slot_of::<K>(kv, pre.nonce)],
            post.nonce,
            slot_of::<K>(kv, pre.nonce),
            depth,
        ),
        opt_bucket_view(post.buckets@[slot_of::<K>(kv, pre.nonce)], depth) == opt_bucket_view(
            pre.buckets@[slot_of::<K>(kv, pre.nonce)],
            depth,
        ).remove(kv),
        0 <= slot_of::<K>(kv, pre.nonce) < pre.buckets@.len(),
    ensures
        table_wf(post, depth),
        table_view(post, depth) == table_view(pre, depth).remove(kv),
{
    let i: int = slot_of::<K>(kv, pre.nonce);
    assert forall|j: int| 0 <= j < post.buckets@.len() implies slot_wf(
        #[trigger] post.buckets@[j],
        post.nonce,
        j,
        depth,
    ) by {
        if j != i {
            assert(post.buckets@[j] == pre.buckets@[j]);
            assert(slot_wf(pre.buckets@[j], pre.nonce, j, depth));
        }
    }
    assert(table_wf(post, depth));
    assert forall|k2: K::V| #[trigger]
        table_view(post, depth).dom().contains(k2) implies table_view(pre, depth).remove(
        kv,
    ).dom().contains(k2) && table_view(post, depth)[k2] == table_view(pre, depth).remove(kv)[k2] by {
        lemma_table_route(post, depth, k2);
        lemma_table_route(pre, depth, k2);
    }
    assert forall|k2: K::V| #[trigger]
        table_view(pre, depth).remove(kv).dom().contains(k2) implies table_view(
        post,
        depth,
    ).dom().contains(k2) by {
        lemma_table_route(post, depth, k2);
        lemma_table_route(pre, depth, k2);
    }
    assert(table_view(post, depth) =~= table_view(pre, depth).remove(kv));
}

impl<K: MapKey, V> Table<K, V> {
    /// A fresh level: a random salt and every slot empty.
    pub fn empty() -> (r: Self)
        ensures
            forall|d: nat| #[trigger] table_wf(r, d),
            forall|d: nat| #[trigger] table_view(r, d) == Map::<K::V, V>::empty(),
    {
        let mut buckets: Vec<Option<Bucket<K, V>>> = Vec::new();
        let mut i: usize = 0;
        while i < TABLE_SIZE
            invariant
                i <= TABLE_SIZE,
                buckets@.len() == i,
                forall|j: int| 0 <= j < i ==> (#[trigger] buckets@[j]) is None,
            decreases TABLE_SIZE - i,
        {
            buckets.push(None);
            i += 1;
        }
        let r = Self { nonce: random_u8(), buckets };
        proof {
            assert forall|d: nat| #[trigger] table_wf(r, d) by {
                assert(forall|j: int|
                    0 <= j < r.buckets@.len() ==> slot_wf(#[trigger] r.buckets@[j], r.nonce, j, d));
            }
            assert forall|d: nat| #[trigger] table_view(r, d) == Map::<K::V, V>::empty() by {
                lemma_slot_views_index(r.buckets@, d);
                assert forall|kv: K::V|
                    !(#[trigger] table_view(r, d).dom().contains(kv)) by {
                    lemma_union_seq_contains(slot_views(r.buckets@, d), kv);
                    if table_view(r, d).dom().contains(kv) {
                        let j = choose|j: int|
                            0 <= j < slot_views(r.buckets@, d).len() && (#[trigger] slot_views(
                                r.buckets@,
                                d,
                            )[j].dom().contains(kv));
                        assert(opt_bucket_view(r.buckets@[j], d).dom().contains(kv));
                    }
                }
                assert(table_view(r, d) =~= Map::<K::V, V>::empty());
            }
        }
        r
    }
}

} // verus!

verus! {

use vstd::pervasive::unreached;

/// The abstract key of a leaf bucket.
pub closed spec fn leaf_kv<K: MapKey, V>(b: Bucket<K, V>) -> K::V
    recommends
        b is Leaf,
{
    b->Leaf_1.key@
}

/// The value of a leaf bucket.
pub closed spec fn leaf_val<K: MapKey, V>(b: Bucket<K, V>) -> V
    recommends
        b is Leaf,
{
    b->Leaf_1.value
}

/// In a well-formed table with empty contents, every slot is empty.
proof fn lemma_empty_slots<K: MapKey, V>(t: Table<K, V>, depth: nat)
    requires
        table_wf(t, depth),
        table_view(t, depth) == Map::<K::V, V>::empty(),
    ensures
        forall|j: int|
            0 <= j < t.buckets@.len() ==> opt_bucket_view(#[trigger] t.buckets@[j], depth)
                == Map::<K::V, V>::empty(),
{
    lemma_slot_views_index(t.buckets@, depth);
    assert forall|j: int| 0 <= j < t.buckets@.len() implies opt_bucket_view(
        #[trigger] t.buckets@[j],
        depth,
    ) == Map::<K::V, V>::empty() by {
        assert forall|kv: K::V|
            !(#[trigger] opt_bucket_view(t.buckets@[j], depth).dom().contains(kv)) by {
            if opt_bucket_view(t.buckets@[j], depth).dom().contains(kv) {
                assert(slot_views(t.buckets@, depth)[j].dom().contains(kv));
                lemma_union_seq_contains(slot_views(t.buckets@, depth), kv);
                assert(table_view(t, depth).dom().contains(kv));
            }
        }
        assert(opt_bucket_view(t.buckets@[j], depth) =~= Map::<K::V, V>::empty());
    }
}

/// Build one bucket holding exactly the two given leaves' entries: a
/// nested level whose salt separates them, nesting further on repeated
/// collision, or the flat fallback once the depth budget is spent.
fn join_leaves<K: MapKey, V>(b1: Bucket<K, V>, b2: Bucket<K, V>, depth: usize) -> (r: Bucket<
    K,
    V,
>)
    requires
        b1 is Leaf,
        b2 is Leaf,
        leaf_kv(b1) != leaf_kv(b2),
    ensures
        bucket_wf(r, depth as nat),
        bucket_view(r, depth as nat) == Map::<K::V, V>::empty().insert(
            leaf_kv(b1),
            leaf_val(b1),
        ).insert(leaf_kv(b2), leaf_val(b2)),
    decreases depth,
{
    let ghost k1 = leaf_kv(b1);
    let ghost k2 = leaf_kv(b2);
    let (tag1, e1) = match b1 {
        Bucket::Leaf(t, e) => (t, e),
        _ => unreached(),
    };
    let (tag2, e2) = match b2 {
        Bucket::Leaf(t, e) => (t, e),
        _ => unreached(),
    };
    if depth == 0 {
        let mut vm: VecMap<K, V> = VecMap::new();
        vm.insert(e1.key, e1.value);
        vm.insert(e2.key, e2.value);
        Bucket::Flat(vm)
    } else {
        let mut t: Table<K, V> = Table::empty();
        let ghost d1 = (depth - 1) as nat;
        proof {
            assert(table_wf(t, d1));
            assert(table_view(t, d1) == Map::<K::V, V>::empty());
            assert(t.buckets@.len() == TABLE_SIZE);
            lemma_empty_slots(t, d1);
        }
        let s1: usize = (e1.key.key_hash(t.nonce as u64) % (TABLE_SIZE as u64)) as usize;
        let s2: usize = (e2.key.key_hash(t.nonce as u64) % (TABLE_SIZE as u64)) as usize;
        proof {
            assert(s1 as int == slot_of::<K>(k1, t.nonce));
            assert(s2 as int == slot_of::<K>(k2, t.nonce));
            assert(s1 < TABLE_SIZE && s2 < TABLE_SIZE);
        }
        if s1 != s2 {
            let ghost pre1 = t;
            let slot1 = &mut t.buckets[s1];
            *slot1 = Some(Bucket::Leaf(tag1, e1));
            proof {
                assert(opt_bucket_view(pre1.buckets@[s1 as int], d1) == Map::<K::V, V>::empty());
                assert(bucket_view(t.buckets@[s1 as int]->Some_0, d1) =~= Map::<
                    K::V,
                    V,
                >::empty().insert(k1, leaf_val(b1)));
                assert(opt_bucket_view(t.buckets@[s1 as int], d1)
                    =~= opt_bucket_view(pre1.buckets@[s1 as int], d1).insert(k1, leaf_val(b1)));
                assert(slot_wf(t.buckets@[s1 as int], t.nonce, s1 as int, d1));
                lemma_table_insert(pre1, t, d1, k1, leaf_val(b1));
            }
            let ghost pre2 = t;
            let slot2 = &mut t.buckets[s2];
            *slot2 = Some(Bucket::Leaf(tag2, e2));
            proof {
                assert(pre2.buckets@[s2 as int] == pre1.buckets@[s2 as int]);
                assert(opt_bucket_view(pre2.buckets@[s2 as int], d1) == Map::<K::V, V>::empty());
                assert(bucket_view(t.buckets@[s2 as int]->Some_0, d1) =~= Map::<
                    K::V,
                    V,
                >::empty().insert(k2, leaf_val(b2)));
                assert(opt_bucket_view(t.buckets@[s2 as int], d1)
                    =~= opt_bucket_view(pre2.buckets@[s2 as int], d1).insert(k2, leaf_val(b2)));
                assert(slot_wf(t.buckets@[s2 as int], t.nonce, s2 as int, d1));
                lemma_table_insert(pre2, t, d1, k2, leaf_val(b2));
            }
            let btag: u8 = random_u8();
            Bucket::Branch(btag, t)
        } else {
            let inner = join_leaves(Bucket::Leaf(tag1, e1), Bucket::Leaf(tag2, e2), depth - 1);
            let ghost pre1 = t;
            let slot1 = &mut t.buckets[s1];
            *slot1 = Some(inner);
            proof {
                assert forall|kv: K::V|
                    #[trigger] bucket_view(inner, d1).dom().contains(kv) implies slot_of::<K>(
                    kv,
                    t.nonce,
                ) == s1 as int by {
                    assert(kv == k1 || kv == k2);
                }
                assert(slot_wf(t.buckets@[s1 as int], t.nonce, s1 as int, d1));
                assert(opt_bucket_view(t.buckets@[s1 as int], d1)
                    == bucket_view(inner, d1));
                assert(bucket_view(inner, d1) =~= opt_bucket_view(
                    pre1.buckets@[s1 as int],
                    d1,
                ).insert(k1, leaf_val(b1)).insert(k2, leaf_val(b2)));
                assert(opt_bucket_view(t.buckets@[s1 as int], d1) =~= Map::<
                    K::V,
                    V,
                >::empty().insert(k1, leaf_val(b1)).insert(k2, leaf_val(b2)));
                lemma_table_join_slot(pre1, t, d1, s1 as int, k1, k2, leaf_val(b1), leaf_val(b2));
            }
            let btag: u8 = random_u8();
            Bucket::Branch(btag, t)
        }
    }
}

/// Placing, into an empty table's slot `i`, a bucket holding exactly two
/// keys that both route to `i`, makes the table hold exactly those two.
proof fn lemma_table_join_slot<K: MapKey, V>(
    pre: Table<K, V>,
    post: Table<K, V>,
    depth: nat,
    i: int,
    k1: K::V,
    k2: K::V,
    v1: V,
    v2: V,
)
    requires
        table_wf(pre, depth),
        table_view(pre, depth) == Map::<K::V, V>::empty(),
        post.nonce == pre.nonce,
        post.buckets@.len() == pre.buckets@.len(),
        0 <= i < pre.buckets@.len(),
        forall|j: int|
            0 <= j < pre.buckets@.len() && j != i ==> #[trigger] post.buckets@[j]
                == pre.buckets@[j],
        slot_wf(post.buckets@[i], post.nonce, i, depth),
        opt_bucket_view(post.buckets@[i], depth) == Map::<K::V, V>::empty().insert(k1, v1).insert(
            k2,
            v2,
        ),
    ensures
        table_wf(post, depth),
        table_view(post, depth) == Map::<K::V, V>::empty().insert(k1, v1).insert(k2, v2),
{
    assert forall|j: int| 0 <= j < post.buckets@.len() implies slot_wf(
        #[trigger] post.buckets@[j],
        post.nonce,
        j,
        depth,
    ) by {
        if j != i {
            assert(post.buckets@[j] == pre.buckets@[j]);
            assert(slot_wf(pre.buckets@[j], pre.nonce, j, depth));
        }
    }
    assert(table_wf(post, depth));
    lemma_empty_slots(pre, depth);
    let target = Map::<K::V, V>::empty().insert(k1, v1).insert(k2, v2);
    assert forall|kv: K::V| #[trigger]
        table_view(post, depth).dom().contains(kv) implies target.dom().contains(kv)
        && table_view(post, depth)[kv] == target[kv] by {
        lemma_table_route(post, depth, kv);
        let sv = slot_of::<K>(kv, post.nonce);
        if sv != i {
            assert(post.buckets@[sv] == pre.buckets@[sv]);
            assert(opt_bucket_view(pre.buckets@[sv], depth) == Map::<K::V, V>::empty());
            assert(false);
        }
        assert(slot_of::<K>(kv, post.nonce) == i);
    }
    assert forall|kv: K::V| #[trigger]
        target.dom().contains(kv) implies table_view(post, depth).dom().contains(kv) by {
        lemma_table_route(post, depth, kv);
        assert(slot_wf(post.buckets@[i], post.nonce, i, depth));
        assert(opt_bucket_view(post.buckets@[i], depth).dom().contains(kv));
        assert(bucket_view(post.buckets@[i]->Some_0, depth).dom().contains(kv));
        assert(slot_of::<K>(kv, post.nonce) == i);
    }
    assert(table_view(post, depth) =~= target);
}

impl<K: MapKey, V> Table<K, V> {
    /// Look up `key`, descending through nested levels.
    pub fn get(&self, key: &K, depth: usize) -> (r: Option<(&K, &V)>)
        requires
            table_wf(*self, depth as nat),
        ensures
            match r {
                Some(p) => {
                    &&& table_view(*self, depth as nat).dom().contains(key@)
                    &&& p.0@ == key@
                    &&& *p.1 == table_view(*self, depth as nat)[key@]
                },
                None => !table_view(*self, depth as nat).dom().contains(key@),
            },
        decreases depth,
    {
        let ghost kv = key@;
        let ghost d = depth as nat;
        proof {
            lemma_table_route(*self, d, kv);
        }
        let slot_idx: usize = (key.key_hash(self.nonce as u64) % (TABLE_SIZE as u64)) as usize;
        proof {
            assert(slot_idx as int == slot_of::<K>(kv, self.nonce));
        }
        match &self.buckets[slot_idx] {
            None => None,
            Some(Bucket::Leaf(_, e)) => {
                if e.key.key_eq(key) {
                    Some((&e.key, &e.value))
                } else {
                    None
                }
            },
            Some(Bucket::Branch(_, t)) => {
                proof {
                    assert(slot_wf(self.buckets@[slot_idx as int], self.nonce, slot_idx as int, d));
                }
                t.get(key, depth - 1)
            },
            Some(Bucket::Flat(vm)) => {
                proof {
                    assert(slot_wf(self.buckets@[slot_idx as int], self.nonce, slot_idx as int, d));
                }
                vm.get_entry(key)
            },
        }
    }

    /// Whether the table holds `key`.
    pub fn contains_key(&self, key: &K, depth: usize) -> (r: bool)
        requires
            table_wf(*self, depth as nat),
        ensures
            r == table_view(*self, depth as nat).dom().contains(key@),
    {
        self.get(key, depth).is_some()
    }

    /// Place `(key, value)`, replacing any prior value for the key; a
    /// colliding pair of entries is promoted into a nested level.
    pub fn insert(&mut self, key: K, value: V, tag: u8, depth: usize)
        requires
            table_wf(*old(self), depth as nat),
        ensures
            table_wf(*final(self), depth as nat),
            table_view(*final(self), depth as nat) == table_view(*old(self), depth as nat).insert(
                key@,
                value,
            ),
        decreases depth,
    {
        let ghost kv = key@;
        let ghost d = depth as nat;
        let slot_idx: usize = (key.key_hash(self.nonce as u64) % (TABLE_SIZE as u64)) as usize;
        proof {
            assert(slot_idx as int == slot_of::<K>(kv, self.nonce));
        }
        let ghost pre = *self;
        let slot_ref = &mut self.buckets[slot_idx];
        let mut cur: Option<Bucket<K, V>> = None;
        core::mem::swap(slot_ref, &mut cur);
        proof {
            assert(cur == pre.buckets@[slot_idx as int]);
            assert(slot_wf(pre.buckets@[slot_idx as int], pre.nonce, slot_idx as int, d));
        }
        let newb: Bucket<K, V> = match cur {
            None => Bucket::Leaf(tag, Entry { key, value }),
            Some(Bucket::Flat(mut vm)) => {
                vm.insert(key, value);
                Bucket::Flat(vm)
            },
            Some(Bucket::Branch(btag, mut t)) => {
                t.insert(key, value, tag, depth - 1);
                Bucket::Branch(btag, t)
            },
            Some(Bucket::Leaf(ltag, le)) => {
                if le.key.key_eq(&key) {
                    Bucket::Leaf(tag, Entry { key, value })
                } else {
                    join_leaves(
                        Bucket::Leaf(ltag, le),
                        Bucket::Leaf(tag, Entry { key, value }),
                        depth,
                    )
                }
            },
        };
        proof {
            assert(bucket_view(newb, d) =~= opt_bucket_view(
                pre.buckets@[slot_idx as int],
                d,
            ).insert(kv, value));
            assert forall|kv2: K::V|
                #[trigger] bucket_view(newb, d).dom().contains(kv2) implies slot_of::<K>(
                kv2,
                pre.nonce,
            ) == slot_idx as int by {
                if kv2 != kv {
                    assert(opt_bucket_view(pre.buckets@[slot_idx as int], d).dom().contains(kv2));
                    assert(bucket_view(pre.buckets@[slot_idx as int]->Some_0, d).dom().contains(
                        kv2,
                    ));
                }
            }
        }
        *slot_ref = Some(newb);
        proof {
            assert(slot_wf(self.buckets@[slot_idx as int], self.nonce, slot_idx as int, d));
            lemma_table_insert(pre, *self, d, kv, value);
        }
    }

    /// Remove any entry for `key`. Levels are not collapsed.
    pub fn remove(&mut self, key: &K, depth: usize)
        requires
            table_wf(*old(self), depth as nat),
        ensures
            table_wf(*final(self), depth as nat),
            table_view(*final(self), depth as nat) == table_view(*old(self), depth as nat).remove(
                key@,
            ),
        decreases depth,
    {
        let ghost kv = key@;
        let ghost d = depth as nat;
        let slot_idx: usize = (key.key_hash(self.nonce as u64) % (TABLE_SIZE as u64)) as usize;
        proof {
            assert(slot_idx as int == slot_of::<K>(kv, self.nonce));
        }
        let ghost pre = *self;
        let slot_ref = &mut self.buckets[slot_idx];
        let mut cur: Option<Bucket<K, V>> = None;
        core::mem::swap(slot_ref, &mut cur);
        proof {
            assert(cur == pre.buckets@[slot_idx as int]);
            assert(slot_wf(pre.buckets@[slot_idx as int], pre.nonce, slot_idx as int, d));
        }
        let newb: Option<Bucket<K, V>> = match cur {
            None => None,
            Some(Bucket::Flat(mut vm)) => {
                let _ = vm.remove(key);
                Some(Bucket::Flat(vm))
            },
            Some(Bucket::Branch(btag, mut t)) => {
                t.remove(key, depth - 1);
                Some(Bucket::Branch(btag, t))
            },
            Some(Bucket::Leaf(ltag, le)) => {
                if le.key.key_eq(key) {
                    None
                } else {
                    Some(Bucket::Leaf(ltag, le))
                }
            },
        };
        proof {
            assert(opt_bucket_view(newb, d) =~= opt_bucket_view(
                pre.buckets@[slot_idx as int],
                d,
            ).remove(kv));
            if newb is Some {
                assert forall|kv2: K::V|
                    #[trigger] bucket_view(newb->Some_0, d).dom().contains(kv2) implies slot_of::<
                    K,
                >(kv2, pre.nonce) == slot_idx as int by {
                    assert(opt_bucket_view(pre.buckets@[slot_idx as int], d).dom().contains(kv2));
                    assert(bucket_view(pre.buckets@[slot_idx as int]->Some_0, d).dom().contains(
                        kv2,
                    ));
                }
            }
        }
        *slot_ref = newb;
        proof {
            assert(slot_wf(self.buckets@[slot_idx as int], self.nonce, slot_idx as int, d));
            lemma_table_remove(pre, *self, d, kv);
        }
    }
}

} // verus!

verus! {

use crate::dashmap::clamp_to_usize;
use crate::dashmap::lemma_sum_lens_take_step;

/// Every bucket of a well-formed slot reaches finitely many entries, and a
/// well-formed table's contents are the disjoint union of its slots'.
proof fn lemma_table_view_len<K: MapKey, V>(t: Table<K, V>, depth: nat)
    requires
        table_wf(t, depth),
    ensures
        table_view(t, depth).dom().finite(),
        table_view(t, depth).len() == sum_lens(slot_views(t.buckets@, depth)),
        forall|j: int|
            0 <= j < t.buckets@.len() ==> (#[trigger] opt_bucket_view(
                t.buckets@[j],
                depth,
            )).dom().finite(),
    decreases depth, 3int, 0int,
{
    lemma_slot_views_index(t.buckets@, depth);
    assert forall|j: int| 0 <= j < t.buckets@.len() implies (#[trigger] opt_bucket_view(
        t.buckets@[j],
        depth,
    )).dom().finite() by {
        lemma_opt_view_finite(t.buckets@[j], t.nonce, j, depth);
    }
    let ms = slot_views(t.buckets@, depth);
    assert forall|i: int, j: int, kv: K::V|
        0 <= i < ms.len() && 0 <= j < ms.len() && i != j && (#[trigger] ms[i].dom().contains(kv))
            implies !(#[trigger] ms[j].dom().contains(kv)) by {
        assert(opt_bucket_view(t.buckets@[i], depth).dom().contains(kv));
        assert(slot_wf(t.buckets@[i], t.nonce, i, depth));
        assert(bucket_view(t.buckets@[i]->Some_0, depth).dom().contains(kv));
        if ms[j].dom().contains(kv) {
            assert(opt_bucket_view(t.buckets@[j], depth).dom().contains(kv));
            assert(slot_wf(t.buckets@[j], t.nonce, j, depth));
            assert(bucket_view(t.buckets@[j]->Some_0, depth).dom().contains(kv));
        }
    }
    assert forall|i: int| 0 <= i < ms.len() implies (#[trigger] ms[i].dom().finite()) by {
        assert(ms[i] == opt_bucket_view(t.buckets@[i], depth));
    }
    lemma_union_seq_len(ms);
}

/// The contents reachable through one slot are finite.
proof fn lemma_opt_view_finite<K: MapKey, V>(o: Option<Bucket<K, V>>, nonce: u8, i: int, depth: nat)
    requires
        slot_wf(o, nonce, i, depth),
    ensures
        opt_bucket_view(o, depth).dom().finite(),
    decreases depth, 2int, 0int,
{
    match o {
        None => {
            assert(opt_bucket_view(o, depth) =~= Map::<K::V, V>::empty());
        },
        Some(b) => {
            match b {
                Bucket::Leaf(_, e) => {
                    assert(bucket_view(b, depth).dom() =~= Set::empty().insert(e.key@));
                },
                Bucket::Flat(vm) => {
                    vm.lemma_len();
                },
                Bucket::Branch(_, t) => {
                    lemma_table_view_len(t, (depth - 1) as nat);
                },
            }
        },
    }
}

impl<K: MapKey, V> Table<K, V> {
    /// The number of entries reachable through the table, clamped into a
    /// machine word.
    pub fn len(&self, depth: usize) -> (r: usize)
        requires
            table_wf(*self, depth as nat),
        ensures
            r == clamp_to_usize(table_view(*self, depth as nat).len()),
        decreases depth, 3int,
    {
        let ghost d = depth as nat;
        proof {
            lemma_table_view_len(*self, d);
            lemma_slot_views_index(self.buckets@, d);
        }
        let n: usize = self.buckets.len();
        proof {
            assert(slot_views(self.buckets@, d).take(0int) =~= Seq::<Map<K::V, V>>::empty());
        }
        let mut acc: usize = 0;
        let mut i: usize = 0;
        while i < n
            invariant
                d == depth as nat,
                table_wf(*self, d),
                n == self.buckets@.len(),
                i <= n,
                acc == clamp_to_usize(sum_lens(slot_views(self.buckets@, d).take(i as int))),
            decreases n - i,
        {
            proof {
                lemma_slot_views_index(self.buckets@, d);
                lemma_sum_lens_take_step(slot_views(self.buckets@, d), i as int);
                assert(slot_wf(self.buckets@[i as int], self.nonce, i as int, d));
                assert(slot_views(self.buckets@, d)[i as int] == opt_bucket_view(
                    self.buckets@[i as int],
                    d,
                ));
            }
            let slot_len: usize = match &self.buckets[i] {
                None => {
                    proof {
                        assert(opt_bucket_view(self.buckets@[i as int], d) =~= Map::<
                            K::V,
                            V,
                        >::empty());
                        vstd::set_lib::lemma_set_empty_equivalency_len(Set::<K::V>::empty());
                    }
                    0
                },
                Some(b) => {
                    proof {
                        assert(self.buckets@[i as int] is Some);
                        assert(*b == self.buckets@[i as int]->Some_0);
                        assert(bucket_wf(*b, d));
                        assert(bucket_view(*b, d) == opt_bucket_view(self.buckets@[i as int], d));
                    }
                    Self::bucket_len(b, depth)
                },
            };
            proof {
                assert(slot_len == clamp_to_usize(opt_bucket_view(
                    self.buckets@[i as int],
                    d,
                ).len()));
            }
            acc = if acc > usize::MAX - slot_len {
                usize::MAX
            } else {
                acc + slot_len
            };
            proof {
                let sa: nat = sum_lens(slot_views(self.buckets@, d).take(i as int));
                let l: nat = opt_bucket_view(self.buckets@[i as int], d).len();
                assert(sum_lens(slot_views(self.buckets@, d).take(i + 1)) == sa + l);
                assert(acc == clamp_to_usize(sa + l));
            }
            i += 1;
        }
        proof {
            assert(slot_views(self.buckets@, d).take(n as int) =~= slot_views(self.buckets@, d));
        }
        acc
    }

    /// The number of entries reachable through one bucket, clamped.
    fn bucket_len(b: &Bucket<K, V>, depth: usize) -> (r: usize)
        requires
            bucket_wf(*b, depth as nat),
        ensures
            r == clamp_to_usize(bucket_view(*b, depth as nat).len()),
        decreases depth, 2int,
    {
        match b {
            Bucket::Leaf(_, e) => {
                proof {
                    assert(bucket_view(*b, depth as nat).dom() =~= Set::empty().insert(e.key@));
                    vstd::set_lib::lemma_set_empty_equivalency_len(Set::<K::V>::empty());
                }
                1
            },
            Bucket::Flat(vm) => {
                proof {
                    vm.lemma_len();
                }
                vm.len()
            },
            Bucket::Branch(_, t) => t.len(depth - 1),
        }
    }

    /// Append a borrow of every entry reachable through the table to `out`.
    pub fn collect_pairs<'a>(&'a self, depth: usize, out: &mut Vec<(&'a K, &'a V)>)
        requires
            table_wf(*self, depth as nat),
        ensures
            final(out)@.len() == old(out)@.len() + table_view(*self, depth as nat).len(),
            forall|p: int| 0 <= p < old(out)@.len() ==> #[trigger] final(out)@[p] == old(out)@[p],
            forall|p: int|
                old(out)@.len() <= p < final(out)@.len() ==> table_view(
                    *self,
                    depth as nat,
                ).dom().contains((#[trigger] final(out)@[p]).0@) && *final(out)@[p].1
                    == table_view(*self, depth as nat)[final(out)@[p].0@],
            forall|p: int, q: int|
                old(out)@.len() <= p < q < final(out)@.len() ==> (#[trigger] final(out)@[p]).0@
                    != (#[trigger] final(out)@[q]).0@,
        decreases depth, 3int,
    {
        let ghost d = depth as nat;
        let ghost base = out@.len();
        proof {
            lemma_table_view_len(*self, d);
            lemma_slot_views_index(self.buckets@, d);
        }
        let n: usize = self.buckets.len();
        proof {
            assert(slot_views(self.buckets@, d).take(0int) =~= Seq::<Map<K::V, V>>::empty());
        }
        let mut i: usize = 0;
        while i < n
            invariant
                d == depth as nat,
                table_wf(*self, d),
                n == self.buckets@.len(),
                i <= n,
                base <= out@.len(),
                out@.len() == base + sum_lens(slot_views(self.buckets@, d).take(i as int)),
                forall|p: int| 0 <= p < base ==> #[trigger] out@[p] == old(out)@[p],
                base == old(out)@.len(),
                forall|p: int|
                    base <= p < out@.len() ==> table_view(*self, d).dom().contains(
                        (#[trigger] out@[p]).0@,
                    ) && *out@[p].1 == table_view(*self, d)[out@[p].0@],
                forall|p: int|
                    base <= p < out@.len() ==> 0 <= slot_of::<K>((#[trigger] out@[p]).0@, self.nonce) < i,
                forall|p: int, q: int|
                    base <= p < q < out@.len() ==> (#[trigger] out@[p]).0@ != (
                    #[trigger] out@[q]).0@,
            decreases n - i,
        {
            proof {
                lemma_slot_views_index(self.buckets@, d);
                lemma_sum_lens_take_step(slot_views(self.buckets@, d), i as int);
                assert(slot_wf(self.buckets@[i as int], self.nonce, i as int, d));
                assert(slot_views(self.buckets@, d)[i as int] == opt_bucket_view(
                    self.buckets@[i as int],
                    d,
                ));
            }
            let ghost out_mid = out@;
            let ghost slot_map = opt_bucket_view(self.buckets@[i as int], d);
            match &self.buckets[i] {
                None => {
                    proof {
                        assert(slot_map =~= Map::<K::V, V>::empty());
                        vstd::set_lib::lemma_set_empty_equivalency_len(Set::<K::V>::empty());
                    }
                },
                Some(b) => {
                    proof {
                        assert(self.buckets@[i as int] is Some);
                        assert(*b == self.buckets@[i as int]->Some_0);
                        assert(bucket_wf(*b, d));
                        assert(bucket_view(*b, d) == slot_map);
                    }
                    Self::collect_bucket(b, depth, out);
                },
            }
            proof {
                let sa: nat = sum_lens(slot_views(self.buckets@, d).take(i as int));
                let l: nat = slot_map.len();
                assert(sum_lens(slot_views(self.buckets@, d).take(i + 1)) == sa + l);
                assert(out@.len() == base + sa + l);
            }
            proof {
                assert forall|p: int|
                    base <= p < out@.len() implies table_view(*self, d).dom().contains(
                    (#[trigger] out@[p]).0@,
                ) && *out@[p].1 == table_view(*self, d)[out@[p].0@] && 0 <= slot_of::<K>(
                    out@[p].0@,
                    self.nonce,
                ) < i + 1 by {
                    if p < out_mid.len() {
                        assert(out@[p] == out_mid[p]);
                    } else {
                        assert(slot_map.dom().contains(out@[p].0@));
                        assert(bucket_view(self.buckets@[i as int]->Some_0, d).dom().contains(
                            out@[p].0@,
                        ));
                        assert(slot_of::<K>(out@[p].0@, self.nonce) == i as int);
                        lemma_table_route(*self, d, out@[p].0@);
                    }
                }
                assert forall|p: int, q: int|
                    base <= p < q < out@.len() implies (#[trigger] out@[p]).0@ != (
                #[trigger] out@[q]).0@ by {
                    if p < out_mid.len() && q >= out_mid.len() {
                        assert(slot_map.dom().contains(out@[q].0@));
                        assert(bucket_view(self.buckets@[i as int]->Some_0, d).dom().contains(
                            out@[q].0@,
                        ));
                        assert(slot_of::<K>(out@[q].0@, self.nonce) == i as int);
                        assert(out@[p] == out_mid[p]);
                        assert(slot_of::<K>(out@[p].0@, self.nonce) < i as int);
                    }
                }
            }
            i += 1;
        }
        proof {
            assert(slot_views(self.buckets@, d).take(n as int) =~= slot_views(self.buckets@, d));
        }
    }

    /// Append a borrow of every entry reachable through one bucket.
    fn collect_bucket<'a>(b: &'a Bucket<K, V>, depth: usize, out: &mut Vec<(&'a K, &'a V)>)
        requires
            bucket_wf(*b, depth as nat),
        ensures
            final(out)@.len() == old(out)@.len() + bucket_view(*b, depth as nat).len(),
            forall|p: int| 0 <= p < old(out)@.len() ==> #[trigger] final(out)@[p] == old(out)@[p],
            forall|p: int|
                old(out)@.len() <= p < final(out)@.len() ==> bucket_view(
                    *b,
                    depth as nat,
                ).dom().contains((#[trigger] final(out)@[p]).0@) && *final(out)@[p].1
                    == bucket_view(*b, depth as nat)[final(out)@[p].0@],
            forall|p: int, q: int|
                old(out)@.len() <= p < q < final(out)@.len() ==> (#[trigger] final(out)@[p]).0@
                    != (#[trigger] final(out)@[q]).0@,
        decreases depth, 2int,
    {
        let ghost d = depth as nat;
        match b {
            Bucket::Leaf(_, e) => {
                out.push((&e.key, &e.value));
                proof {
                    assert(bucket_view(*b, d).dom() =~= Set::empty().insert(e.key@));
                    vstd::set_lib::lemma_set_empty_equivalency_len(Set::<K::V>::empty());
                    assert(bucket_view(*b, d)[e.key@] == e.value);
                }
            },
            Bucket::Flat(vm) => {
                proof {
                    vm.lemma_len();
                    vm.lemma_distinct();
                }
                let pairs = vm.iter();
                let m: usize = pairs.len();
                let ghost base = out@.len();
                let mut j: usize = 0;
                while j < m
                    invariant
                        vm.wf(),
                        m == pairs@.len(),
                        m == vm@.len(),
                        pairs@.len() == vm.key_views().len(),
                        forall|t2: int|
                            0 <= t2 < pairs@.len() ==> ((#[trigger] pairs@[t2]).0)@
                                == vm.key_views()[t2] && *pairs@[t2].1 == vm.value_seq()[t2],
                        j <= m,
                        out@.len() == base + j,
                        forall|p: int| 0 <= p < base ==> #[trigger] out@[p] == old(out)@[p],
                        base == old(out)@.len(),
                        forall|p: int|
                            base <= p < out@.len() ==> vm@.dom().contains(
                                (#[trigger] out@[p]).0@,
                            ) && *out@[p].1 == vm@[out@[p].0@],
                        forall|p: int|
                            base <= p < out@.len() ==> (#[trigger] out@[p]).0@
                                == vm.key_views()[p - base],
                    decreases m - j,
                {
                    let (pk, pv) = pairs[j];
                    proof {
                        vm.lemma_index(j as int);
                    }
                    let ghost out0 = out@;
                    out.push((pk, pv));
                    proof {
                        assert(forall|p: int| 0 <= p < out0.len() ==> #[trigger] out@[p]
                            == out0[p]);
                        assert(out@[base + j as int].0@ == vm.key_views()[j as int]);
                    }
                    j += 1;
                }
                proof {
                    assert forall|p: int, q: int|
                        base <= p < q < out@.len() implies (#[trigger] out@[p]).0@ != (
                    #[trigger] out@[q]).0@ by {
                        assert(out@[p].0@ == vm.key_views()[p - base]);
                        assert(out@[q].0@ == vm.key_views()[q - base]);
                    }
                }
            },
            Bucket::Branch(_, t) => {
                t.collect_pairs(depth - 1, out);
            },
        }
    }
}

} // verus!
