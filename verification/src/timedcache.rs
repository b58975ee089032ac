//! A timed write-back cache over the sharded map. Missing entries are
//! loaded on demand with a caller-supplied function; mutated entries are
//! marked dirty and saved back during periodic maintenance, and stale clean
//! entries are evicted. The host supplies the clock as a millisecond tick
//! to every operation that needs one.

use vstd::prelude::*;

verus! {

use crate::dashmap::DashMap;
use crate::key::MapKey;

/// Default lifetime of an entry, in milliseconds.
pub const VALID_DURATION_MS: u64 = 21_600_000;

/// Default spacing of eviction sweeps, in milliseconds.
pub const VALID_CHECK_INTERVAL_MS: u64 = 1_800_000;

/// Default spacing of save sweeps, in milliseconds.
pub const SAVE_INTERVAL_MS: u64 = 180_000;

/// What the save sweep did to the entry for `kv`: its value and tick are
/// kept, a clean entry stays clean, and a dirty entry was offered to the
/// saving function — its new clean bit is exactly what that call returned
/// for the entry's key and value.
pub open spec fn entry_swept<K: MapKey, V, FS: Fn(&K, &V) -> bool>(
    fs: FS,
    kv: K::V,
    m1: Map<K::V, (V, u64, bool)>,
    m2: Map<K::V, (V, u64, bool)>,
) -> bool {
    &&& m2[kv].0 == m1[kv].0
    &&& m2[kv].1 == m1[kv].1
    &&& (m1[kv].2 ==> m2[kv].2)
    &&& (!m1[kv].2 ==> exists|ke: K, b: bool|
        ke@ == kv && #[trigger] call_ensures(fs, (&ke, &m1[kv].0), b) && m2[kv].2 == b)
}

/// What one save sweep does to the stored entries: the keys are kept, and
/// every entry is swept — in particular every dirty entry's new clean bit
/// is the outcome of a call of the saving function on it.
pub open spec fn save_pass_ok<K: MapKey, V, FS: Fn(&K, &V) -> bool>(
    fs: FS,
    m1: Map<K::V, (V, u64, bool)>,
    m2: Map<K::V, (V, u64, bool)>,
) -> bool {
    &&& m2.dom() == m1.dom()
    &&& forall|kv: K::V| #[trigger] m1.dom().contains(kv) ==> entry_swept(fs, kv, m1, m2)
}

/// An already-swept entry stays swept in any later state that keeps it.
proof fn lemma_swept_frame<K: MapKey, V, FS: Fn(&K, &V) -> bool>(
    fs: FS,
    kv: K::V,
    m1: Map<K::V, (V, u64, bool)>,
    m2a: Map<K::V, (V, u64, bool)>,
    m2b: Map<K::V, (V, u64, bool)>,
)
    requires
        entry_swept(fs, kv, m1, m2a),
        m2b[kv] == m2a[kv],
    ensures
        entry_swept(fs, kv, m1, m2b),
{
    if !m1[kv].2 {
        let (ke0, b0) = choose|ke: K, b: bool|
            ke@ == kv && #[trigger] call_ensures(fs, (&ke, &m1[kv].0), b) && m2a[kv].2 == b;
        assert(call_ensures(fs, (&ke0, &m1[kv].0), b0));
    }
}

/// Whether the entry is ripe for eviction at `now`: clean, and older than
/// the validity window.
pub open spec fn evictable<V>(e: (V, u64, bool), now: u64, valid: u64) -> bool {
    e.2 && now > e.1 && now - e.1 > valid
}

/// What one eviction sweep does: it keeps exactly the entries that are not
/// evictable, unchanged.
pub open spec fn purge_ok<KV, V>(
    now: u64,
    valid: u64,
    m1: Map<KV, (V, u64, bool)>,
    m2: Map<KV, (V, u64, bool)>,
) -> bool {
    &&& forall|kv: KV| #[trigger] m2.dom().contains(kv) ==> m1.dom().contains(kv) && m2[kv]
        == m1[kv]
    &&& forall|kv: KV| #[trigger] m1.dom().contains(kv)
        ==> (m2.dom().contains(kv) <==> !evictable(m1[kv], now, valid))
}

/// The timed cache: entries are triples of the value, the millisecond tick
/// at which they were loaded or stored, and a clean bit that is true while
/// the backing store reflects the value.
pub struct TimedCache<K: MapKey, V, FL, FS> {
    storage: DashMap<K, (V, u64, bool)>,
    load_item_fn: FL,
    save_item_fn: FS,
    last_saved: u64,
    last_purged: u64,
    valid_duration: u64,
    valid_check_interval: u64,
    save_interval: u64,
}

impl<K: MapKey, V, FL: Fn(&K) -> Option<V>, FS: Fn(&K, &V) -> bool> View for TimedCache<
    K,
    V,
    FL,
    FS,
> {
    type V = Map<K::V, (V, u64, bool)>;

    closed spec fn view(&self) -> Map<K::V, (V, u64, bool)> {
        self.storage@
    }
}

impl<K: MapKey, V, FL: Fn(&K) -> Option<V>, FS: Fn(&K, &V) -> bool> TimedCache<K, V, FL, FS> {
    /// The loading function.
    pub closed spec fn loader(self) -> FL {
        self.load_item_fn
    }

    /// The saving function.
    pub closed spec fn saver(self) -> FS {
        self.save_item_fn
    }

    /// Tick of the last save sweep.
    pub closed spec fn spec_last_saved(self) -> u64 {
        self.last_saved
    }

    /// Tick of the last eviction sweep.
    pub closed spec fn spec_last_purged(self) -> u64 {
        self.last_purged
    }

    /// The three configured durations: validity window, eviction-sweep
    /// spacing, save-sweep spacing.
    pub closed spec fn spec_durations(self) -> (u64, u64, u64) {
        (self.valid_duration, self.valid_check_interval, self.save_interval)
    }

    /// Well-formed: the backing map is.
    pub closed spec fn wf(self) -> bool {
        self.storage.wf()
    }

    /// Everything but the stored entries and the two sweep ticks.
    pub open spec fn same_config(self, other: Self) -> bool {
        &&& self.loader() == other.loader()
        &&& self.saver() == other.saver()
        &&& self.spec_durations() == other.spec_durations()
    }

    /// Create a cache with the given loading and saving functions; `None`
    /// durations fall back to the defaults. `now` seeds the sweep ticks.
    pub fn new(
        load_item: FL,
        save_item: FS,
        valid_duration: Option<u64>,
        valid_check_interval: Option<u64>,
        save_interval: Option<u64>,
        now: u64,
    ) -> (r: Self)
        ensures
            r.wf(),
            r@ == Map::<K::V, (V, u64, bool)>::empty(),
            r.loader() == load_item,
            r.saver() == save_item,
            r.spec_last_saved() == now,
            r.spec_last_purged() == now,
            r.spec_durations() == (
                valid_duration.unwrap_or(VALID_DURATION_MS),
                valid_check_interval.unwrap_or(VALID_CHECK_INTERVAL_MS),
                save_interval.unwrap_or(SAVE_INTERVAL_MS),
            ),
    {
        Self {
            storage: DashMap::default(),
            load_item_fn: load_item,
            save_item_fn: save_item,
            last_saved: now,
            last_purged: now,
            valid_duration: match valid_duration {
                Some(d) => d,
                None => VALID_DURATION_MS,
            },
            valid_check_interval: match valid_check_interval {
                Some(d) => d,
                None => VALID_CHECK_INTERVAL_MS,
            },
            save_interval: match save_interval {
                Some(d) => d,
                None => SAVE_INTERVAL_MS,
            },
        }
    }

    /// Ensure an entry for `k` is cached: a missing entry is requested from
    /// the loading function and, when one comes back, stored clean with the
    /// current tick; a failed load leaves the cache unchanged.
    pub fn load_item(&mut self, k: &K, now: u64)
        requires
            old(self).wf(),
            forall|k2: &K| call_requires(old(self).loader(), (k2,)),
        ensures
            final(self).wf(),
            final(self).same_config(*old(self)),
            final(self).spec_last_saved() == old(self).spec_last_saved(),
            final(self).spec_last_purged() == old(self).spec_last_purged(),
            old(self)@.dom().contains(k@) ==> final(self)@ == old(self)@,
            !old(self)@.dom().contains(k@) ==> exists|lr: Option<V>|
                #[trigger] call_ensures(old(self).loader(), (k,), lr) && final(self)@ == (
                match lr {
                    Some(v) => old(self)@.insert(k@, (v, now, true)),
                    None => old(self)@,
                }),
    {
        if !self.storage.contains_key(k) {
            proof {
                assert(call_requires(old(self).loader(), (k,)));
            }
            let loaded = (self.load_item_fn)(k);
            match loaded {
                Some(v) => {
                    let ghost witness = Some(v);
                    self.storage.insert(k.key_clone(), (v, now, true));
                    proof {
                        assert(call_ensures(old(self).loader(), (k,), witness));
                    }
                },
                None => {
                    proof {
                        assert(call_ensures(old(self).loader(), (k,), None::<V>));
                    }
                },
            }
        }
    }

    /// Apply `f` to a shared borrow of the cached value for `k`, loading it
    /// first if needed; `None` when the key is absent and cannot be loaded.
    pub fn map<T, F: FnOnce(&V) -> T>(&mut self, k: &K, now: u64, f: F) -> (r: Option<T>)
        requires
            old(self).wf(),
            forall|k2: &K| call_requires(old(self).loader(), (k2,)),
            forall|v: &V| call_requires(f, (v,)),
        ensures
            final(self).wf(),
            final(self).same_config(*old(self)),
            final(self).spec_last_saved() == old(self).spec_last_saved(),
            final(self).spec_last_purged() == old(self).spec_last_purged(),
            old(self)@.dom().contains(k@) ==> final(self)@ == old(self)@,
            !old(self)@.dom().contains(k@) ==> exists|lr: Option<V>|
                #[trigger] call_ensures(old(self).loader(), (k,), lr) && final(self)@ == (
                match lr {
                    Some(v) => old(self)@.insert(k@, (v, now, true)),
                    None => old(self)@,
                }),
            match r {
                Some(t) => final(self)@.dom().contains(k@) && call_ensures(
                    f,
                    (&final(self)@[k@].0,),
                    t,
                ),
                None => !final(self)@.dom().contains(k@),
            },
    {
        self.load_item(k, now);
        match self.storage.get(k) {
            Some(data) => Some(f(&data.0)),
            None => None,
        }
    }

    /// Apply `f` to the cached value for `k`, storing its result as the new
    /// value and marking the entry dirty; the load-time tick is kept.
    /// `None` when the key is absent and cannot be loaded.
    pub fn map_mut<T, F: FnOnce(V) -> (V, T)>(&mut self, k: &K, now: u64, f: F) -> (r: Option<T>)
        requires
            old(self).wf(),
            forall|k2: &K| call_requires(old(self).loader(), (k2,)),
            forall|v: V| call_requires(f, (v,)),
        ensures
            final(self).wf(),
            final(self).same_config(*old(self)),
            final(self).spec_last_saved() == old(self).spec_last_saved(),
            final(self).spec_last_purged() == old(self).spec_last_purged(),
            match r {
                Some(t) => {
                    &&& final(self)@.dom().contains(k@)
                    &&& final(self)@[k@].2 == false
                    &&& exists|mid: Map<K::V, (V, u64, bool)>|
                        {
                            &&& (old(self)@.dom().contains(k@) ==> mid == old(self)@)
                            &&& (!old(self)@.dom().contains(k@) ==> exists|lv: V|
                                #[trigger] call_ensures(old(self).loader(), (k,), Some(lv))
                                    && mid == old(self)@.insert(k@, (lv, now, true)))
                            &&& #[trigger] mid.dom().contains(k@)
                            &&& call_ensures(f, (mid[k@].0,), (final(self)@[k@].0, t))
                            &&& final(self)@[k@].1 == mid[k@].1
                            &&& final(self)@ == mid.insert(k@, final(self)@[k@])
                        }
                },
                None => {
                    &&& !final(self)@.dom().contains(k@)
                    &&& final(self)@ == old(self)@
                    &&& (!old(self)@.dom().contains(k@) && call_ensures(
                        old(self).loader(),
                        (k,),
                        None::<V>,
                    ))
                },
            },
    {
        self.load_item(k, now);
        let ghost mid_map = self@;
        match self.storage.remove(k) {
            Some((ks, data)) => {
                let (v, stamp, _clean) = data;
                let (v2, t) = f(v);
                self.storage.insert(ks, (v2, stamp, false));
                proof {
                    assert(final(self)@ =~= mid_map.insert(k@, final(self)@[k@]));
                }
                Some(t)
            },
            None => None,
        }
    }

    /// The load-time tick and clean bit of the cached entry for `k`.
    pub fn entry_info(&self, k: &K) -> (r: Option<(u64, bool)>)
        requires
            self.wf(),
        ensures
            match r {
                Some(info) => self@.dom().contains(k@) && info.0 == self@[k@].1 && info.1
                    == self@[k@].2,
                None => !self@.dom().contains(k@),
            },
    {
        match self.storage.get(k) {
            Some(data) => Some((data.1, data.2)),
            None => None,
        }
    }

    /// Run maintenance at tick `now`: when a save sweep is due, offer every
    /// dirty entry to the saving function and mark it clean on success;
    /// when an eviction sweep is due, drop every clean entry older than the
    /// validity window.
    pub fn do_check(&mut self, now: u64)
        requires
            old(self).wf(),
            forall|k2: &K, v2: &V| call_requires(old(self).saver(), (k2, v2)),
        ensures
            final(self).wf(),
            final(self).same_config(*old(self)),
            final(self).spec_last_saved() == (if now > old(self).spec_last_saved() && now - old(
                self,
            ).spec_last_saved() > old(self).spec_durations().2 {
                now
            } else {
                old(self).spec_last_saved()
            }),
            final(self).spec_last_purged() == (if now > old(self).spec_last_purged() && now - old(
                self,
            ).spec_last_purged() > old(self).spec_durations().1 {
                now
            } else {
                old(self).spec_last_purged()
            }),
            exists|mid: Map<K::V, (V, u64, bool)>|
                {
                    &&& (if now > old(self).spec_last_saved() && now - old(
                        self,
                    ).spec_last_saved() > old(self).spec_durations().2 {
                        save_pass_ok(old(self).saver(), old(self)@, mid)
                    } else {
                        mid == old(self)@
                    })
                    &&& #[trigger] mid.dom().finite()
                    &&& (if now > old(self).spec_last_purged() && now - old(
                        self,
                    ).spec_last_purged() > old(self).spec_durations().1 {
                        purge_ok(now, old(self).spec_durations().0, mid, final(self)@)
                    } else {
                        final(self)@ == mid
                    })
                },
    {
        let save_due = now > self.last_saved && now - self.last_saved > self.save_interval;
        let purge_due = now > self.last_purged && now - self.last_purged
            > self.valid_check_interval;
        if save_due {
            self.last_saved = now;
            proof {
                assert(self.saver() == old(self).saver());
                assert forall|k2: &K, v2: &V| call_requires(self.saver(), (k2, v2)) by {
                    assert(call_requires(old(self).saver(), (k2, v2)));
                }
            }
            self.run_save_pass();
        }
        let ghost mid_map = self@;
        proof {
            self.storage.lemma_len_is_shard_sum();
        }
        if purge_due {
            self.last_purged = now;
            let valid: u64 = self.valid_duration;
            let pred = |pk: &K, pv: &(V, u64, bool)| -> (keep: bool)
                ensures
                    keep == !evictable(*pv, now, valid),
                {
                    !(pv.2 && now > pv.1 && now - pv.1 > valid)
                };
            self.storage.retain(&pred);
            proof {
                assert forall|kv: K::V| #[trigger] mid_map.dom().contains(kv) implies (self@
                    .dom().contains(kv) <==> !evictable(mid_map[kv], now, valid)) by {
                    assert(crate::vecmap::pred_outcome(pred, kv, mid_map[kv],
                        self@.dom().contains(kv)));
                    let ke = choose|ke: K|
                        ke@ == kv && #[trigger] call_ensures(pred, (&ke, &mid_map[kv]),
                            self@.dom().contains(kv));
                    assert(call_ensures(pred, (&ke, &mid_map[kv]), self@.dom().contains(kv)));
                }
                assert(purge_ok(now, valid, mid_map, self@));
            }
        }
    }

    /// One save sweep: every entry of every shard is visited once; each
    /// dirty one is handed to the saving function and its clean bit set to
    /// what the call returned.
    fn run_save_pass(&mut self)
        requires
            old(self).wf(),
            forall|k2: &K, v2: &V| call_requires(old(self).saver(), (k2, v2)),
        ensures
            final(self).wf(),
            final(self).same_config(*old(self)),
            final(self).spec_last_saved() == old(self).spec_last_saved(),
            final(self).spec_last_purged() == old(self).spec_last_purged(),
            save_pass_ok(old(self).saver(), old(self)@, final(self)@),
    {
        let nshards: usize = self.storage.chunks_count();
        let mut s: usize = 0;
        while s < nshards
            invariant
                old(self).wf(),
                self.wf(),
                nshards == self.storage.spec_chunks_count(),
                nshards == old(self).storage.spec_chunks_count(),
                s <= nshards,
                self.same_config(*old(self)),
                self.last_saved == old(self).last_saved,
                self.last_purged == old(self).last_purged,
                forall|k2: &K, v2: &V| call_requires(old(self).saver(), (k2, v2)),
                forall|s2: int|
                    0 <= s2 < nshards ==> #[trigger] self.storage.shard_keys(s2) == old(
                        self,
                    ).storage.shard_keys(s2),
                self@.dom() == old(self)@.dom(),
                forall|s2: int, i2: int|
                    0 <= s2 < s && 0 <= i2 < old(self).storage.shard_keys(s2).len()
                        ==> entry_swept(old(self).saver(), #[trigger] old(
                        self,
                    ).storage.shard_keys(s2)[i2], old(self)@, self@),
                forall|s2: int, i2: int|
                    s <= s2 < nshards && 0 <= i2 < old(self).storage.shard_keys(s2).len()
                        ==> self@[#[trigger] old(self).storage.shard_keys(s2)[i2]] == old(
                        self,
                    )@[old(self).storage.shard_keys(s2)[i2]],
            decreases nshards - s,
        {
            let m: usize = self.storage.shard_len(s);
            proof {
                assert(m == old(self).storage.shard_keys(s as int).len());
            }
            let mut i: usize = 0;
            while i < m
                invariant
                    old(self).wf(),
                    self.wf(),
                    nshards == self.storage.spec_chunks_count(),
                    nshards == old(self).storage.spec_chunks_count(),
                    s < nshards,
                    m == old(self).storage.shard_keys(s as int).len(),
                    i <= m,
                    self.same_config(*old(self)),
                    self.last_saved == old(self).last_saved,
                    self.last_purged == old(self).last_purged,
                    forall|k2: &K, v2: &V| call_requires(old(self).saver(), (k2, v2)),
                    forall|s2: int|
                        0 <= s2 < nshards ==> #[trigger] self.storage.shard_keys(s2) == old(
                            self,
                        ).storage.shard_keys(s2),
                    self@.dom() == old(self)@.dom(),
                    forall|s2: int, i2: int|
                        0 <= s2 < s && 0 <= i2 < old(self).storage.shard_keys(s2).len()
                            ==> entry_swept(old(self).saver(), #[trigger] old(
                            self,
                        ).storage.shard_keys(s2)[i2], old(self)@, self@),
                    forall|s2: int, i2: int|
                        s < s2 < nshards && 0 <= i2 < old(self).storage.shard_keys(s2).len()
                            ==> self@[#[trigger] old(self).storage.shard_keys(s2)[i2]] == old(
                            self,
                        )@[old(self).storage.shard_keys(s2)[i2]],
                    forall|i2: int|
                        0 <= i2 < i ==> entry_swept(old(self).saver(), #[trigger] old(
                            self,
                        ).storage.shard_keys(s as int)[i2], old(self)@, self@),
                    forall|i2: int|
                        i <= i2 < m ==> self@[#[trigger] old(self).storage.shard_keys(
                            s as int,
                        )[i2]] == old(self)@[old(self).storage.shard_keys(s as int)[i2]],
                decreases m - i,
            {
                let ghost pre = *self;
                let ghost kv = old(self).storage.shard_keys(s as int)[i as int];
                proof {
                    old(self).storage.lemma_shard_keys_partition();
                    assert(old(self)@.dom().contains(kv));
                    assert(self@[kv] == old(self)@[kv]);
                    assert(self.storage.shard_keys(s as int)[i as int] == kv);
                }
                let (was_dirty, outcome, kwit): (bool, bool, Ghost<K>) = {
                    let kref = self.storage.shard_key_at(s, i);
                    let vref = self.storage.shard_value_at(s, i);
                    if !vref.2 {
                        let b = (self.save_item_fn)(kref, &vref.0);
                        (true, b, Ghost(*kref))
                    } else {
                        (false, false, Ghost(*kref))
                    }
                };
                proof {
                    assert(was_dirty == !old(self)@[kv].2);
                    if was_dirty {
                        assert(call_ensures(old(self).saver(), (&kwit@, &old(self)@[kv].0),
                            outcome));
                    }
                }
                if was_dirty && outcome {
                    let slot = self.storage.shard_value_at_mut(s, i);
                    slot.2 = true;
                    proof {
                        let post = *after_borrow(self);
                        assert(post.storage@ == pre.storage@.insert(kv, *final(slot)));
                        assert(final(slot).0 == old(self)@[kv].0);
                        assert(final(slot).1 == old(self)@[kv].1);
                        assert(final(slot).2 == true);
                        assert(post@.dom() =~= old(self)@.dom());
                        assert(entry_swept(old(self).saver(), kv, old(self)@, post@)) by {
                            assert(call_ensures(old(self).saver(), (&kwit@, &old(self)@[kv].0),
                                true));
                        }
                        assert forall|s2: int, i2: int|
                            0 <= s2 < nshards && 0 <= i2 < old(self).storage.shard_keys(
                                s2,
                            ).len() && !(s2 == s as int && i2 == i as int) implies post@[
                        #[trigger] old(self).storage.shard_keys(s2)[i2]] == pre@[old(
                            self,
                        ).storage.shard_keys(s2)[i2]] by {
                            assert(old(self).storage.shard_keys(s2)[i2] != kv);
                        }
                        assert forall|s2: int, i2: int|
                            0 <= s2 < s && 0 <= i2 < old(self).storage.shard_keys(s2).len()
                                implies entry_swept(old(self).saver(), #[trigger] old(
                            self,
                        ).storage.shard_keys(s2)[i2], old(self)@, post@) by {
                            let kv2 = old(self).storage.shard_keys(s2)[i2];
                            assert(kv2 != kv);
                            lemma_swept_frame(old(self).saver(), kv2, old(self)@, pre@, post@);
                        }
                        assert forall|i2: int| 0 <= i2 < i implies entry_swept(
                            old(self).saver(),
                            #[trigger] old(self).storage.shard_keys(s as int)[i2],
                            old(self)@,
                            post@,
                        ) by {
                            let kv2 = old(self).storage.shard_keys(s as int)[i2];
                            assert(kv2 != kv);
                            lemma_swept_frame(old(self).saver(), kv2, old(self)@, pre@, post@);
                        }
                    }
                } else {
                    proof {
                        assert(entry_swept(old(self).saver(), kv, old(self)@, self@)) by {
                            if was_dirty {
                                assert(self@[kv].2 == old(self)@[kv].2);
                                assert(call_ensures(old(self).saver(),
                                    (&kwit@, &old(self)@[kv].0), outcome));
                                assert(self@[kv].2 == false && outcome == false);
                            }
                        }
                    }
                }
                i += 1;
            }
            s += 1;
        }
        proof {
            old(self).storage.lemma_shard_keys_partition();
            assert forall|kv: K::V| #[trigger]
                old(self)@.dom().contains(kv) implies entry_swept(
                old(self).saver(),
                kv,
                old(self)@,
                self@,
            ) by {
                let (s2, i2) = choose|s2: int, i2: int|
                    0 <= s2 < old(self).storage.spec_chunks_count() && 0 <= i2 < old(
                        self,
                    ).storage.shard_keys(s2).len() && #[trigger] old(self).storage.shard_keys(
                        s2,
                    )[i2] == kv;
                assert(entry_swept(old(self).saver(), old(self).storage.shard_keys(s2)[i2],
                    old(self)@, self@));
            }
        }
    }
}

} // verus!
