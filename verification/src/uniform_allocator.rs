//! The uniform slot allocator: tag-sharded pools of fixed-size segments,
//! each segment holding a bounded number of slots that store one element
//! apiece and are reused after release.

use vstd::prelude::*;

verus! {

/// Number of slots in one segment.
pub const SEGMENT_CAPACITY: usize = 128;

/// Number of slots of the sequence that are occupied.
pub closed spec fn count_somes<T>(s: Seq<Option<T>>) -> nat
    decreases s.len(),
{
    if s.len() == 0 {
        0
    } else {
        count_somes(s.drop_last()) + if s.last() is Some {
            1nat
        } else {
            0nat
        }
    }
}

proof fn lemma_count_le_len<T>(s: Seq<Option<T>>)
    ensures
        count_somes(s) <= s.len(),
    decreases s.len(),
{
    if s.len() > 0 {
        lemma_count_le_len(s.drop_last());
    }
}

proof fn lemma_count_all_some<T>(s: Seq<Option<T>>)
    requires
        forall|j: int| 0 <= j < s.len() ==> (#[trigger] s[j]) is Some,
    ensures
        count_somes(s) == s.len(),
    decreases s.len(),
{
    if s.len() > 0 {
        assert(forall|j: int| 0 <= j < s.drop_last().len() ==> #[trigger] s.drop_last()[j] == s[j]);
        lemma_count_all_some(s.drop_last());
        assert(s[s.len() - 1] is Some);
    }
}

proof fn lemma_count_update<T>(s: Seq<Option<T>>, j: int, v: Option<T>)
    requires
        0 <= j < s.len(),
    ensures
        count_somes(s.update(j, v)) == count_somes(s) + (if v is Some {
            1int
        } else {
            0int
        }) - (if s[j] is Some {
            1int
        } else {
            0int
        }),
    decreases s.len(),
{
    let n: int = s.len() - 1;
    if j == n {
        assert(s.update(j, v).drop_last() =~= s.drop_last());
        assert(s.update(j, v).last() == v);
    } else {
        lemma_count_update(s.drop_last(), j, v);
        assert(s.update(j, v).drop_last() =~= s.drop_last().update(j, v));
        assert(s.update(j, v).last() == s.last());
    }
}

/// One fixed-capacity array of slots; `used` caches the occupied count.
struct Segment<T> {
    slots: Vec<Option<T>>,
    used: usize,
}

/// A segment carries exactly `SEGMENT_CAPACITY` slots and counts its
/// occupied ones.
spec fn seg_ok<T>(seg: Segment<T>) -> bool {
    &&& seg.slots@.len() == SEGMENT_CAPACITY
    &&& seg.used == count_somes(seg.slots@)
}

/// One pool: a growable list of segments.
struct Pool<T> {
    segments: Vec<Segment<T>>,
}

/// The uniform allocator. A tag selects one of the pools; an allocation
/// reserves a free slot of the first segment with room, growing the pool by
/// a segment when none has any, and a release empties the slot and hands
/// the stored element back.
pub struct UniformAllocator<T> {
    pools: Vec<Pool<T>>,
}

impl<T> UniformAllocator<T> {
    /// The number of pools.
    pub closed spec fn pool_count(self) -> int {
        self.pools@.len() as int
    }

    /// Whether the slot addressed by `(pool, segment, slot)` is occupied.
    pub closed spec fn slot_full(self, h: (int, int, int)) -> bool {
        &&& 0 <= h.0 < self.pools@.len()
        &&& 0 <= h.1 < self.pools@[h.0].segments@.len()
        &&& 0 <= h.2 < self.pools@[h.0].segments@[h.1].slots@.len()
        &&& self.pools@[h.0].segments@[h.1].slots@[h.2] is Some
    }

    /// What the slot addressed by `h` holds.
    pub closed spec fn slot_value(self, h: (int, int, int)) -> T
        recommends
            self.slot_full(h),
    {
        self.pools@[h.0].segments@[h.1].slots@[h.2]->Some_0
    }

    /// All stored elements, addressed by `(pool, segment, slot)`.
    pub open spec fn contents(self) -> Map<(int, int, int), T> {
        Map::new(|h: (int, int, int)| self.slot_full(h), |h: (int, int, int)| self.slot_value(h))
    }

    /// Well-formed: at least one pool; every segment carries exactly
    /// `SEGMENT_CAPACITY` slots and counts its occupied ones.
    pub closed spec fn wf(self) -> bool {
        &&& self.pools@.len() >= 1
        &&& forall|p: int, s: int|
            0 <= p < self.pools@.len() && 0 <= s < self.pools@[p].segments@.len() ==> seg_ok(
                #[trigger] self.pools@[p].segments@[s],
            )
    }

    /// Create an allocator with `count` pools.
    pub fn new(count: usize) -> (r: Self)
        requires
            count >= 1,
        ensures
            r.wf(),
            r.pool_count() == count,
            r.contents() == Map::<(int, int, int), T>::empty(),
    {
        let mut pools: Vec<Pool<T>> = Vec::new();
        let mut i: usize = 0;
        while i < count
            invariant
                i <= count,
                pools@.len() == i,
                forall|p: int| 0 <= p < i ==> (#[trigger] pools@[p]).segments@.len() == 0,
            decreases count - i,
        {
            pools.push(Pool { segments: Vec::new() });
            i += 1;
        }
        let r = Self { pools };
        proof {
            assert(r.contents() =~= Map::<(int, int, int), T>::empty());
        }
        r
    }

    /// Store `v` in a free slot of the pool that `tag` selects, and return
    /// the slot's segment and slot index within that pool.
    pub fn alloc_slot(&mut self, tag: usize, v: T) -> (h: (usize, usize))
        requires
            old(self).wf(),
        ensures
            final(self).wf(),
            final(self).pool_count() == old(self).pool_count(),
            !old(self).contents().dom().contains(
                ((tag as int) % old(self).pool_count(), h.0 as int, h.1 as int),
            ),
            final(self).contents() == old(self).contents().insert(
                ((tag as int) % old(self).pool_count(), h.0 as int, h.1 as int),
                v,
            ),
    {
        let p: usize = tag % self.pools.len();
        let nsegs: usize = self.pools[p].segments.len();
        let mut si: usize = 0;
        while si < nsegs && self.pools[p].segments[si].used >= SEGMENT_CAPACITY
            invariant
                *self == *old(self),
                p < self.pools@.len(),
                nsegs == self.pools@[p as int].segments@.len(),
                si <= nsegs,
                old(self).wf(),
            decreases nsegs - si,
        {
            si += 1;
        }
        if si == nsegs {
            let ghost pre = *self;
            let mut slots: Vec<Option<T>> = Vec::new();
            let mut j: usize = 0;
            while j < SEGMENT_CAPACITY
                invariant
                    j <= SEGMENT_CAPACITY,
                    slots@.len() == j,
                    forall|q: int| 0 <= q < j ==> (#[trigger] slots@[q]) is None,
                decreases SEGMENT_CAPACITY - j,
            {
                slots.push(None);
                j += 1;
            }
            proof {
                lemma_count_all_none(slots@);
            }
            let ghost gslots = slots@;
            let pool = &mut self.pools[p];
            pool.segments.push(Segment { slots, used: 0 });
            proof {
                assert(self.pools@[p as int].segments@[nsegs as int].slots@ == gslots);
                assert(self.pools@[p as int].segments@[nsegs as int].used == 0);
                assert(gslots.len() == SEGMENT_CAPACITY);
                assert(count_somes(gslots) == 0);
                assert forall|p2: int, s2: int|
                    0 <= p2 < self.pools@.len() && 0 <= s2 < self.pools@[p2].segments@.len()
                        implies seg_ok(#[trigger] self.pools@[p2].segments@[s2]) by {
                    if p2 == p as int && s2 == nsegs as int {
                        assert(self.pools@[p2].segments@[s2].slots@ == gslots);
                        assert(self.pools@[p2].segments@[s2].used == 0);
                    } else {
                        assert(self.pools@[p2].segments@[s2] == pre.pools@[p2].segments@[s2]);
                        assert(pre.pools@[p2].segments@[s2].slots@.len() == SEGMENT_CAPACITY);
                        assert(pre.pools@[p2].segments@[s2].used == count_somes(
                            pre.pools@[p2].segments@[s2].slots@,
                        ));
                    }
                    assert(self.pools@[p2].segments@[s2].slots@.len() == SEGMENT_CAPACITY);
                    assert(self.pools@[p2].segments@[s2].used == count_somes(
                        self.pools@[p2].segments@[s2].slots@,
                    ));
                }
                assert(self.wf());
                assert(self.contents() =~= pre.contents());
            }
        }
        let ghost mid = *self;
        let seg_used: usize = self.pools[p].segments[si].used;
        let nslots: usize = self.pools[p].segments[si].slots.len();
        let mut sj: usize = 0;
        while sj < nslots && self.pools[p].segments[si].slots[sj].is_some()
            invariant
                *self == mid,
                mid.wf(),
                p < self.pools@.len(),
                si < self.pools@[p as int].segments@.len(),
                nslots == self.pools@[p as int].segments@[si as int].slots@.len(),
                sj <= nslots,
                self.pools@[p as int].segments@[si as int].used < SEGMENT_CAPACITY,
                forall|q: int|
                    0 <= q < sj ==> (#[trigger] self.pools@[p as int].segments@[si as int]
                        .slots@[q]) is Some,
            decreases nslots - sj,
        {
            sj += 1;
        }
        proof {
            if sj == nslots {
                lemma_count_all_some(self.pools@[p as int].segments@[si as int].slots@);
                assert(false);
            }
        }
        let ghost pre2 = *self;
        let seg = &mut self.pools[p].segments[si];
        proof {
            lemma_count_update(seg.slots@, sj as int, Some(v));
        }
        let slot = &mut seg.slots[sj];
        *slot = Some(v);
        seg.used = seg.used + 1;
        proof {
            assert forall|p2: int, s2: int|
                    0 <= p2 < self.pools@.len() && 0 <= s2 < self.pools@[p2].segments@.len()
                        implies seg_ok(#[trigger] self.pools@[p2].segments@[s2]) by {
                if p2 != p as int || s2 != si as int {
                    assert(self.pools@[p2].segments@[s2] == pre2.pools@[p2].segments@[s2]);
                }
            }
            assert(self.wf());
            assert(self.contents() =~= pre2.contents().insert(
                (p as int, si as int, sj as int),
                v,
            ));
            assert(pre2.contents() == mid.contents());
        }
        (si, sj)
    }

    /// Release the slot that `alloc_slot` returned for the same tag, handing
    /// back the stored element; an empty or out-of-range slot yields `None`
    /// and leaves the allocator unchanged.
    pub fn dealloc(&mut self, tag: usize, h: (usize, usize)) -> (r: Option<T>)
        requires
            old(self).wf(),
        ensures
            final(self).wf(),
            final(self).pool_count() == old(self).pool_count(),
            ({
                let key = ((tag as int) % old(self).pool_count(), h.0 as int, h.1 as int);
                match r {
                    Some(v) => old(self).contents().dom().contains(key) && v == old(
                        self,
                    ).contents()[key] && final(self).contents() == old(self).contents().remove(
                        key,
                    ),
                    None => !old(self).contents().dom().contains(key) && final(self).contents()
                        == old(self).contents(),
                }
            }),
    {
        let p: usize = tag % self.pools.len();
        if h.0 >= self.pools[p].segments.len() {
            return None;
        }
        if h.1 >= self.pools[p].segments[h.0].slots.len() {
            return None;
        }
        let occupied = self.pools[p].segments[h.0].slots[h.1].is_some();
        if !occupied {
            return None;
        }
        let ghost pre = *self;
        let seg = &mut self.pools[p].segments[h.0];
        proof {
            lemma_count_update(seg.slots@, h.1 as int, None);
            lemma_count_le_len(seg.slots@);
        }
        let mut taken: Option<T> = None;
        let slot = &mut seg.slots[h.1];
        core::mem::swap(slot, &mut taken);
        assert(seg.used >= 1) by {
            assert(pre.pools@[p as int].segments@[h.0 as int].slots@[h.1 as int] is Some);
            if count_somes(pre.pools@[p as int].segments@[h.0 as int].slots@) == 0 {
                lemma_count_none_at(pre.pools@[p as int].segments@[h.0 as int].slots@,
                    h.1 as int);
            }
        };
        seg.used = seg.used - 1;
        proof {
            assert forall|p2: int, s2: int|
                    0 <= p2 < self.pools@.len() && 0 <= s2 < self.pools@[p2].segments@.len()
                        implies seg_ok(#[trigger] self.pools@[p2].segments@[s2]) by {
                if p2 != p as int || s2 != h.0 as int {
                    assert(self.pools@[p2].segments@[s2] == pre.pools@[p2].segments@[s2]);
                }
            }
            assert(self.wf());
            assert(self.contents() =~= pre.contents().remove(
                (p as int, h.0 as int, h.1 as int),
            ));
        }
        taken
    }
}

proof fn lemma_count_all_none<T>(s: Seq<Option<T>>)
    requires
        forall|j: int| 0 <= j < s.len() ==> (#[trigger] s[j]) is None,
    ensures
        count_somes(s) == 0,
    decreases s.len(),
{
    if s.len() > 0 {
        assert(forall|j: int| 0 <= j < s.drop_last().len() ==> #[trigger] s.drop_last()[j] == s[j]);
        lemma_count_all_none(s.drop_last());
        assert(s[s.len() - 1] is None);
    }
}

/// A sequence with no occupied slot cannot hold one at `j`.
proof fn lemma_count_none_at<T>(s: Seq<Option<T>>, j: int)
    requires
        0 <= j < s.len(),
        count_somes(s) == 0,
    ensures
        s[j] is None,
    decreases s.len(),
{
    if j == s.len() - 1 {
    } else {
        lemma_count_none_at(s.drop_last(), j);
        assert(s.drop_last()[j] == s[j]);
    }
}

impl<T> Default for UniformAllocator<T> {
    /// An allocator with a few pools per logical CPU.
    fn default() -> (r: Self)
        ensures
            r.wf(),
            r.contents() == Map::<(int, int, int), T>::empty(),
    {
        let cpus: usize = crate::util::cpu_count();
        let count: usize = if cpus > usize::MAX / 4 {
            usize::MAX
        } else {
            cpus * 4
        };
        Self::new(count)
    }
}

} // verus!
