//! A sharded cache: a fixed number of independent LRU shards, with
//! keys routed by a hash of their bytes.  Routing is a function of the
//! key alone, so one key always lands on one shard for the life of the
//! cache; a single monotone counter serves ids across all shards.

use crate::cache::{Cache, CacheHandle, LruCache};
use crate::cache::{spec_erase_post, spec_insert_post, spec_lookup_post, spec_prune_post,
    spec_release_post};
use crate::hash::{hash, spec_hash};
use crate::slice::Slice;
use vstd::prelude::*;

verus! {

/// How many shards a cache is split into.
pub const NUM_SHARDS: usize = 16;

/// The fixed seed used when hashing keys for routing.
pub const SHARD_SEED: u32 = 0;

/// The shard a key routes to: a function of the key bytes alone.
pub open spec fn spec_shard_of(k: Seq<u8>) -> int {
    (spec_hash(k, SHARD_SEED) as int) % (NUM_SHARDS as int)
}

/// A cache split into independently managed shards.
pub struct ShardedCache<T> {
    shards: Vec<LruCache<T>>,
    last_id: u64,
}

impl<T> ShardedCache<T> {
    /// Shard `i` of the cache.
    pub closed spec fn spec_shard(&self, i: int) -> LruCache<T> {
        self.shards@[i]
    }

    /// The id counter's current value.
    pub closed spec fn spec_last_id(&self) -> int {
        self.last_id as int
    }

    /// All shards present and each well formed.
    pub closed spec fn wf(&self) -> bool {
        &&& self.shards@.len() == NUM_SHARDS
        &&& (forall|i: int| 0 <= i < NUM_SHARDS ==> (#[trigger] self.shards@[i]).wf())
    }

    /// All shards other than `s` are as they were in `prev`.
    pub open spec fn shards_same_except(&self, prev: ShardedCache<T>, s: int) -> bool {
        forall|j: int|
            0 <= j < NUM_SHARDS && j != s ==> #[trigger] self.spec_shard(j) == prev.spec_shard(j)
    }

    /// Create a cache of `NUM_SHARDS` shards whose capacities sum to
    /// at least `capacity`.
    pub fn new(capacity: usize) -> (c: ShardedCache<T>)
        ensures
            c.wf(),
            c.spec_last_id() == 0,
            forall|i: int|
                0 <= i < NUM_SHARDS ==> (#[trigger] c.spec_shard(i)).spec_usage() == 0
                    && c.spec_shard(i).spec_slots().len() == 0 && c.spec_shard(i).spec_capacity()
                    == (capacity + NUM_SHARDS - 1) as int / NUM_SHARDS as int,
    {
        let per_shard = capacity / NUM_SHARDS + (if capacity % NUM_SHARDS > 0 {
            1usize
        } else {
            0usize
        });
        proof {
            assert((capacity + NUM_SHARDS - 1) as int / NUM_SHARDS as int == capacity as int / 16
                + (if capacity as int % 16 > 0 {
                1int
            } else {
                0int
            })) by (nonlinear_arith)
                requires
                    NUM_SHARDS == 16,
            ;
        }
        let mut shards: Vec<LruCache<T>> = Vec::new();
        let mut i: usize = 0;
        while i < NUM_SHARDS
            invariant
                i <= NUM_SHARDS,
                shards@.len() == i,
                forall|j: int|
                    0 <= j < i ==> (#[trigger] shards@[j]).wf() && shards@[j].spec_usage() == 0
                        && shards@[j].spec_slots().len() == 0 && shards@[j].spec_capacity()
                        == per_shard,
            decreases NUM_SHARDS - i,
        {
            shards.push(LruCache::new(per_shard));
            i += 1;
        }
        ShardedCache { shards, last_id: 0 }
    }

    /// The shard index `key` routes to.
    fn shard_index(key: &Slice) -> (s: usize)
        ensures
            s == spec_shard_of(key@),
            s < NUM_SHARDS,
    {
        hash(key.slice_data(), SHARD_SEED) as usize % NUM_SHARDS
    }

    /// Return a new numeric id; ids from one cache strictly increase,
    /// so clients sharing the cache can partition the key space.
    pub fn new_id(&mut self) -> (id: u64)
        requires
            old(self).spec_last_id() < u64::MAX,
        ensures
            final(self).spec_last_id() == old(self).spec_last_id() + 1,
            id == final(self).spec_last_id(),
            id > old(self).spec_last_id(),
            forall|j: int|
                0 <= j < NUM_SHARDS ==> #[trigger] final(self).spec_shard(j) == old(
                    self,
                ).spec_shard(j),
            final(self).wf() == old(self).wf(),
    {
        self.last_id = self.last_id + 1;
        self.last_id
    }

    /// Insert `key` into the shard it routes to.
    pub fn insert(&mut self, key: Slice, value: T, charge: usize) -> (r: (
        CacheHandle,
        Vec<(Slice, T)>,
    ))
        requires
            old(self).wf(),
            old(self).spec_shard(spec_shard_of(key@)).spec_usage() + charge <= usize::MAX,
            old(self).spec_shard(spec_shard_of(key@)).spec_slots().len() < usize::MAX,
        ensures
            final(self).wf(),
            final(self).spec_last_id() == old(self).spec_last_id(),
            ({
                let s = spec_shard_of(key@);
                &&& r.0.spec_shard() == s
                &&& r.0.spec_slot() == old(self).spec_shard(s).spec_slots().len()
                &&& final(self).shards_same_except(*old(self), s)
                &&& spec_insert_post(
                    old(self).spec_shard(s),
                    final(self).spec_shard(s),
                    r.1@,
                    key@,
                    value,
                    charge as int,
                )
            }),
    {
        let s = Self::shard_index(&key);
        let shard = &mut self.shards[s];
        let (h, destroyed) = shard.insert(key, value, charge);
        let handle = CacheHandle::with_shard(h, s);
        (handle, destroyed)
    }

    /// Look `key` up on the shard it routes to.
    pub fn lookup(&mut self, key: &Slice) -> (r: Option<CacheHandle>)
        requires
            old(self).wf(),
            old(self).spec_shard(spec_shard_of(key@)).contains_key(key@) ==> old(self).spec_shard(
                spec_shard_of(key@),
            ).entry(old(self).spec_shard(spec_shard_of(key@)).hit_index(key@)).spec_refs()
                < usize::MAX,
        ensures
            final(self).wf(),
            final(self).spec_last_id() == old(self).spec_last_id(),
            ({
                let s = spec_shard_of(key@);
                &&& final(self).shards_same_except(*old(self), s)
                &&& spec_lookup_post(
                    old(self).spec_shard(s),
                    final(self).spec_shard(s),
                    r,
                    key@,
                )
                &&& (r matches Some(h) ==> h.spec_shard() == s)
            }),
    {
        let s = Self::shard_index(key);
        let shard = &mut self.shards[s];
        match shard.lookup(key) {
            Some(h) => Some(CacheHandle::with_shard(h, s)),
            None => None,
        }
    }

    /// Release a handle returned by `insert` or `lookup` on this
    /// cache; it routes back to the shard that handed it out.
    pub fn release(&mut self, handle: CacheHandle) -> (r: Option<(Slice, T)>)
        requires
            old(self).wf(),
            0 <= handle.spec_shard() < NUM_SHARDS,
            old(self).spec_shard(handle.spec_shard()).slot_occupied(handle.spec_slot()),
            old(self).spec_shard(handle.spec_shard()).entry(handle.spec_slot()).spec_refs() >= 1,
        ensures
            final(self).wf(),
            final(self).spec_last_id() == old(self).spec_last_id(),
            final(self).shards_same_except(*old(self), handle.spec_shard()),
            spec_release_post(
                old(self).spec_shard(handle.spec_shard()),
                final(self).spec_shard(handle.spec_shard()),
                handle.spec_slot(),
                r,
            ),
    {
        let s = handle.shard_index();
        let shard = &mut self.shards[s];
        shard.release(handle)
    }

    /// Release through a runtime check: when the handle no longer
    /// names a live, referenced entry - a double release, or a handle
    /// from another cache - it comes back as the error and the cache
    /// is untouched, so an unverified caller can fail loudly instead
    /// of crossing an unmet precondition.
    pub fn try_release(&mut self, handle: CacheHandle) -> (r: Result<
        Option<(Slice, T)>,
        CacheHandle,
    >)
        requires
            old(self).wf(),
        ensures
            final(self).wf(),
            final(self).spec_last_id() == old(self).spec_last_id(),
            ({
                let live = 0 <= handle.spec_shard() < NUM_SHARDS && old(self).spec_shard(
                    handle.spec_shard(),
                ).slot_occupied(handle.spec_slot()) && old(self).spec_shard(
                    handle.spec_shard(),
                ).entry(handle.spec_slot()).spec_refs() >= 1;
                &&& (live ==> (r matches Ok(out) && spec_release_post(
                    old(self).spec_shard(handle.spec_shard()),
                    final(self).spec_shard(handle.spec_shard()),
                    handle.spec_slot(),
                    out,
                )) && final(self).shards_same_except(*old(self), handle.spec_shard()))
                &&& (!live ==> (r matches Err(h) && h == handle) && *final(self) == *old(self))
            }),
    {
        let s = handle.shard_index();
        if s >= NUM_SHARDS {
            return Err(handle);
        }
        if !self.shards[s].handle_live(&handle) {
            return Err(handle);
        }
        let shard = &mut self.shards[s];
        Ok(shard.release(handle))
    }

    /// Erase `key` on the shard it routes to.
    pub fn erase(&mut self, key: &Slice) -> (r: Option<(Slice, T)>)
        requires
            old(self).wf(),
        ensures
            final(self).wf(),
            final(self).spec_last_id() == old(self).spec_last_id(),
            final(self).shards_same_except(*old(self), spec_shard_of(key@)),
            spec_erase_post(
                old(self).spec_shard(spec_shard_of(key@)),
                final(self).spec_shard(spec_shard_of(key@)),
                r,
                key@,
            ),
    {
        let s = Self::shard_index(key);
        let shard = &mut self.shards[s];
        shard.erase(key)
    }

    /// Prune every shard, handing back all destroyed entries, shard by
    /// shard and oldest first within each.
    pub fn prune(&mut self) -> (destroyed: Vec<(Slice, T)>)
        requires
            old(self).wf(),
        ensures
            final(self).wf(),
            final(self).spec_last_id() == old(self).spec_last_id(),
            exists|segs: Seq<Seq<(Slice, T)>>|
                {
                    &&& segs.len() == NUM_SHARDS
                    &&& (forall|i: int|
                        0 <= i < NUM_SHARDS ==> spec_prune_post(
                            old(self).spec_shard(i),
                            final(self).spec_shard(i),
                            #[trigger] segs[i],
                        ))
                    &&& destroyed@ == segs.flatten()
                },
    {
        let mut destroyed: Vec<(Slice, T)> = Vec::new();
        let ghost segs: Seq<Seq<(Slice, T)>> = Seq::empty();
        let mut i: usize = 0;
        proof {
            assert(segs.flatten() =~= Seq::<(Slice, T)>::empty());
        }
        while i < NUM_SHARDS
            invariant
                old(self).wf(),
                i <= NUM_SHARDS,
                self.shards@.len() == NUM_SHARDS,
                self.last_id == old(self).last_id_field(),
                segs.len() == i,
                destroyed@ == segs.flatten(),
                forall|j: int|
                    0 <= j < i ==> spec_prune_post(
                        old(self).spec_shard(j),
                        self.spec_shard(j),
                        #[trigger] segs[j],
                    ) && self.spec_shard(j).wf(),
                forall|j: int|
                    i <= j < NUM_SHARDS ==> #[trigger] self.spec_shard(j) == old(self).spec_shard(
                        j,
                    ),
            decreases NUM_SHARDS - i,
        {
            proof {
                assert(self.spec_shard(i as int) == old(self).spec_shard(i as int));
                assert(old(self).spec_shard(i as int).wf());
            }
            let ghost pre_shard = self.spec_shard(i as int);
            let ghost entry_self = *self;
            let ghost pre_shards = self.shards@;
            let shard = &mut self.shards[i];
            let mut part = shard.prune();
            proof {
                assert(self.shards@ == pre_shards.update(i as int, self.shards@[i as int]));
                assert forall|j: int| i + 1 <= j < NUM_SHARDS implies #[trigger] self.spec_shard(
                    j,
                ) == old(self).spec_shard(j) by {
                    assert(self.shards@[j] == pre_shards[j]);
                    assert(entry_self.spec_shard(j) == pre_shards[j]);
                    assert(entry_self.spec_shard(j) == old(self).spec_shard(j));
                };
            }
            let ghost part_view = part@;
            let ghost segs_before = segs;
            destroyed.append(&mut part);
            proof {
                segs = segs.push(part_view);
                segs_before.lemma_flatten_push(part_view);
                assert(segs.flatten() == destroyed@);
                assert forall|j: int| 0 <= j < i + 1 implies spec_prune_post(
                    old(self).spec_shard(j),
                    self.spec_shard(j),
                    #[trigger] segs[j],
                ) && self.spec_shard(j).wf() by {
                    if j < i {
                        assert(segs[j] == segs_before[j]);
                        assert(self.spec_shard(j) == self.shards@[j]);
                    } else {
                        assert(segs[j] == part_view);
                        assert(spec_prune_post(pre_shard, self.spec_shard(j), part_view));
                    }
                };
            }
            i += 1;
        }
        proof {
            assert forall|j: int| 0 <= j < NUM_SHARDS implies (#[trigger] self.shards@[j]).wf() by {
                assert(spec_prune_post(old(self).spec_shard(j), self.spec_shard(j), segs[j])
                    && self.spec_shard(j).wf());
            };
            assert(self.wf());
        }
        destroyed
    }

    /// The combined charges of resident entries across all shards.
    pub fn total_charge(&self) -> (r: usize)
        requires
            self.wf(),
            spec_shard_usage_sum(self, NUM_SHARDS as int) <= usize::MAX,
        ensures
            r == spec_shard_usage_sum(self, NUM_SHARDS as int),
    {
        let mut sum: usize = 0;
        let mut i: usize = 0;
        while i < NUM_SHARDS
            invariant
                self.wf(),
                i <= NUM_SHARDS,
                spec_shard_usage_sum(self, NUM_SHARDS as int) <= usize::MAX,
                sum == spec_shard_usage_sum(self, i as int),
            decreases NUM_SHARDS - i,
        {
            proof {
                lemma_shard_usage_sum_monotone(self, i + 1, NUM_SHARDS as int);
            }
            sum = sum + self.shards[i].total_charge();
            i += 1;
        }
        sum
    }

    /// Return the value behind a handle returned by `insert` or
    /// `lookup` on this cache.
    pub fn value<'a>(&'a self, handle: &CacheHandle) -> (v: &'a T)
        requires
            self.wf(),
            0 <= handle.spec_shard() < NUM_SHARDS,
            self.spec_shard(handle.spec_shard()).slot_occupied(handle.spec_slot()),
            self.spec_shard(handle.spec_shard()).entry(handle.spec_slot()).spec_refs() >= 1,
        ensures
            *v == self.spec_shard(handle.spec_shard()).entry(handle.spec_slot()).spec_value(),
    {
        let s = handle.shard_index();
        self.shards[s].value(handle)
    }

    /// The id counter, for framing.
    pub closed spec fn last_id_field(&self) -> u64 {
        self.last_id
    }
}

impl<T> Cache<T> for ShardedCache<T> {
    open spec fn inv(&self) -> bool {
        self.wf()
    }

    open spec fn charge_total(&self) -> int {
        spec_shard_usage_sum(self, NUM_SHARDS as int)
    }

    open spec fn has_key(&self, k: Seq<u8>) -> bool {
        self.spec_shard(spec_shard_of(k)).contains_key(k)
    }

    open spec fn caching_enabled(&self, k: Seq<u8>) -> bool {
        self.spec_shard(spec_shard_of(k)).spec_capacity() > 0
    }

    open spec fn may_insert(&self, k: Seq<u8>, charge: int) -> bool {
        &&& self.spec_shard(spec_shard_of(k)).spec_usage() + charge <= usize::MAX
        &&& self.spec_shard(spec_shard_of(k)).spec_slots().len() < usize::MAX
    }

    open spec fn may_lookup(&self, k: Seq<u8>) -> bool {
        self.spec_shard(spec_shard_of(k)).contains_key(k) ==> self.spec_shard(
            spec_shard_of(k),
        ).entry(self.spec_shard(spec_shard_of(k)).hit_index(k)).spec_refs() < usize::MAX
    }

    open spec fn may_release(&self, h: CacheHandle) -> bool {
        &&& 0 <= h.spec_shard() < NUM_SHARDS
        &&& self.spec_shard(h.spec_shard()).slot_occupied(h.spec_slot())
        &&& self.spec_shard(h.spec_shard()).entry(h.spec_slot()).spec_refs() >= 1
    }

    open spec fn may_count(&self) -> bool {
        self.spec_last_id() < u64::MAX
    }

    open spec fn may_total(&self) -> bool {
        spec_shard_usage_sum(self, NUM_SHARDS as int) <= usize::MAX
    }

    fn insert(&mut self, key: Slice, value: T, charge: usize) -> (r: (
        CacheHandle,
        Vec<(Slice, T)>,
    )) {
        ShardedCache::insert(self, key, value, charge)
    }

    fn lookup(&mut self, key: &Slice) -> (r: Option<CacheHandle>) {
        let ghost pre = *self;
        let r = ShardedCache::lookup(self, key);
        proof {
            let s = spec_shard_of(key@);
            LruCache::<T>::lemma_lookup_preserves_keys(
                pre.spec_shard(s),
                self.spec_shard(s),
                r,
                key@,
            );
            lemma_shard_usage_sum_congruent(&pre, self, NUM_SHARDS as int);
            assert forall|k2: Seq<u8>| #[trigger] self.has_key(k2) == pre.has_key(k2) by {
                let s2 = spec_shard_of(k2);
                if s2 != s {
                    assert(self.spec_shard(s2) == pre.spec_shard(s2));
                }
            };
        }
        r
    }

    fn release(&mut self, handle: CacheHandle) -> (r: Option<(Slice, T)>) {
        let ghost pre = *self;
        let r = ShardedCache::release(self, handle);
        proof {
            lemma_shard_usage_sum_congruent(&pre, self, NUM_SHARDS as int);
        }
        r
    }

    fn erase(&mut self, key: &Slice) -> (r: Option<(Slice, T)>) {
        ShardedCache::erase(self, key)
    }

    fn new_id(&mut self) -> (id: u64) {
        let ghost pre = *self;
        let id = ShardedCache::new_id(self);
        proof {
            lemma_shard_usage_sum_congruent(&pre, self, NUM_SHARDS as int);
        }
        id
    }

    fn prune(&mut self) -> (destroyed: Vec<(Slice, T)>) {
        ShardedCache::prune(self)
    }

    fn total_charge(&self) -> (r: usize) {
        ShardedCache::total_charge(self)
    }
}

/// The combined usage of the first `n` shards.
pub open spec fn spec_shard_usage_sum<T>(c: &ShardedCache<T>, n: int) -> int
    decreases n,
{
    if n <= 0 {
        0
    } else {
        spec_shard_usage_sum(c, n - 1) + c.spec_shard(n - 1).spec_usage()
    }
}

/// Two caches whose shards carry the same usages have the same sum.
proof fn lemma_shard_usage_sum_congruent<T>(a: &ShardedCache<T>, b: &ShardedCache<T>, n: int)
    requires
        forall|i: int|
            0 <= i < n ==> (#[trigger] a.spec_shard(i)).spec_usage() == b.spec_shard(
                i,
            ).spec_usage(),
    ensures
        spec_shard_usage_sum(a, n) == spec_shard_usage_sum(b, n),
    decreases n,
{
    if n > 0 {
        lemma_shard_usage_sum_congruent(a, b, n - 1);
    }
}

/// The shard-usage sum is never negative.
proof fn lemma_shard_usage_sum_nonneg<T>(c: &ShardedCache<T>, n: int)
    ensures
        spec_shard_usage_sum(c, n) >= 0,
    decreases n,
{
    if n > 0 {
        lemma_shard_usage_sum_nonneg(c, n - 1);
        c.spec_shard(n - 1).lemma_counter_bounds();
    }
}

/// Prefixes of the shard-usage sum never exceed the whole.
proof fn lemma_shard_usage_sum_monotone<T>(c: &ShardedCache<T>, n: int, m: int)
    requires
        0 <= n <= m,
    ensures
        spec_shard_usage_sum(c, n) <= spec_shard_usage_sum(c, m),
        spec_shard_usage_sum(c, n) >= 0,
    decreases m - n,
{
    lemma_shard_usage_sum_nonneg(c, n);
    if n < m {
        lemma_shard_usage_sum_monotone(c, n, m - 1);
        c.spec_shard(m - 1).lemma_counter_bounds();
    }
}

/// The same key always routes to the same shard while the cache
/// lives: the route is a function of the key's bytes alone, so two
/// equal keys route alike.
pub proof fn lemma_routing_stable(k1: Seq<u8>, k2: Seq<u8>)
    requires
        k1 == k2,
    ensures
        spec_shard_of(k1) == spec_shard_of(k2),
        0 <= spec_shard_of(k1) < NUM_SHARDS,
{
}

} // verus!
