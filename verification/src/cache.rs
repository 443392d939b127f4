//! A capacity-bounded LRU cache shard.
//!
//! The cache maps byte-string keys to reference-counted entries and
//! keeps two lists over the resident entries: the in-use list holds the
//! entries clients currently reference, the LRU list holds the
//! unreferenced ones in recency order, oldest first.  Entries are
//! stored in stable slots and the lists hold slot indices, so splices
//! need no pointer surgery.
//!
//! Destruction is deferred, never reentrant: an operation that brings
//! an entry's reference count to zero hands the entry's key and value
//! back to the caller, who runs whatever release callback applies
//! after the cache's own bookkeeping is done.

use crate::slice::Slice;
use vstd::prelude::*;

verus! {

/// An opaque reference-counted pointer to a cache entry.
pub trait Handle<T> {
    /// The value the entry binds its key to.
    fn get_value(&self) -> &T;
}

/// The operations a cache provides, with each implementation's own
/// coherence invariant carried through every call.  `ShardedCache`
/// implements this surface; the deep per-operation contracts stand on
/// the concrete types' inherent methods.
pub trait Cache<T> {
    /// The implementation's coherence invariant.
    spec fn inv(&self) -> bool;

    /// The combined charge of the resident entries.
    spec fn charge_total(&self) -> int;

    /// A live mapping for `k` exists.
    spec fn has_key(&self, k: Seq<u8>) -> bool;

    /// An insert under `k` actually caches; a zero capacity turns
    /// caching off.
    spec fn caching_enabled(&self, k: Seq<u8>) -> bool;

    /// Inserting `charge` more units under `k` stays within the
    /// implementation's counting limits.
    spec fn may_insert(&self, k: Seq<u8>, charge: int) -> bool;

    /// Looking `k` up stays within the reference-counting limit.
    spec fn may_lookup(&self, k: Seq<u8>) -> bool;

    /// `h` names a live entry of this cache that the caller still
    /// references.
    spec fn may_release(&self, h: CacheHandle) -> bool;

    /// The id counter can still grow.
    spec fn may_count(&self) -> bool;

    /// The combined charge is representable.
    spec fn may_total(&self) -> bool;

    /// Insert a mapping from `key` to `value` with the given charge
    /// against the total cache capacity.  Returns a handle to the
    /// mapping and the entries the insertion destroyed.
    fn insert(&mut self, key: Slice, value: T, charge: usize) -> (r: (
        CacheHandle,
        Vec<(Slice, T)>,
    ))
        requires
            old(self).inv(),
            old(self).may_insert(key@, charge as int),
        ensures
            final(self).inv(),
            old(self).caching_enabled(key@) ==> final(self).has_key(key@),
    ;

    /// If the cache has a live mapping for `key`, return a handle to
    /// it.
    fn lookup(&mut self, key: &Slice) -> (r: Option<CacheHandle>)
        requires
            old(self).inv(),
            old(self).may_lookup(key@),
        ensures
            final(self).inv(),
            (r is Some) <==> old(self).has_key(key@),
            final(self).charge_total() == old(self).charge_total(),
            forall|k2: Seq<u8>| #[trigger] final(self).has_key(k2) == old(self).has_key(k2),
    ;

    /// Release a mapping returned by a previous `insert` or `lookup`;
    /// returns the entry when this was its last reference.
    fn release(&mut self, handle: CacheHandle) -> (r: Option<(Slice, T)>)
        requires
            old(self).inv(),
            old(self).may_release(handle),
        ensures
            final(self).inv(),
            final(self).charge_total() == old(self).charge_total(),
    ;

    /// If the cache contains an entry for `key`, erase it; the entry
    /// is returned now when nothing else references it, and from the
    /// last `release` otherwise.
    fn erase(&mut self, key: &Slice) -> (r: Option<(Slice, T)>)
        requires
            old(self).inv(),
        ensures
            final(self).inv(),
            !final(self).has_key(key@),
    ;

    /// Return a new numeric id, for clients sharing one cache to
    /// partition the key space.
    fn new_id(&mut self) -> (id: u64)
        requires
            old(self).inv(),
            old(self).may_count(),
        ensures
            final(self).inv(),
            final(self).charge_total() == old(self).charge_total(),
            forall|k2: Seq<u8>| #[trigger] final(self).has_key(k2) == old(self).has_key(k2),
    ;

    /// Remove and return all cache entries that are not actively in
    /// use.
    fn prune(&mut self) -> (destroyed: Vec<(Slice, T)>)
        requires
            old(self).inv(),
        ensures
            final(self).inv(),
    ;

    /// Return the combined charges of the resident entries.
    fn total_charge(&self) -> (r: usize)
        requires
            self.inv(),
            self.may_total(),
        ensures
            r == self.charge_total(),
    ;
}

/// One key/value binding with its bookkeeping.
pub struct CacheEntry<T> {
    key: Slice,
    value: T,
    charge: usize,
    // outstanding external handles
    refs: usize,
    // the table still maps the key to this entry
    in_table: bool,
}

impl<T> CacheEntry<T> {
    pub closed spec fn spec_key(&self) -> Seq<u8> {
        self.key@
    }

    pub closed spec fn spec_value(&self) -> T {
        self.value
    }

    pub closed spec fn spec_charge(&self) -> int {
        self.charge as int
    }

    pub closed spec fn spec_refs(&self) -> int {
        self.refs as int
    }

    pub closed spec fn spec_in_table(&self) -> bool {
        self.in_table
    }
}

impl<T> Handle<T> for CacheEntry<T> {
    fn get_value(&self) -> &T {
        &self.value
    }
}

/// A slot of the entry store.
pub enum Slot<T> {
    Vacant,
    Occupied(CacheEntry<T>),
}

/// A caller's reference to an entry: the index of the entry's slot,
/// plus the shard that owns it when handed out by a sharded cache.
pub struct CacheHandle {
    shard: usize,
    slot: usize,
}

impl CacheHandle {
    pub closed spec fn spec_shard(&self) -> int {
        self.shard as int
    }

    pub closed spec fn spec_slot(&self) -> int {
        self.slot as int
    }

    /// The shard this handle's entry lives on.
    pub fn shard_index(&self) -> (s: usize)
        ensures
            s == self.spec_shard(),
    {
        self.shard
    }

    /// The handle's slot in its shard's entry store.
    pub fn slot_index(&self) -> (i: usize)
        ensures
            i == self.spec_slot(),
    {
        self.slot
    }

    /// The same handle, re-addressed to shard `s`.
    pub fn with_shard(h: CacheHandle, s: usize) -> (r: CacheHandle)
        ensures
            r.spec_slot() == h.spec_slot(),
            r.spec_shard() == s,
    {
        CacheHandle { shard: s, slot: h.slot }
    }
}

/// The charge an occupied, in-table slot contributes.
pub open spec fn slot_charge<T>(s: Slot<T>) -> int {
    match s {
        Slot::Occupied(e) => if e.spec_in_table() {
            e.spec_charge()
        } else {
            0
        },
        Slot::Vacant => 0,
    }
}

/// The combined charge of the resident entries of a slot store.
pub open spec fn spec_table_charge<T>(s: Seq<Slot<T>>) -> int
    decreases s.len(),
{
    if s.len() == 0 {
        0
    } else {
        spec_table_charge(s.drop_last()) + slot_charge(s.last())
    }
}

/// The charge of the entry in slot `i` of `s`, zero for a vacant or
/// out-of-range slot.
pub open spec fn lru_slot_charge<T>(s: Seq<Slot<T>>, i: usize) -> int {
    if 0 <= i < s.len() && s[i as int] is Occupied {
        s[i as int]->Occupied_0.spec_charge()
    } else {
        0
    }
}

/// How many entries capacity pressure evicts: walking the LRU list
/// oldest first, entries fall until the usage is within capacity or
/// the list is exhausted.
pub open spec fn spec_evictions<T>(s: Seq<Slot<T>>, lru: Seq<usize>, usage: int, cap: int) -> int
    decreases lru.len(),
{
    if usage <= cap || lru.len() == 0 {
        0
    } else {
        1 + spec_evictions(s, lru.skip(1), usage - lru_slot_charge(s, lru[0]), cap)
    }
}

/// The combined charge of the first `m` entries on the LRU list.
pub open spec fn spec_prefix_charge<T>(s: Seq<Slot<T>>, lru: Seq<usize>, m: int) -> int
    decreases m,
{
    if m <= 0 {
        0
    } else {
        spec_prefix_charge(s, lru, m - 1) + lru_slot_charge(s, lru[m - 1])
    }
}

/// What a lookup leaves behind: nothing changes on a miss; on a hit
/// the entry gains a reference and, if it was resting on the LRU
/// list, moves to the in-use list.
pub open spec fn spec_lookup_post<T>(
    pre: LruCache<T>,
    post: LruCache<T>,
    r: Option<CacheHandle>,
    k: Seq<u8>,
) -> bool {
    &&& post.spec_capacity() == pre.spec_capacity()
    &&& ((r is Some) <==> pre.contains_key(k))
    &&& (r is None ==> post == pre)
    &&& (r matches Some(h) ==> ({
        let i = pre.hit_index(k);
        &&& h.spec_slot() == i
        &&& pre.is_hit(i, k)
        &&& post.slots_same_except(pre, i)
        &&& post.entry_updated(pre, i, pre.entry(i).spec_refs() + 1, true)
        &&& post.spec_usage() == pre.spec_usage()
        &&& (pre.entry(i).spec_refs() == 0 ==> (exists|p: int|
            {
                &&& 0 <= p < pre.spec_lru().len()
                &&& pre.spec_lru()[p] == i as usize
                &&& post.spec_lru() == pre.spec_lru().remove(p)
            }) && post.spec_in_use() == pre.spec_in_use().push(i as usize))
        &&& (pre.entry(i).spec_refs() >= 1 ==> post.spec_lru() == pre.spec_lru()
            && post.spec_in_use() == pre.spec_in_use())
    }))
}

/// What a release leaves behind: the reference count falls; an
/// in-table entry losing its last reference moves to the LRU list; the
/// last reference of an erased entry destroys it, handing its key and
/// value back.
pub open spec fn spec_release_post<T>(
    pre: LruCache<T>,
    post: LruCache<T>,
    i: int,
    r: Option<(Slice, T)>,
) -> bool {
    let e = pre.entry(i);
    &&& post.spec_capacity() == pre.spec_capacity()
    &&& post.spec_usage() == pre.spec_usage()
    &&& (e.spec_refs() > 1 ==> r is None && post.slots_same_except(pre, i)
        && post.entry_updated(pre, i, e.spec_refs() - 1, e.spec_in_table()) && post.spec_lru()
        == pre.spec_lru() && post.spec_in_use() == pre.spec_in_use())
    &&& (e.spec_refs() == 1 && e.spec_in_table() ==> r is None && post.slots_same_except(pre, i)
        && post.entry_updated(pre, i, 0, true) && post.spec_lru() == pre.spec_lru().push(
        i as usize,
    ) && (exists|p: int|
        {
            &&& 0 <= p < pre.spec_in_use().len()
            &&& pre.spec_in_use()[p] == i as usize
            &&& post.spec_in_use() == pre.spec_in_use().remove(p)
        }))
    &&& (e.spec_refs() == 1 && !e.spec_in_table() ==> (r matches Some(kv) && kv.0@
        == e.spec_key() && kv.1 == e.spec_value()) && post.spec_slots() == pre.spec_slots().update(
        i,
        Slot::Vacant,
    ) && post.spec_lru() == pre.spec_lru() && post.spec_in_use() == pre.spec_in_use())
}

/// What an erase leaves behind: a missing key changes nothing; a hit
/// leaves the table, an unreferenced entry is destroyed now, a
/// referenced one is parked until its last release.
pub open spec fn spec_erase_post<T>(
    pre: LruCache<T>,
    post: LruCache<T>,
    r: Option<(Slice, T)>,
    k: Seq<u8>,
) -> bool {
    &&& post.spec_capacity() == pre.spec_capacity()
    &&& (!pre.contains_key(k) ==> r is None && post == pre)
    &&& (pre.contains_key(k) ==> ({
        let i = pre.hit_index(k);
        let e = pre.entry(i);
        &&& post.spec_usage() == pre.spec_usage() - e.spec_charge()
        &&& !post.contains_key(k)
        &&& (e.spec_refs() == 0 ==> (r matches Some(kv) && kv.0@ == e.spec_key() && kv.1
            == e.spec_value()) && post.spec_slots() == pre.spec_slots().update(i, Slot::Vacant)
            && (exists|p: int|
            {
                &&& 0 <= p < pre.spec_lru().len()
                &&& pre.spec_lru()[p] == i as usize
                &&& post.spec_lru() == pre.spec_lru().remove(p)
            }) && post.spec_in_use() == pre.spec_in_use())
        &&& (e.spec_refs() >= 1 ==> r is None && post.slots_same_except(pre, i)
            && post.entry_updated(pre, i, e.spec_refs(), false) && (exists|p: int|
            {
                &&& 0 <= p < pre.spec_in_use().len()
                &&& pre.spec_in_use()[p] == i as usize
                &&& post.spec_in_use() == pre.spec_in_use().remove(p)
            }) && post.spec_lru() == pre.spec_lru())
    }))
}

/// What a prune leaves behind: every unreferenced resident entry is
/// destroyed, oldest first; referenced entries and their list stand.
pub open spec fn spec_prune_post<T>(
    pre: LruCache<T>,
    post: LruCache<T>,
    destroyed: Seq<(Slice, T)>,
) -> bool {
    &&& post.spec_capacity() == pre.spec_capacity()
    &&& post.spec_lru().len() == 0
    &&& post.spec_in_use() == pre.spec_in_use()
    &&& destroyed.len() == pre.spec_lru().len()
    &&& (forall|j: int|
        0 <= j < destroyed.len() ==> (#[trigger] destroyed[j]).0@ == pre.entry(
            pre.spec_lru()[j] as int,
        ).spec_key() && destroyed[j].1 == pre.entry(pre.spec_lru()[j] as int).spec_value())
    &&& post.spec_slots().len() == pre.spec_slots().len()
    &&& (forall|j: int|
        0 <= j < pre.spec_slots().len() && !pre.spec_lru().contains(j as usize)
            ==> #[trigger] post.spec_slots()[j] == pre.spec_slots()[j])
    &&& (forall|j: int|
        0 <= j < pre.spec_lru().len() ==> post.spec_slots()[(#[trigger] pre.spec_lru()[j]) as int]
            is Vacant)
}

/// What an insert leaves behind.  The new entry takes the next slot
/// with one reference; under capacity zero nothing else moves; under a
/// positive capacity the old entry for the key leaves the table first,
/// then the oldest unreferenced entries fall, strictly in LRU order,
/// until the charge fits or none remain.
pub open spec fn spec_insert_post<T>(
    pre: LruCache<T>,
    post: LruCache<T>,
    destroyed: Seq<(Slice, T)>,
    k: Seq<u8>,
    value: T,
    charge: int,
) -> bool {
    let ns = pre.spec_slots().len() as int;
    &&& post.spec_capacity() == pre.spec_capacity()
    &&& post.spec_slots().len() == ns + 1
    &&& post.slot_occupied(ns)
    &&& post.entry(ns).spec_key() == k
    &&& post.entry(ns).spec_value() == value
    &&& post.entry(ns).spec_charge() == charge
    &&& post.entry(ns).spec_refs() == 1
    &&& post.entry(ns).spec_in_table() == (pre.spec_capacity() > 0)
    &&& (pre.spec_capacity() == 0 ==> ({
        &&& (forall|j: int|
            0 <= j < pre.spec_slots().len() ==> #[trigger] post.spec_slots()[j]
                == pre.spec_slots()[j])
        &&& post.spec_lru() == pre.spec_lru()
        &&& post.spec_in_use() == pre.spec_in_use()
        &&& post.spec_usage() == pre.spec_usage()
        &&& destroyed.len() == 0
    }))
    &&& (pre.spec_capacity() > 0 ==> ({
        let dup = pre.contains_key(k);
        let di = pre.hit_index(k);
        let dup_free = dup && pre.entry(di).spec_refs() == 0;
        let lru0 = if dup_free {
            pre.spec_lru().remove(pre.spec_lru().index_of(di as usize))
        } else {
            pre.spec_lru()
        };
        let usage0 = pre.spec_usage() + charge - (if dup {
            pre.entry(di).spec_charge()
        } else {
            0
        });
        let m = spec_evictions(pre.spec_slots(), lru0, usage0, pre.spec_capacity());
        let off: int = if dup_free {
            1
        } else {
            0
        };
        &&& post.contains_key(k)
        &&& post.is_hit(ns, k)
        &&& (post.spec_usage() <= pre.spec_capacity() || post.spec_lru().len() == 0)
        &&& post.spec_usage() == usage0 - spec_prefix_charge(pre.spec_slots(), lru0, m)
        &&& post.spec_lru() == lru0.skip(m)
        &&& destroyed.len() == off + m
        &&& (dup_free ==> destroyed[0].0@ == pre.entry(di).spec_key() && destroyed[0].1
            == pre.entry(di).spec_value())
        &&& (forall|j: int|
            0 <= j < m ==> (#[trigger] destroyed[off + j]).0@ == pre.entry(
                lru0[j] as int,
            ).spec_key() && destroyed[off + j].1 == pre.entry(lru0[j] as int).spec_value())
        &&& (forall|j: int|
            0 <= j < pre.spec_slots().len() && pre.slot_occupied(j) && pre.entry(j).spec_refs()
                >= 1 ==> {
                &&& post.slot_occupied(j)
                &&& (#[trigger] post.entry(j)).spec_key() == pre.entry(j).spec_key()
                &&& post.entry(j).spec_value() == pre.entry(j).spec_value()
                &&& post.entry(j).spec_charge() == pre.entry(j).spec_charge()
                &&& post.entry(j).spec_refs() == pre.entry(j).spec_refs()
                &&& post.entry(j).spec_in_table() == (pre.entry(j).spec_in_table() && pre.entry(
                    j,
                ).spec_key() != k)
            })
        // the evicted entries' slots, and an unreferenced duplicate's,
        // are vacated
        &&& (forall|j: int| 0 <= j < m ==> post.spec_slots()[(#[trigger] lru0[j]) as int]
            is Vacant)
        &&& (dup_free ==> post.spec_slots()[di] is Vacant)
        // every other pre-existing slot - the surviving entries,
        // unreferenced ones included - is exactly as it was
        &&& (forall|j: int|
            0 <= j < pre.spec_slots().len() && !lru0.subrange(0, m).contains(j as usize) && !(dup
                && j == di) ==> #[trigger] post.spec_slots()[j] == pre.spec_slots()[j])
        // the in-use list gains the new entry and loses only a still
        // referenced duplicate
        &&& (!(dup && pre.entry(di).spec_refs() >= 1) ==> post.spec_in_use()
            == pre.spec_in_use().push(ns as usize))
        &&& (dup && pre.entry(di).spec_refs() >= 1 ==> exists|p: int|
            {
                &&& 0 <= p < pre.spec_in_use().len()
                &&& pre.spec_in_use()[p] == di as usize
                &&& post.spec_in_use() == pre.spec_in_use().remove(p).push(ns as usize)
            })
    }))
}

/// One shard: a bounded key/value cache with strict LRU eviction among
/// unreferenced entries and deferred destruction for entries still
/// referenced by clients.
pub struct LruCache<T> {
    capacity: usize,
    usage: usize,
    // the entry store; destroyed entries leave vacant slots behind
    slots: Vec<Slot<T>>,
    // slots of resident entries nobody references, oldest first
    lru: Vec<usize>,
    // slots of resident entries with at least one handle out
    in_use: Vec<usize>,
}

impl<T> LruCache<T> {
    pub closed spec fn spec_capacity(&self) -> int {
        self.capacity as int
    }

    pub closed spec fn spec_usage(&self) -> int {
        self.usage as int
    }

    pub closed spec fn spec_slots(&self) -> Seq<Slot<T>> {
        self.slots@
    }

    pub closed spec fn spec_lru(&self) -> Seq<usize> {
        self.lru@
    }

    pub closed spec fn spec_in_use(&self) -> Seq<usize> {
        self.in_use@
    }

    /// Slot `i` holds an entry.
    pub open spec fn slot_occupied(&self, i: int) -> bool {
        &&& 0 <= i < self.spec_slots().len()
        &&& self.spec_slots()[i] is Occupied
    }

    /// The entry in slot `i`.
    pub open spec fn entry(&self, i: int) -> CacheEntry<T>
        recommends
            self.slot_occupied(i),
    {
        self.spec_slots()[i]->Occupied_0
    }

    /// Slot `i` holds the live mapping for key `k`.
    pub open spec fn is_hit(&self, i: int, k: Seq<u8>) -> bool {
        &&& self.slot_occupied(i)
        &&& self.entry(i).spec_in_table()
        &&& self.entry(i).spec_key() == k
    }

    /// Some slot holds a live mapping for `k`.
    pub open spec fn contains_key(&self, k: Seq<u8>) -> bool {
        exists|i: int| self.is_hit(i, k)
    }

    /// The slot of the live mapping for `k`; meaningful when
    /// `contains_key(k)`, and then unique.
    pub open spec fn hit_index(&self, k: Seq<u8>) -> int {
        choose|i: int| self.is_hit(i, k)
    }

    /// The cache's bookkeeping is coherent:
    /// - list members are resident entries, unreferenced ones on the
    ///   LRU list and referenced ones on the in-use list, each listed
    ///   once;
    /// - every resident entry is on the list its reference count
    ///   demands, and an erased entry that still occupies its slot has
    ///   a reference left;
    /// - one live slot per key;
    /// - the usage counter is the charge of the resident entries.
    pub closed spec fn wf(&self) -> bool {
        &&& (forall|p: int|
            0 <= p < self.spec_lru().len() ==> {
                &&& self.slot_occupied(#[trigger] self.spec_lru()[p] as int)
                &&& self.entry(self.spec_lru()[p] as int).spec_in_table()
                &&& self.entry(self.spec_lru()[p] as int).spec_refs() == 0
            })
        &&& (forall|p: int|
            0 <= p < self.spec_in_use().len() ==> {
                &&& self.slot_occupied(#[trigger] self.spec_in_use()[p] as int)
                &&& self.entry(self.spec_in_use()[p] as int).spec_in_table()
                &&& self.entry(self.spec_in_use()[p] as int).spec_refs() >= 1
            })
        &&& (forall|p: int, q: int|
            0 <= p < q < self.spec_lru().len() ==> #[trigger] self.spec_lru()[p]
                != #[trigger] self.spec_lru()[q])
        &&& (forall|p: int, q: int|
            0 <= p < q < self.spec_in_use().len() ==> #[trigger] self.spec_in_use()[p]
                != #[trigger] self.spec_in_use()[q])
        &&& (forall|i: int|
            self.slot_occupied(i) ==> {
                &&& ((#[trigger] self.entry(i)).spec_in_table() && self.entry(i).spec_refs() == 0
                    ==> self.spec_lru().contains(i as usize))
                &&& (self.entry(i).spec_in_table() && self.entry(i).spec_refs() >= 1
                    ==> self.spec_in_use().contains(i as usize))
                &&& (!self.entry(i).spec_in_table() ==> self.entry(i).spec_refs() >= 1)
            })
        &&& (forall|i: int, j: int|
            #![trigger self.entry(i).spec_key(), self.entry(j).spec_key()]
            self.slot_occupied(i) && self.slot_occupied(j) && self.entry(i).spec_in_table()
                && self.entry(j).spec_in_table() && self.entry(i).spec_key() == self.entry(
                j,
            ).spec_key() ==> i == j)
        &&& self.spec_usage() == spec_table_charge(self.spec_slots())
        &&& self.spec_slots().len() <= usize::MAX
    }

    /// Create a shard with the given capacity; capacity 0 turns
    /// caching off.
    pub fn new(capacity: usize) -> (c: LruCache<T>)
        ensures
            c.wf(),
            c.spec_capacity() == capacity,
            c.spec_usage() == 0,
            c.spec_slots().len() == 0,
            c.spec_lru().len() == 0,
            c.spec_in_use().len() == 0,
    {
        LruCache {
            capacity,
            usage: 0,
            slots: Vec::new(),
            lru: Vec::new(),
            in_use: Vec::new(),
        }
    }

    /// The shard's capacity.
    pub fn capacity(&self) -> (c: usize)
        ensures
            c == self.spec_capacity(),
    {
        self.capacity
    }

    /// Return the combined charges of the resident entries.
    pub fn total_charge(&self) -> (r: usize)
        requires
            self.wf(),
        ensures
            r == self.spec_usage(),
            r == spec_table_charge(self.spec_slots()),
    {
        self.usage
    }

    /// The slot holding the live mapping for `key`, if any.
    fn find_slot(&self, key: &Slice) -> (r: Option<usize>)
        requires
            self.wf(),
        ensures
            match r {
                Some(i) => self.is_hit(i as int, key@) && i == self.hit_index(key@),
                None => !self.contains_key(key@),
            },
    {
        let n = self.slots.len();
        let mut i: usize = 0;
        while i < n
            invariant
                self.wf(),
                n == self.spec_slots().len(),
                i <= n,
                forall|j: int| 0 <= j < i ==> !self.is_hit(j, key@),
            decreases n - i,
        {
            match &self.slots[i] {
                Slot::Occupied(e) => {
                    if e.in_table && e.key == *key {
                        proof {
                            assert(self.is_hit(i as int, key@));
                            self.lemma_hit_unique(i as int, self.hit_index(key@), key@);
                        }
                        return Some(i);
                    }
                },
                Slot::Vacant => {},
            }
            i += 1;
        }
        None
    }

    /// Return the value behind a handle returned by a successful
    /// `insert` or `lookup` on this cache.
    pub fn value<'a>(&'a self, handle: &CacheHandle) -> (v: &'a T)
        requires
            self.wf(),
            self.slot_occupied(handle.spec_slot()),
            self.entry(handle.spec_slot()).spec_refs() >= 1,
        ensures
            *v == self.entry(handle.spec_slot()).spec_value(),
    {
        match &self.slots[handle.slot] {
            Slot::Occupied(e) => &e.value,
            Slot::Vacant => vstd::pervasive::unreached(),
        }
    }

    /// The capacity law for insert: afterwards the total charge is
    /// within capacity, or every resident entry is externally
    /// referenced - eviction only ever removes unreferenced entries,
    /// so it can do no better.
    pub proof fn lemma_capacity_after_insert(
        pre: LruCache<T>,
        post: LruCache<T>,
        destroyed: Seq<(Slice, T)>,
        k: Seq<u8>,
        value: T,
        charge: int,
    )
        requires
            pre.spec_capacity() > 0,
            spec_insert_post(pre, post, destroyed, k, value, charge),
        ensures
            post.spec_usage() <= post.spec_capacity() || post.spec_lru().len() == 0,
    {
    }

    /// The capacity law survives a lookup: the charge total does not
    /// move, and the LRU list only gives entries up.
    pub proof fn lemma_capacity_preserved_lookup(
        pre: LruCache<T>,
        post: LruCache<T>,
        r: Option<CacheHandle>,
        k: Seq<u8>,
    )
        requires
            pre.wf(),
            spec_lookup_post(pre, post, r, k),
            pre.spec_usage() <= pre.spec_capacity() || pre.spec_lru().len() == 0,
        ensures
            post.spec_usage() <= post.spec_capacity() || post.spec_lru().len() == 0,
    {
        if r is Some && pre.spec_usage() > pre.spec_capacity() {
            let i = pre.hit_index(k);
            if pre.entry(i).spec_refs() == 0 {
                let p = choose|p: int|
                    {
                        &&& 0 <= p < pre.spec_lru().len()
                        &&& pre.spec_lru()[p] == i as usize
                        &&& post.spec_lru() == pre.spec_lru().remove(p)
                    };
                assert(0 <= p < pre.spec_lru().len());
            }
        }
    }

    /// The capacity law survives an erase: the charge total only
    /// falls, and the LRU list only gives entries up.
    pub proof fn lemma_capacity_preserved_erase(
        pre: LruCache<T>,
        post: LruCache<T>,
        r: Option<(Slice, T)>,
        k: Seq<u8>,
    )
        requires
            pre.wf(),
            spec_erase_post(pre, post, r, k),
            pre.spec_usage() <= pre.spec_capacity() || pre.spec_lru().len() == 0,
        ensures
            post.spec_usage() <= post.spec_capacity() || post.spec_lru().len() == 0,
    {
        if pre.contains_key(k) && pre.spec_usage() > pre.spec_capacity() {
            let i = pre.hit_index(k);
            if pre.entry(i).spec_refs() == 0 {
                let p = choose|p: int|
                    {
                        &&& 0 <= p < pre.spec_lru().len()
                        &&& pre.spec_lru()[p] == i as usize
                        &&& post.spec_lru() == pre.spec_lru().remove(p)
                    };
                assert(0 <= p < pre.spec_lru().len());
            }
        }
    }

    /// The capacity law holds outright after a prune: no unreferenced
    /// entry remains at all.
    pub proof fn lemma_capacity_after_prune(
        pre: LruCache<T>,
        post: LruCache<T>,
        destroyed: Seq<(Slice, T)>,
    )
        requires
            spec_prune_post(pre, post, destroyed),
        ensures
            post.spec_lru().len() == 0,
    {
    }

    /// Destruction happens at most once, and only at zero references:
    /// a release hands an entry back exactly when it drops the last
    /// outside reference of an entry the table no longer holds, and
    /// the slot is vacant afterwards, so nothing can hand the entry
    /// back a second time.
    pub proof fn lemma_at_most_once_destruction(
        pre: LruCache<T>,
        post: LruCache<T>,
        i: int,
        r: Option<(Slice, T)>,
    )
        requires
            pre.wf(),
            pre.slot_occupied(i),
            pre.entry(i).spec_refs() >= 1,
            spec_release_post(pre, post, i, r),
        ensures
            r is Some <==> (pre.entry(i).spec_refs() == 1 && !pre.entry(i).spec_in_table()),
            r is Some ==> !post.slot_occupied(i),
    {
    }

    /// The usage counter and capacity are machine integers.
    pub proof fn lemma_counter_bounds(&self)
        ensures
            0 <= self.spec_usage() <= usize::MAX,
            0 <= self.spec_capacity() <= usize::MAX,
    {
    }

    /// A lookup changes no key's residency: the hit entry keeps its
    /// key and stays in the table, and nothing else moves.
    pub proof fn lemma_lookup_preserves_keys(
        pre: LruCache<T>,
        post: LruCache<T>,
        r: Option<CacheHandle>,
        k: Seq<u8>,
    )
        requires
            spec_lookup_post(pre, post, r, k),
        ensures
            forall|k2: Seq<u8>| #[trigger] post.contains_key(k2) == pre.contains_key(k2),
    {
        if r is Some {
            let i = pre.hit_index(k);
            assert forall|k2: Seq<u8>| #[trigger] post.contains_key(k2) == pre.contains_key(
                k2,
            ) by {
                if pre.contains_key(k2) {
                    let j = choose|j: int| pre.is_hit(j, k2);
                    assert(pre.is_hit(j, k2));
                    if j != i {
                        assert(post.spec_slots()[j] == pre.spec_slots()[j]);
                    }
                    assert(post.is_hit(j, k2));
                }
                if post.contains_key(k2) {
                    let j = choose|j: int| post.is_hit(j, k2);
                    assert(post.is_hit(j, k2));
                    if j != i {
                        assert(post.spec_slots()[j] == pre.spec_slots()[j]);
                    }
                    assert(pre.is_hit(j, k2));
                }
            };
        }
    }

    /// An entry's bookkeeping values are machine integers; callers
    /// outside this module cannot see that through the closed specs.
    pub proof fn lemma_entry_bounds(&self, i: int)
        requires
            self.slot_occupied(i),
        ensures
            0 <= self.entry(i).spec_refs() <= usize::MAX,
            0 <= self.entry(i).spec_charge() <= usize::MAX,
    {
    }

    /// Whether `handle` names a live entry of this cache that still
    /// has a reference out: exactly the condition `release` demands.
    pub fn handle_live(&self, handle: &CacheHandle) -> (b: bool)
        requires
            self.wf(),
        ensures
            b == (self.slot_occupied(handle.spec_slot()) && self.entry(
                handle.spec_slot(),
            ).spec_refs() >= 1),
    {
        if handle.slot >= self.slots.len() {
            return false;
        }
        match &self.slots[handle.slot] {
            Slot::Occupied(e) => e.refs >= 1,
            Slot::Vacant => false,
        }
    }

    /// Two live slots with the same key are the same slot.
    pub proof fn lemma_hit_unique(&self, i: int, j: int, k: Seq<u8>)
        requires
            self.wf(),
            self.is_hit(i, k),
            self.is_hit(j, k),
        ensures
            i == j,
    {
        assert(self.entry(i).spec_key() == k);
        assert(self.entry(j).spec_key() == k);
    }

    /// An entry is on exactly one of the two lists while it is in the
    /// table, and on neither once erased.
    pub proof fn lemma_list_exclusivity(&self, i: usize)
        requires
            self.wf(),
            self.slot_occupied(i as int),
        ensures
            self.entry(i as int).spec_in_table() ==> (self.spec_lru().contains(i) != self
                .spec_in_use()
                .contains(i)),
            !self.entry(i as int).spec_in_table() ==> !self.spec_lru().contains(i) && !self
                .spec_in_use()
                .contains(i),
    {
        if self.spec_lru().contains(i) {
            let p = self.spec_lru().index_of(i);
            assert(self.spec_lru()[p] == i);
            assert(self.entry(i as int).spec_refs() == 0 && self.entry(i as int).spec_in_table());
        }
        if self.spec_in_use().contains(i) {
            let p = self.spec_in_use().index_of(i);
            assert(self.spec_in_use()[p] == i);
            assert(self.entry(i as int).spec_refs() >= 1 && self.entry(i as int).spec_in_table());
        }
    }

    /// All slots except `i` are as they were in `prev`.
    pub open spec fn slots_same_except(&self, prev: LruCache<T>, i: int) -> bool {
        &&& self.spec_slots().len() == prev.spec_slots().len()
        &&& (forall|j: int|
            0 <= j < prev.spec_slots().len() && j != i ==> self.spec_slots()[j]
                == #[trigger] prev.spec_slots()[j])
    }

    /// Slot `i` holds `prev`'s entry with the same key, value and
    /// charge, reference count `r` and table flag `t`.
    pub open spec fn entry_updated(&self, prev: LruCache<T>, i: int, r: int, t: bool) -> bool {
        &&& self.slot_occupied(i)
        &&& self.entry(i).spec_key() == prev.entry(i).spec_key()
        &&& self.entry(i).spec_value() == prev.entry(i).spec_value()
        &&& self.entry(i).spec_charge() == prev.entry(i).spec_charge()
        &&& self.entry(i).spec_refs() == r
        &&& self.entry(i).spec_in_table() == t
    }

    /// If the cache has no live mapping for `key`, return nothing and
    /// change nothing.  On a hit, count the new reference and, when the
    /// entry was resting on the LRU list, promote it to the in-use
    /// list.
    pub fn lookup(&mut self, key: &Slice) -> (r: Option<CacheHandle>)
        requires
            old(self).wf(),
            old(self).contains_key(key@) ==> old(self).entry(
                old(self).hit_index(key@),
            ).spec_refs() < usize::MAX,
        ensures
            final(self).wf(),
            spec_lookup_post(*old(self), *final(self), r, key@),
            r matches Some(h) ==> h.spec_shard() == 0,
    {
        let found = self.find_slot(key);
        match found {
            None => None,
            Some(i) => {
                let ghost prev = *self;
                let mut promote = false;
                match &mut self.slots[i] {
                    Slot::Occupied(e) => {
                        if e.refs == 0 {
                            promote = true;
                        }
                        e.refs = e.refs + 1;
                    },
                    Slot::Vacant => {
                        proof {
                            assert(false);
                        }
                    },
                }
                proof {
                    lemma_charge_update(
                        prev.spec_slots(),
                        i as int,
                        self.spec_slots()[i as int],
                    );
                }
                if promote {
                    proof {
                        if !prev.spec_lru().contains(i) {
                            assert(prev.entry(i as int).spec_in_table() && prev.entry(
                                i as int,
                            ).spec_refs() == 0);
                            assert(false);
                        }
                    }
                    let p = remove_list_value(&mut self.lru, i);
                    self.in_use.push(i);
                    proof {
                        self.lemma_lookup_wf_promote(prev, i, p@);
                    }
                } else {
                    proof {
                        self.lemma_wf_refs_only(prev, i, prev.entry(i as int).spec_refs() + 1);
                    }
                }
                Some(CacheHandle { shard: 0, slot: i })
            },
        }
    }

    /// Well-formedness after a hit on an unreferenced entry: the entry
    /// gains its first reference and moves from the LRU list to the
    /// in-use list.
    proof fn lemma_lookup_wf_promote(&self, prev: LruCache<T>, i: usize, p: int)
        requires
            prev.wf(),
            prev.slot_occupied(i as int),
            prev.entry(i as int).spec_in_table(),
            prev.entry(i as int).spec_refs() == 0,
            self.slots_same_except(prev, i as int),
            self.entry_updated(prev, i as int, 1, true),
            0 <= p < prev.spec_lru().len(),
            prev.spec_lru()[p] == i,
            self.spec_lru() == prev.spec_lru().remove(p),
            self.spec_in_use() == prev.spec_in_use().push(i),
            self.spec_usage() == spec_table_charge(self.spec_slots()),
        ensures
            self.wf(),
    {
        let li0 = prev.spec_lru();
        let li1 = self.spec_lru();
        let iu0 = prev.spec_in_use();
        let iu1 = self.spec_in_use();
        li0.remove_ensures(p);
        // every slot but i is unchanged, and slot i is occupied both
        // before and after
        assert(forall|j: int|
            prev.slot_occupied(j) <==> self.slot_occupied(j));
        assert(forall|j: int|
            prev.slot_occupied(j) && j != i ==> self.entry(j) == prev.entry(j));
        // the new LRU list: old members other than position p
        assert forall|q: int| 0 <= q < li1.len() implies {
            &&& self.slot_occupied(#[trigger] li1[q] as int)
            &&& self.entry(li1[q] as int).spec_in_table()
            &&& self.entry(li1[q] as int).spec_refs() == 0
            &&& li1[q] != i
        } by {
            if q < p {
                assert(li1[q] == li0[q]);
            } else {
                assert(li1[q] == li0[q + 1]);
            }
        };
        // the new in-use list: old members plus i
        assert forall|q: int| 0 <= q < iu1.len() implies {
            &&& self.slot_occupied(#[trigger] iu1[q] as int)
            &&& self.entry(iu1[q] as int).spec_in_table()
            &&& self.entry(iu1[q] as int).spec_refs() >= 1
        } by {
            if q < iu0.len() {
                assert(iu1[q] == iu0[q]);
                assert(iu0[q] != i);
            } else {
                assert(iu1[q] == i);
            }
        };
        // both lists stay duplicate-free
        assert forall|q1: int, q2: int| 0 <= q1 < q2 < li1.len() implies #[trigger] li1[q1]
            != #[trigger] li1[q2] by {
            let m1 = if q1 < p { q1 } else { q1 + 1 };
            let m2 = if q2 < p { q2 } else { q2 + 1 };
            assert(li1[q1] == li0[m1] && li1[q2] == li0[m2]);
        };
        assert forall|q1: int, q2: int| 0 <= q1 < q2 < iu1.len() implies #[trigger] iu1[q1]
            != #[trigger] iu1[q2] by {
            if q2 == iu0.len() {
                assert(iu1[q2] == i);
                assert(iu1[q1] == iu0[q1]);
                assert(iu0[q1] != i);
            }
        };
        // each occupied slot is on the list its state demands
        assert forall|j: int| self.slot_occupied(j) implies {
            &&& ((#[trigger] self.entry(j)).spec_in_table() && self.entry(j).spec_refs() == 0
                ==> self.spec_lru().contains(j as usize))
            &&& (self.entry(j).spec_in_table() && self.entry(j).spec_refs() >= 1
                ==> self.spec_in_use().contains(j as usize))
            &&& (!self.entry(j).spec_in_table() ==> self.entry(j).spec_refs() >= 1)
        } by {
            if j == i {
                assert(iu1[iu0.len() as int] == i);
                assert(iu1.contains(i));
            } else {
                assert(self.entry(j) == prev.entry(j));
                if prev.entry(j).spec_in_table() && prev.entry(j).spec_refs() == 0 {
                    let q0 = li0.index_of(j as usize);
                    assert(li0[q0] == j as usize);
                    assert(q0 != p);
                    if q0 < p {
                        assert(li1[q0] == li0[q0]);
                        assert(li1.contains(j as usize));
                    } else {
                        assert(li1[q0 - 1] == li0[q0]);
                        assert(li1.contains(j as usize));
                    }
                }
                if prev.entry(j).spec_in_table() && prev.entry(j).spec_refs() >= 1 {
                    let q0 = iu0.index_of(j as usize);
                    assert(iu1[q0] == iu0[q0]);
                    assert(iu1.contains(j as usize));
                }
            }
        };
        // key uniqueness carries over because no key changed
        assert forall|a: int, b: int|
            self.slot_occupied(a) && self.slot_occupied(b) && self.entry(a).spec_in_table()
                && self.entry(b).spec_in_table() && (#[trigger] self.entry(a).spec_key())
                == (#[trigger] self.entry(b).spec_key()) implies a == b by {
            assert(prev.entry(a).spec_key() == self.entry(a).spec_key());
            assert(prev.entry(b).spec_key() == self.entry(b).spec_key());
            assert(prev.entry(a).spec_in_table() && prev.entry(b).spec_in_table());
        };
    }

    /// Release one reference to the entry behind `handle`.  While
    /// other references, or the table's own, remain the entry stays;
    /// dropping the last reference of an already erased entry destroys
    /// it and hands its key and value back.
    pub fn release(&mut self, handle: CacheHandle) -> (r: Option<(Slice, T)>)
        requires
            old(self).wf(),
            old(self).slot_occupied(handle.spec_slot()),
            old(self).entry(handle.spec_slot()).spec_refs() >= 1,
        ensures
            final(self).wf(),
            spec_release_post(*old(self), *final(self), handle.spec_slot(), r),
    {
        let i = handle.slot;
        let ghost prev = *self;
        let (refs, in_table) = match &self.slots[i] {
            Slot::Occupied(e) => (e.refs, e.in_table),
            Slot::Vacant => vstd::pervasive::unreached(),
        };
        if refs > 1 {
            match &mut self.slots[i] {
                Slot::Occupied(e) => {
                    e.refs = e.refs - 1;
                },
                Slot::Vacant => {
                    proof {
                        assert(false);
                    }
                },
            }
            proof {
                lemma_charge_update(prev.spec_slots(), i as int, self.spec_slots()[i as int]);
                self.lemma_wf_refs_only(prev, i, refs - 1);
            }
            None
        } else if in_table {
            match &mut self.slots[i] {
                Slot::Occupied(e) => {
                    e.refs = 0;
                },
                Slot::Vacant => {
                    proof {
                        assert(false);
                    }
                },
            }
            proof {
                lemma_charge_update(prev.spec_slots(), i as int, self.spec_slots()[i as int]);
                if !prev.spec_in_use().contains(i) {
                    assert(false);
                }
                if prev.spec_lru().contains(i) {
                    let q = prev.spec_lru().index_of(i);
                    assert(prev.spec_lru()[q] == i);
                    assert(false);
                }
            }
            let p = remove_list_value(&mut self.in_use, i);
            self.lru.push(i);
            proof {
                self.lemma_wf_demote(prev, i, p@);
            }
            None
        } else {
            let e = take_entry(&mut self.slots, i);
            proof {
                lemma_charge_update(prev.spec_slots(), i as int, Slot::Vacant);
                self.lemma_wf_vacate(prev, i);
            }
            let CacheEntry { key, value, .. } = e;
            Some((key, value))
        }
    }

    /// If the cache holds a mapping for `key`, remove it from the
    /// table and from whichever list carries it.  An entry nobody
    /// references is destroyed now and handed back; one with handles
    /// still out stays in its slot until the last `release`.
    pub fn erase(&mut self, key: &Slice) -> (r: Option<(Slice, T)>)
        requires
            old(self).wf(),
        ensures
            final(self).wf(),
            spec_erase_post(*old(self), *final(self), r, key@),
    {
        match self.find_slot(key) {
            None => None,
            Some(i) => {
                let ghost prev = *self;
                let (refs, charge) = match &self.slots[i] {
                    Slot::Occupied(e) => (e.refs, e.charge),
                    Slot::Vacant => vstd::pervasive::unreached(),
                };
                proof {
                    lemma_charge_bounds(prev.spec_slots(), i as int);
                }
                if refs == 0 {
                    proof {
                        if !prev.spec_lru().contains(i) {
                            assert(false);
                        }
                    }
                    let p = remove_list_value(&mut self.lru, i);
                    let e = take_entry(&mut self.slots, i);
                    self.usage = self.usage - e.charge;
                    proof {
                        lemma_charge_update(prev.spec_slots(), i as int, Slot::Vacant);
                        self.lemma_wf_erase_free(prev, i, p@);
                        self.lemma_gone(prev, i as int, key@);
                    }
                    let CacheEntry { key: k, value: v, .. } = e;
                    Some((k, v))
                } else {
                    match &mut self.slots[i] {
                        Slot::Occupied(e) => {
                            e.in_table = false;
                        },
                        Slot::Vacant => {
                            proof {
                                assert(false);
                            }
                        },
                    }
                    proof {
                        if !prev.spec_in_use().contains(i) {
                            assert(false);
                        }
                    }
                    let p = remove_list_value(&mut self.in_use, i);
                    self.usage = self.usage - charge;
                    proof {
                        lemma_charge_update(prev.spec_slots(), i as int, self.spec_slots()[i as int]);
                        self.lemma_wf_erase_held(prev, i, p@);
                        self.lemma_gone(prev, i as int, key@);
                    }
                    None
                }
            },
        }
    }

    /// Insert a mapping from `key` to `value` with cost `charge`.
    /// Always succeeds and returns a handle holding the entry's first
    /// reference, together with every entry the insertion destroyed:
    /// first the old entry under the same key when nothing referenced
    /// it, then, while the total charge exceeds capacity, the oldest
    /// unreferenced entries in strict LRU order.  Entries with
    /// handles out are never destroyed here.  With capacity zero the
    /// entry is handed back but never enters the table.
    #[verifier::rlimit(100)]
    pub fn insert(&mut self, key: Slice, value: T, charge: usize) -> (r: (
        CacheHandle,
        Vec<(Slice, T)>,
    ))
        requires
            old(self).wf(),
            old(self).spec_usage() + charge <= usize::MAX,
            old(self).spec_slots().len() < usize::MAX,
        ensures
            final(self).wf(),
            r.0.spec_shard() == 0,
            r.0.spec_slot() == old(self).spec_slots().len(),
            spec_insert_post(*old(self), *final(self), r.1@, key@, value, charge as int),
    {
        let slot_idx = self.slots.len();
        if self.capacity == 0 {
            let ghost prev = *self;
            self.slots.push(
                Slot::Occupied(CacheEntry { key, value, charge, refs: 1, in_table: false }),
            );
            proof {
                lemma_charge_push(prev.spec_slots(), self.spec_slots().last());
                self.lemma_wf_bypass(prev);
            }
            return (CacheHandle { shard: 0, slot: slot_idx }, Vec::new());
        }
        let ghost orig = *self;
        let mut destroyed: Vec<(Slice, T)> = Vec::new();
        // evict any old entry under the same key from the table; its
        // destruction is deferred while handles to it remain
        let found = self.find_slot(&key);
        match found {
            Some(di) => {
                let ghost prev = *self;
                let (refs, dcharge) = match &self.slots[di] {
                    Slot::Occupied(e) => (e.refs, e.charge),
                    Slot::Vacant => vstd::pervasive::unreached(),
                };
                proof {
                    lemma_charge_bounds(prev.spec_slots(), di as int);
                }
                if refs == 0 {
                    proof {
                        if !prev.spec_lru().contains(di) {
                            assert(false);
                        }
                    }
                    let p = remove_list_value(&mut self.lru, di);
                    let e = take_entry(&mut self.slots, di);
                    self.usage = self.usage - e.charge;
                    proof {
                        lemma_charge_update(prev.spec_slots(), di as int, Slot::Vacant);
                        self.lemma_wf_erase_free(prev, di, p@);
                        self.lemma_gone(prev, di as int, key@);
                        let q = prev.spec_lru().index_of(di);
                        assert(prev.spec_lru()[q] == di);
                        assert(q == p@);
                    }
                    let CacheEntry { key: dk, value: dv, .. } = e;
                    destroyed.push((dk, dv));
                } else {
                    match &mut self.slots[di] {
                        Slot::Occupied(e) => {
                            e.in_table = false;
                        },
                        Slot::Vacant => {
                            proof {
                                assert(false);
                            }
                        },
                    }
                    proof {
                        if !prev.spec_in_use().contains(di) {
                            assert(false);
                        }
                    }
                    let p = remove_list_value(&mut self.in_use, di);
                    self.usage = self.usage - dcharge;
                    proof {
                        lemma_charge_update(
                            prev.spec_slots(),
                            di as int,
                            self.spec_slots()[di as int],
                        );
                        self.lemma_wf_erase_held(prev, di, p@);
                        self.lemma_gone(prev, di as int, key@);
                    }
                }
            },
            None => {},
        }
        // place the new entry in the table and on the in-use list
        let ghost mid = *self;
        self.slots.push(
            Slot::Occupied(CacheEntry { key, value, charge, refs: 1, in_table: true }),
        );
        self.in_use.push(slot_idx);
        self.usage = self.usage + charge;
        proof {
            lemma_charge_push(mid.spec_slots(), self.spec_slots().last());
            self.lemma_wf_insert_new(mid, slot_idx);
        }
        // evict from the cold end of the LRU list until the charge is
        // within capacity or only referenced entries remain
        let ghost start = *self;
        let ghost base = orig.spec_slots();
        let ghost lru0 = self.spec_lru();
        let ghost usage0 = self.spec_usage();
        let ghost total = spec_evictions(base, lru0, usage0, orig.spec_capacity());
        let ghost k: int = 0;
        let ghost off: int = destroyed@.len() as int;
        let ghost dpre = destroyed@;
        proof {
            assert(lru0.skip(0) =~= lru0);
            assert(forall|p: int, q: int|
                0 <= p < q < lru0.len() ==> #[trigger] lru0[p] != #[trigger] lru0[q]);
            assert forall|j: int| 0 <= j < lru0.len() implies self.slot_occupied(
                (#[trigger] lru0[j]) as int,
            ) && (lru0[j] as int) < base.len() && base[lru0[j] as int] is Occupied
                && self.spec_slots()[lru0[j] as int] == base[lru0[j] as int] by {
                assert(self.slot_occupied(lru0[j] as int));
                assert(mid.spec_lru()[j] == lru0[j]);
                assert(mid.slot_occupied(lru0[j] as int));
                assert((lru0[j] as int) < mid.spec_slots().len());
                assert(lru0[j] != slot_idx);
                assert(mid.spec_slots()[lru0[j] as int] == self.spec_slots()[lru0[j] as int]);
                assert(mid.entry(lru0[j] as int).spec_refs() == 0);
                if orig.contains_key(key@) {
                    let di = orig.hit_index(key@);
                    if lru0[j] as int == di {
                        if orig.entry(di).spec_refs() == 0 {
                            // the duplicate's slot was vacated and left the list
                            assert(mid.spec_slots()[di] is Vacant);
                        } else {
                            // the duplicate kept references, so it was never on
                            // the LRU list
                            assert(mid.entry(di).spec_refs() >= 1);
                        }
                    }
                }
            };
        }
        while self.usage > self.capacity && self.lru.len() > 0
            invariant
                self.wf(),
                self.spec_capacity() == orig.spec_capacity(),
                self.spec_capacity() > 0,
                0 <= k <= lru0.len(),
                self.spec_lru() == lru0.skip(k),
                self.spec_in_use() == start.spec_in_use(),
                total == k + spec_evictions(
                    base,
                    lru0.skip(k),
                    self.spec_usage(),
                    orig.spec_capacity(),
                ),
                self.spec_usage() == usage0 - spec_prefix_charge(base, lru0, k),
                0 <= off,
                destroyed@.len() == off + k,
                destroyed@.subrange(0, off) == dpre,
                forall|j: int|
                    k <= j < lru0.len() ==> self.slot_occupied((#[trigger] lru0[j]) as int)
                        && (lru0[j] as int) < base.len() && base[lru0[j] as int] is Occupied
                        && self.spec_slots()[lru0[j] as int] == base[lru0[j] as int],
                forall|j: int|
                    0 <= j < lru0.len() ==> ((#[trigger] lru0[j]) as int) < base.len(),
                forall|j: int|
                    off <= j < destroyed@.len() ==> (#[trigger] destroyed@[j]).0@ == base[lru0[j
                        - off] as int]->Occupied_0.spec_key() && destroyed@[j].1 == base[lru0[j
                        - off] as int]->Occupied_0.spec_value(),
                self.spec_slots().len() == start.spec_slots().len(),
                forall|j: int|
                    0 <= j < self.spec_slots().len() && !lru0.subrange(0, k).contains(j as usize)
                        ==> #[trigger] self.spec_slots()[j] == start.spec_slots()[j],
                forall|p: int, q: int|
                    0 <= p < q < lru0.len() ==> #[trigger] lru0[p] != #[trigger] lru0[q],
                base.len() + 1 == start.spec_slots().len(),
                forall|j: int|
                    0 <= j < k ==> self.spec_slots()[(#[trigger] lru0[j]) as int] is Vacant,
            decreases self.spec_lru().len(),
        {
            let ghost prev = *self;
            let i = self.lru[0];
            self.lru.remove(0);
            proof {
                assert(prev.spec_lru()[0] == i);
                assert(self.spec_lru() =~= prev.spec_lru().remove(0));
            }
            let e = take_entry(&mut self.slots, i);
            proof {
                lemma_charge_bounds(prev.spec_slots(), i as int);
            }
            self.usage = self.usage - e.charge;
            proof {
                lemma_charge_update(prev.spec_slots(), i as int, Slot::Vacant);
                self.lemma_wf_erase_free(prev, i, 0);
            }
            let CacheEntry { key: ek, value: ev, .. } = e;
            let ghost dprev = destroyed@;
            destroyed.push((ek, ev));
            proof {
                assert(destroyed@ == dprev.push((ek, ev)));
                assert forall|q: int| 0 <= q < off implies destroyed@.subrange(0, off)[q]
                    == dprev.subrange(0, off)[q] by {
                    assert(dprev.push((ek, ev))[q] == dprev[q]);
                };
                assert(destroyed@.subrange(0, off) =~= dprev.subrange(0, off));
                assert(dprev.push((ek, ev))[off + k] == (ek, ev));
                assert(ek@ == prev.entry(i as int).spec_key());
                assert(ev == prev.entry(i as int).spec_value());
                assert(prev.spec_slots()[i as int] == base[i as int]);
                assert forall|j: int| off <= j < destroyed@.len() implies (
                #[trigger] destroyed@[j]).0@ == base[lru0[j - off] as int]->Occupied_0.spec_key()
                    && destroyed@[j].1 == base[lru0[j - off] as int]->Occupied_0.spec_value() by {
                    if j < off + k {
                        assert(dprev.push((ek, ev))[j] == dprev[j]);
                    } else {
                        assert(j == off + k);
                        assert(lru0[j - off] == i);
                    }
                };
                assert(lru0.skip(k)[0] == lru0[k]);
                assert(lru0[k] == i);
                assert(self.spec_lru() =~= lru0.skip(k + 1));
                assert(lru0.skip(k).skip(1) =~= lru0.skip(k + 1));
                assert(lru_slot_charge(base, i) == prev.entry(i as int).spec_charge());
                assert(spec_prefix_charge(base, lru0, k + 1) == spec_prefix_charge(base, lru0, k)
                    + lru_slot_charge(base, lru0[k]));
                assert forall|j: int|
                    k + 1 <= j < lru0.len() implies self.slot_occupied((#[trigger] lru0[j]) as int)
                    && (lru0[j] as int) < base.len() && base[lru0[j] as int] is Occupied
                    && self.spec_slots()[lru0[j] as int] == base[lru0[j] as int] by {
                    assert(prev.spec_lru()[j - k] == lru0[j]);
                    assert(lru0[j] != i) by {
                        if lru0[j] == i {
                            assert(prev.spec_lru()[0] == prev.spec_lru()[j - k]);
                        }
                    };
                };
                assert forall|j: int|
                    0 <= j < self.spec_slots().len() && !lru0.subrange(0, k + 1).contains(
                        j as usize,
                    ) implies #[trigger] self.spec_slots()[j] == start.spec_slots()[j] by {
                    assert(!lru0.subrange(0, k).contains(j as usize)) by {
                        if lru0.subrange(0, k).contains(j as usize) {
                            let q = lru0.subrange(0, k).index_of(j as usize);
                            assert(lru0.subrange(0, k + 1)[q] == j as usize);
                        }
                    };
                    assert(j != i) by {
                        assert(lru0.subrange(0, k + 1)[k] == i as usize);
                    };
                };
                assert forall|j: int| 0 <= j < k + 1 implies self.spec_slots()[(
                #[trigger] lru0[j]) as int] is Vacant by {
                    if j < k {
                        assert(prev.spec_slots()[lru0[j] as int] is Vacant);
                        assert(lru0[j] != lru0[k as int]);
                        assert(lru0[j] != i);
                        assert(self.spec_slots()[lru0[j] as int] == prev.spec_slots()[lru0[j]
                            as int]);
                    } else {
                        assert(lru0[j] == i);
                        assert(self.spec_slots()[i as int] is Vacant);
                    }
                };
                k = k + 1;
            }
        }
        proof {
            assert(spec_evictions(base, lru0.skip(k), self.spec_usage(), orig.spec_capacity())
                == 0);
            assert(total == k);
            let ns = slot_idx as int;
            // the fresh entry survives: its slot is never on the LRU list
            assert(!lru0.subrange(0, k).contains(slot_idx)) by {
                if lru0.subrange(0, k).contains(slot_idx) {
                    let q = lru0.subrange(0, k).index_of(slot_idx);
                    assert(lru0[q] == slot_idx);
                    assert((lru0[q] as int) < base.len());
                }
            };
            assert(self.spec_slots()[ns] == start.spec_slots()[ns]);
            assert(self.is_hit(ns, key@));
            if orig.contains_key(key@) && orig.entry(orig.hit_index(key@)).spec_refs() == 0 {
                let di = orig.hit_index(key@);
                assert(off == 1);
                assert(destroyed@.subrange(0, 1)[0] == destroyed@[0]);
                assert(destroyed@[0] == dpre[0]);
                assert(dpre[0].0@ == orig.entry(di).spec_key());
                assert(dpre[0].1 == orig.entry(di).spec_value());
            }
            // entries that kept a reference kept their slot
            assert forall|j: int|
                0 <= j < orig.spec_slots().len() && orig.slot_occupied(j) && orig.entry(
                    j,
                ).spec_refs() >= 1 implies {
                &&& self.slot_occupied(j)
                &&& (#[trigger] self.entry(j)).spec_key() == orig.entry(j).spec_key()
                &&& self.entry(j).spec_value() == orig.entry(j).spec_value()
                &&& self.entry(j).spec_charge() == orig.entry(j).spec_charge()
                &&& self.entry(j).spec_refs() == orig.entry(j).spec_refs()
                &&& self.entry(j).spec_in_table() == (orig.entry(j).spec_in_table()
                    && orig.entry(j).spec_key() != key@)
            } by {
                assert(!lru0.subrange(0, k).contains(j as usize)) by {
                    if lru0.subrange(0, k).contains(j as usize) {
                        let q = lru0.subrange(0, k).index_of(j as usize);
                        assert(lru0[q] == j as usize);
                        assert(base[lru0[q] as int] is Occupied);
                        assert(mid.spec_lru().contains(j as usize)) by {
                            assert(mid.spec_lru() == lru0);
                            assert(lru0[q] == j as usize);
                        };
                        let q2 = mid.spec_lru().index_of(j as usize);
                        assert(mid.spec_lru()[q2] == j as usize);
                        assert(mid.entry(j).spec_refs() == 0);
                        if orig.contains_key(key@) && j == orig.hit_index(key@) {
                            assert(mid.entry(j).spec_refs() == orig.entry(j).spec_refs());
                        } else {
                            assert(mid.spec_slots()[j] == orig.spec_slots()[j]);
                        }
                    }
                };
                assert(self.spec_slots()[j] == start.spec_slots()[j]);
                assert(start.spec_slots()[j] == mid.spec_slots()[j]);
                if orig.contains_key(key@) {
                    let di = orig.hit_index(key@);
                    if j == di {
                        assert(orig.entry(di).spec_refs() >= 1);
                        assert(orig.entry(di).spec_key() == key@);
                    } else {
                        assert(mid.spec_slots()[j] == orig.spec_slots()[j]);
                        if orig.entry(j).spec_in_table() && orig.entry(j).spec_key() == key@ {
                            assert(orig.is_hit(j, key@));
                            orig.lemma_hit_unique(j, di, key@);
                        }
                    }
                } else {
                    assert(mid.spec_slots()[j] == orig.spec_slots()[j]);
                    if orig.entry(j).spec_in_table() && orig.entry(j).spec_key() == key@ {
                        assert(orig.is_hit(j, key@));
                    }
                }
            };
            // an unreferenced duplicate's slot stays vacant: it is not
            // on the LRU list the loop walked
            if orig.contains_key(key@) && orig.entry(orig.hit_index(key@)).spec_refs() == 0 {
                let di = orig.hit_index(key@);
                assert(mid.spec_slots()[di] is Vacant);
                assert(!lru0.subrange(0, k).contains(di as usize)) by {
                    if lru0.subrange(0, k).contains(di as usize) {
                        let q = lru0.subrange(0, k).index_of(di as usize);
                        assert(lru0[q] == di as usize);
                        assert(mid.spec_lru().contains(di as usize)) by {
                            assert(mid.spec_lru() == lru0);
                        };
                        let q2 = mid.spec_lru().index_of(di as usize);
                        assert(mid.spec_lru()[q2] == di as usize);
                        assert(mid.slot_occupied(di));
                    }
                };
                assert(self.spec_slots()[di] == start.spec_slots()[di]);
                assert(start.spec_slots()[di] == mid.spec_slots()[di]);
            }
            // every other pre-existing slot is exactly as it was
            assert forall|j: int|
                0 <= j < orig.spec_slots().len() && !lru0.subrange(0, k).contains(j as usize)
                    && !(orig.contains_key(key@) && j == orig.hit_index(key@))
                implies #[trigger] self.spec_slots()[j] == orig.spec_slots()[j] by {
                assert(self.spec_slots()[j] == start.spec_slots()[j]);
                assert(start.spec_slots()[j] == mid.spec_slots()[j]);
                assert(mid.spec_slots()[j] == orig.spec_slots()[j]);
            };
        }
        (CacheHandle { shard: 0, slot: slot_idx }, destroyed)
    }

    /// Evict every entry on the LRU list - every resident entry with
    /// no outstanding reference - and hand them back, oldest first.
    pub fn prune(&mut self) -> (destroyed: Vec<(Slice, T)>)
        requires
            old(self).wf(),
        ensures
            final(self).wf(),
            spec_prune_post(*old(self), *final(self), destroyed@),
    {
        let ghost orig = *self;
        let mut destroyed: Vec<(Slice, T)> = Vec::new();
        let ghost k: int = 0;
        while self.lru.len() > 0
            invariant
                self.wf(),
                orig.wf(),
                0 <= k <= orig.spec_lru().len(),
                self.spec_capacity() == orig.spec_capacity(),
                self.spec_lru() == orig.spec_lru().skip(k),
                self.spec_in_use() == orig.spec_in_use(),
                destroyed@.len() == k,
                forall|j: int|
                    0 <= j < k ==> (#[trigger] destroyed@[j]).0@ == orig.entry(
                        orig.spec_lru()[j] as int,
                    ).spec_key() && destroyed@[j].1 == orig.entry(
                        orig.spec_lru()[j] as int,
                    ).spec_value(),
                self.spec_slots().len() == orig.spec_slots().len(),
                forall|j: int|
                    0 <= j < orig.spec_slots().len() && !orig.spec_lru().subrange(0, k).contains(
                        j as usize,
                    ) ==> #[trigger] self.spec_slots()[j] == orig.spec_slots()[j],
                forall|j: int|
                    0 <= j < k ==> self.spec_slots()[(#[trigger] orig.spec_lru()[j]) as int]
                        is Vacant,
            decreases self.spec_lru().len(),
        {
            let ghost prev = *self;
            let i = self.lru[0];
            self.lru.remove(0);
            proof {
                assert(prev.spec_lru()[0] == i);
                assert(self.spec_lru() =~= prev.spec_lru().remove(0));
            }
            let e = take_entry(&mut self.slots, i);
            proof {
                lemma_charge_bounds(prev.spec_slots(), i as int);
            }
            self.usage = self.usage - e.charge;
            proof {
                lemma_charge_update(prev.spec_slots(), i as int, Slot::Vacant);
                self.lemma_wf_erase_free(prev, i, 0);
            }
            let CacheEntry { key: ek, value: ev, .. } = e;
            destroyed.push((ek, ev));
            proof {
                assert(orig.spec_lru()[k] == i);
                assert(self.spec_lru() =~= orig.spec_lru().skip(k + 1));
                assert forall|j: int|
                    0 <= j < orig.spec_slots().len() && !orig.spec_lru().subrange(0, k + 1)
                        .contains(j as usize) implies #[trigger] self.spec_slots()[j]
                    == orig.spec_slots()[j] by {
                    assert(!orig.spec_lru().subrange(0, k).contains(j as usize)) by {
                        if orig.spec_lru().subrange(0, k).contains(j as usize) {
                            let q = orig.spec_lru().subrange(0, k).index_of(j as usize);
                            assert(orig.spec_lru().subrange(0, k + 1)[q] == j as usize);
                        }
                    };
                    assert(j != i) by {
                        assert(orig.spec_lru().subrange(0, k + 1)[k] == i as usize);
                    };
                };
                assert forall|j: int| 0 <= j < k + 1 implies self.spec_slots()[(
                #[trigger] orig.spec_lru()[j]) as int] is Vacant by {
                    if j < k {
                        assert(prev.spec_slots()[orig.spec_lru()[j] as int] is Vacant);
                        if orig.spec_lru()[j] as int == i as int {
                            assert(prev.spec_slots()[i as int] is Occupied);
                        }
                    }
                };
                k = k + 1;
            }
        }
        proof {
            assert(orig.spec_lru().skip(k) =~= self.spec_lru());
            assert(k == orig.spec_lru().len());
            assert(orig.spec_lru().subrange(0, k) =~= orig.spec_lru());
        }
        destroyed
    }

    /// After slot `i` leaves the table, no slot holds a live mapping
    /// for its key.
    proof fn lemma_gone(&self, prev: LruCache<T>, i: int, k: Seq<u8>)
        requires
            prev.wf(),
            prev.is_hit(i, k),
            self.spec_slots().len() == prev.spec_slots().len(),
            forall|j: int|
                0 <= j < prev.spec_slots().len() && j != i ==> self.spec_slots()[j]
                    == #[trigger] prev.spec_slots()[j],
            self.slot_occupied(i) ==> !self.entry(i).spec_in_table(),
        ensures
            !self.contains_key(k),
    {
        if self.contains_key(k) {
            let j = choose|j: int| self.is_hit(j, k);
            assert(self.is_hit(j, k));
            assert(j != i);
            assert(prev.is_hit(j, k));
            prev.lemma_hit_unique(j, i, k);
        }
    }

    /// Well-formedness after an unreferenced entry is erased: its slot
    /// is vacated and it leaves the LRU list.
    proof fn lemma_wf_erase_free(&self, prev: LruCache<T>, i: usize, p: int)
        requires
            prev.wf(),
            prev.slot_occupied(i as int),
            prev.entry(i as int).spec_in_table(),
            prev.entry(i as int).spec_refs() == 0,
            self.spec_slots() == prev.spec_slots().update(i as int, Slot::Vacant),
            0 <= p < prev.spec_lru().len(),
            prev.spec_lru()[p] == i,
            self.spec_lru() == prev.spec_lru().remove(p),
            self.spec_in_use() == prev.spec_in_use(),
            self.spec_usage() == spec_table_charge(self.spec_slots()),
        ensures
            self.wf(),
    {
        let li0 = prev.spec_lru();
        let li1 = self.spec_lru();
        li0.remove_ensures(p);
        assert(forall|j: int|
            0 <= j < prev.spec_slots().len() && j != i ==> self.spec_slots()[j]
                == #[trigger] prev.spec_slots()[j]);
        assert forall|q: int| 0 <= q < li1.len() implies {
            &&& self.slot_occupied(#[trigger] li1[q] as int)
            &&& self.entry(li1[q] as int).spec_in_table()
            &&& self.entry(li1[q] as int).spec_refs() == 0
        } by {
            let m = if q < p {
                q
            } else {
                q + 1
            };
            assert(li1[q] == li0[m]);
            assert(m != p);
            assert(li0[m] != i);
        };
        assert forall|q: int| 0 <= q < self.spec_in_use().len() implies {
            &&& self.slot_occupied(#[trigger] self.spec_in_use()[q] as int)
            &&& self.entry(self.spec_in_use()[q] as int).spec_in_table()
            &&& self.entry(self.spec_in_use()[q] as int).spec_refs() >= 1
        } by {
            assert(self.spec_in_use()[q] == prev.spec_in_use()[q]);
            assert(prev.entry(prev.spec_in_use()[q] as int).spec_refs() >= 1);
            assert(prev.spec_in_use()[q] != i);
        };
        assert forall|q1: int, q2: int| 0 <= q1 < q2 < li1.len() implies #[trigger] li1[q1]
            != #[trigger] li1[q2] by {
            let m1 = if q1 < p {
                q1
            } else {
                q1 + 1
            };
            let m2 = if q2 < p {
                q2
            } else {
                q2 + 1
            };
            assert(li1[q1] == li0[m1] && li1[q2] == li0[m2]);
        };
        assert forall|j: int| self.slot_occupied(j) implies {
            &&& ((#[trigger] self.entry(j)).spec_in_table() && self.entry(j).spec_refs() == 0
                ==> self.spec_lru().contains(j as usize))
            &&& (self.entry(j).spec_in_table() && self.entry(j).spec_refs() >= 1
                ==> self.spec_in_use().contains(j as usize))
            &&& (!self.entry(j).spec_in_table() ==> self.entry(j).spec_refs() >= 1)
        } by {
            assert(j != i);
            assert(self.entry(j) == prev.entry(j));
            if prev.entry(j).spec_in_table() && prev.entry(j).spec_refs() == 0 {
                let q0 = li0.index_of(j as usize);
                assert(li0[q0] == j as usize);
                assert(q0 != p);
                if q0 < p {
                    assert(li1[q0] == li0[q0]);
                    assert(li1.contains(j as usize));
                } else {
                    assert(li1[q0 - 1] == li0[q0]);
                    assert(li1.contains(j as usize));
                }
            }
        };
        assert forall|a: int, b: int|
            self.slot_occupied(a) && self.slot_occupied(b) && self.entry(a).spec_in_table()
                && self.entry(b).spec_in_table() && (#[trigger] self.entry(a).spec_key())
                == (#[trigger] self.entry(b).spec_key()) implies a == b by {
            assert(a != i && b != i);
            assert(prev.entry(a).spec_key() == self.entry(a).spec_key());
            assert(prev.entry(b).spec_key() == self.entry(b).spec_key());
            assert(prev.entry(a).spec_in_table() && prev.entry(b).spec_in_table());
        };
    }

    /// Well-formedness after a still referenced entry is erased: it
    /// keeps its slot, leaves the table flag, and leaves the in-use
    /// list.
    proof fn lemma_wf_erase_held(&self, prev: LruCache<T>, i: usize, p: int)
        requires
            prev.wf(),
            prev.slot_occupied(i as int),
            prev.entry(i as int).spec_in_table(),
            prev.entry(i as int).spec_refs() >= 1,
            self.slots_same_except(prev, i as int),
            self.entry_updated(prev, i as int, prev.entry(i as int).spec_refs(), false),
            0 <= p < prev.spec_in_use().len(),
            prev.spec_in_use()[p] == i,
            self.spec_in_use() == prev.spec_in_use().remove(p),
            self.spec_lru() == prev.spec_lru(),
            self.spec_usage() == spec_table_charge(self.spec_slots()),
        ensures
            self.wf(),
    {
        let iu0 = prev.spec_in_use();
        let iu1 = self.spec_in_use();
        iu0.remove_ensures(p);
        assert(forall|j: int| prev.slot_occupied(j) <==> self.slot_occupied(j));
        assert(forall|j: int|
            prev.slot_occupied(j) && j != i ==> self.entry(j) == prev.entry(j));
        assert forall|q: int| 0 <= q < self.spec_lru().len() implies {
            &&& self.slot_occupied(#[trigger] self.spec_lru()[q] as int)
            &&& self.entry(self.spec_lru()[q] as int).spec_in_table()
            &&& self.entry(self.spec_lru()[q] as int).spec_refs() == 0
        } by {
            assert(self.spec_lru()[q] == prev.spec_lru()[q]);
            assert(prev.entry(prev.spec_lru()[q] as int).spec_refs() == 0);
            assert(prev.spec_lru()[q] != i);
        };
        assert forall|q: int| 0 <= q < iu1.len() implies {
            &&& self.slot_occupied(#[trigger] iu1[q] as int)
            &&& self.entry(iu1[q] as int).spec_in_table()
            &&& self.entry(iu1[q] as int).spec_refs() >= 1
        } by {
            let m = if q < p {
                q
            } else {
                q + 1
            };
            assert(iu1[q] == iu0[m]);
            assert(m != p);
            assert(iu0[m] != i);
        };
        assert forall|q1: int, q2: int| 0 <= q1 < q2 < iu1.len() implies #[trigger] iu1[q1]
            != #[trigger] iu1[q2] by {
            let m1 = if q1 < p {
                q1
            } else {
                q1 + 1
            };
            let m2 = if q2 < p {
                q2
            } else {
                q2 + 1
            };
            assert(iu1[q1] == iu0[m1] && iu1[q2] == iu0[m2]);
        };
        assert forall|j: int| self.slot_occupied(j) implies {
            &&& ((#[trigger] self.entry(j)).spec_in_table() && self.entry(j).spec_refs() == 0
                ==> self.spec_lru().contains(j as usize))
            &&& (self.entry(j).spec_in_table() && self.entry(j).spec_refs() >= 1
                ==> self.spec_in_use().contains(j as usize))
            &&& (!self.entry(j).spec_in_table() ==> self.entry(j).spec_refs() >= 1)
        } by {
            if j != i {
                assert(self.entry(j) == prev.entry(j));
                if prev.entry(j).spec_in_table() && prev.entry(j).spec_refs() >= 1 {
                    let q0 = iu0.index_of(j as usize);
                    assert(iu0[q0] == j as usize);
                    assert(q0 != p);
                    if q0 < p {
                        assert(iu1[q0] == iu0[q0]);
                        assert(iu1.contains(j as usize));
                    } else {
                        assert(iu1[q0 - 1] == iu0[q0]);
                        assert(iu1.contains(j as usize));
                    }
                }
            }
        };
        assert forall|a: int, b: int|
            self.slot_occupied(a) && self.slot_occupied(b) && self.entry(a).spec_in_table()
                && self.entry(b).spec_in_table() && (#[trigger] self.entry(a).spec_key())
                == (#[trigger] self.entry(b).spec_key()) implies a == b by {
            assert(a != i && b != i);
            assert(prev.entry(a).spec_key() == self.entry(a).spec_key());
            assert(prev.entry(b).spec_key() == self.entry(b).spec_key());
            assert(prev.entry(a).spec_in_table() && prev.entry(b).spec_in_table());
        };
    }

    /// Well-formedness after an in-table entry loses its last outside
    /// reference: it moves from the in-use list to the newest end of
    /// the LRU list.
    proof fn lemma_wf_demote(&self, prev: LruCache<T>, i: usize, p: int)
        requires
            prev.wf(),
            prev.slot_occupied(i as int),
            prev.entry(i as int).spec_in_table(),
            prev.entry(i as int).spec_refs() == 1,
            self.slots_same_except(prev, i as int),
            self.entry_updated(prev, i as int, 0, true),
            0 <= p < prev.spec_in_use().len(),
            prev.spec_in_use()[p] == i,
            self.spec_in_use() == prev.spec_in_use().remove(p),
            self.spec_lru() == prev.spec_lru().push(i),
            self.spec_usage() == spec_table_charge(self.spec_slots()),
        ensures
            self.wf(),
    {
        let li0 = prev.spec_lru();
        let li1 = self.spec_lru();
        let iu0 = prev.spec_in_use();
        let iu1 = self.spec_in_use();
        iu0.remove_ensures(p);
        assert(forall|j: int| prev.slot_occupied(j) <==> self.slot_occupied(j));
        assert(forall|j: int|
            prev.slot_occupied(j) && j != i ==> self.entry(j) == prev.entry(j));
        // i was not on the LRU list before: its members are unreferenced
        assert forall|q: int| 0 <= q < li0.len() implies #[trigger] li0[q] != i by {
            assert(prev.entry(li0[q] as int).spec_refs() == 0);
        };
        assert forall|q: int| 0 <= q < li1.len() implies {
            &&& self.slot_occupied(#[trigger] li1[q] as int)
            &&& self.entry(li1[q] as int).spec_in_table()
            &&& self.entry(li1[q] as int).spec_refs() == 0
        } by {
            if q < li0.len() {
                assert(li1[q] == li0[q]);
                assert(li0[q] != i);
            } else {
                assert(li1[q] == i);
            }
        };
        assert forall|q: int| 0 <= q < iu1.len() implies {
            &&& self.slot_occupied(#[trigger] iu1[q] as int)
            &&& self.entry(iu1[q] as int).spec_in_table()
            &&& self.entry(iu1[q] as int).spec_refs() >= 1
        } by {
            let m = if q < p {
                q
            } else {
                q + 1
            };
            assert(iu1[q] == iu0[m]);
            assert(iu0[m] != i);
        };
        assert forall|q1: int, q2: int| 0 <= q1 < q2 < li1.len() implies #[trigger] li1[q1]
            != #[trigger] li1[q2] by {
            if q2 == li0.len() {
                assert(li1[q2] == i);
                assert(li1[q1] == li0[q1]);
                assert(li0[q1] != i);
            }
        };
        assert forall|q1: int, q2: int| 0 <= q1 < q2 < iu1.len() implies #[trigger] iu1[q1]
            != #[trigger] iu1[q2] by {
            let m1 = if q1 < p {
                q1
            } else {
                q1 + 1
            };
            let m2 = if q2 < p {
                q2
            } else {
                q2 + 1
            };
            assert(iu1[q1] == iu0[m1] && iu1[q2] == iu0[m2]);
        };
        assert forall|j: int| self.slot_occupied(j) implies {
            &&& ((#[trigger] self.entry(j)).spec_in_table() && self.entry(j).spec_refs() == 0
                ==> self.spec_lru().contains(j as usize))
            &&& (self.entry(j).spec_in_table() && self.entry(j).spec_refs() >= 1
                ==> self.spec_in_use().contains(j as usize))
            &&& (!self.entry(j).spec_in_table() ==> self.entry(j).spec_refs() >= 1)
        } by {
            if j == i {
                assert(li1[li0.len() as int] == i);
                assert(li1.contains(i));
            } else {
                assert(self.entry(j) == prev.entry(j));
                if prev.entry(j).spec_in_table() && prev.entry(j).spec_refs() == 0 {
                    let q0 = li0.index_of(j as usize);
                    assert(li1[q0] == li0[q0]);
                    assert(li1.contains(j as usize));
                }
                if prev.entry(j).spec_in_table() && prev.entry(j).spec_refs() >= 1 {
                    let q0 = iu0.index_of(j as usize);
                    assert(iu0[q0] == j as usize);
                    assert(q0 != p);
                    if q0 < p {
                        assert(iu1[q0] == iu0[q0]);
                        assert(iu1.contains(j as usize));
                    } else {
                        assert(iu1[q0 - 1] == iu0[q0]);
                        assert(iu1.contains(j as usize));
                    }
                }
            }
        };
        assert forall|a: int, b: int|
            self.slot_occupied(a) && self.slot_occupied(b) && self.entry(a).spec_in_table()
                && self.entry(b).spec_in_table() && (#[trigger] self.entry(a).spec_key())
                == (#[trigger] self.entry(b).spec_key()) implies a == b by {
            assert(prev.entry(a).spec_key() == self.entry(a).spec_key());
            assert(prev.entry(b).spec_key() == self.entry(b).spec_key());
            assert(prev.entry(a).spec_in_table() && prev.entry(b).spec_in_table());
        };
    }

    /// Well-formedness after the slot of an erased entry is vacated:
    /// the entry was on neither list, so the lists stand.
    proof fn lemma_wf_vacate(&self, prev: LruCache<T>, i: usize)
        requires
            prev.wf(),
            prev.slot_occupied(i as int),
            !prev.entry(i as int).spec_in_table(),
            self.spec_slots() == prev.spec_slots().update(i as int, Slot::Vacant),
            self.spec_lru() == prev.spec_lru(),
            self.spec_in_use() == prev.spec_in_use(),
            self.spec_usage() == spec_table_charge(self.spec_slots()),
        ensures
            self.wf(),
    {
        assert(forall|j: int|
            0 <= j < prev.spec_slots().len() && j != i ==> self.spec_slots()[j]
                == #[trigger] prev.spec_slots()[j]);
        assert forall|q: int| 0 <= q < self.spec_lru().len() implies {
            &&& self.slot_occupied(#[trigger] self.spec_lru()[q] as int)
            &&& self.entry(self.spec_lru()[q] as int).spec_in_table()
            &&& self.entry(self.spec_lru()[q] as int).spec_refs() == 0
        } by {
            assert(self.spec_lru()[q] == prev.spec_lru()[q]);
            assert(prev.entry(prev.spec_lru()[q] as int).spec_in_table());
            assert(prev.spec_lru()[q] != i);
        };
        assert forall|q: int| 0 <= q < self.spec_in_use().len() implies {
            &&& self.slot_occupied(#[trigger] self.spec_in_use()[q] as int)
            &&& self.entry(self.spec_in_use()[q] as int).spec_in_table()
            &&& self.entry(self.spec_in_use()[q] as int).spec_refs() >= 1
        } by {
            assert(self.spec_in_use()[q] == prev.spec_in_use()[q]);
            assert(prev.entry(prev.spec_in_use()[q] as int).spec_in_table());
            assert(prev.spec_in_use()[q] != i);
        };
        assert forall|j: int| self.slot_occupied(j) implies {
            &&& ((#[trigger] self.entry(j)).spec_in_table() && self.entry(j).spec_refs() == 0
                ==> self.spec_lru().contains(j as usize))
            &&& (self.entry(j).spec_in_table() && self.entry(j).spec_refs() >= 1
                ==> self.spec_in_use().contains(j as usize))
            &&& (!self.entry(j).spec_in_table() ==> self.entry(j).spec_refs() >= 1)
        } by {
            assert(j != i);
            assert(self.entry(j) == prev.entry(j));
        };
        assert forall|a: int, b: int|
            self.slot_occupied(a) && self.slot_occupied(b) && self.entry(a).spec_in_table()
                && self.entry(b).spec_in_table() && (#[trigger] self.entry(a).spec_key())
                == (#[trigger] self.entry(b).spec_key()) implies a == b by {
            assert(a != i && b != i);
            assert(prev.entry(a).spec_key() == self.entry(a).spec_key());
            assert(prev.entry(b).spec_key() == self.entry(b).spec_key());
            assert(prev.entry(a).spec_in_table() && prev.entry(b).spec_in_table());
        };
    }

    /// Well-formedness after a capacity-zero insert: the new entry is
    /// appended outside the table and outside both lists.
    proof fn lemma_wf_bypass(&self, prev: LruCache<T>)
        requires
            prev.wf(),
            self.spec_slots().len() == prev.spec_slots().len() + 1,
            self.spec_slots().len() <= usize::MAX,
            forall|j: int|
                0 <= j < prev.spec_slots().len() ==> self.spec_slots()[j]
                    == #[trigger] prev.spec_slots()[j],
            self.slot_occupied(prev.spec_slots().len() as int),
            !self.entry(prev.spec_slots().len() as int).spec_in_table(),
            self.entry(prev.spec_slots().len() as int).spec_refs() >= 1,
            self.spec_lru() == prev.spec_lru(),
            self.spec_in_use() == prev.spec_in_use(),
            self.spec_usage() == spec_table_charge(self.spec_slots()),
        ensures
            self.wf(),
    {
        let ns = prev.spec_slots().len() as int;
        assert(forall|j: int|
            0 <= j < ns ==> (prev.slot_occupied(j) <==> self.slot_occupied(j)));
        assert(forall|j: int|
            prev.slot_occupied(j) ==> self.entry(j) == prev.entry(j));
        assert forall|q: int| 0 <= q < self.spec_lru().len() implies {
            &&& self.slot_occupied(#[trigger] self.spec_lru()[q] as int)
            &&& self.entry(self.spec_lru()[q] as int).spec_in_table()
            &&& self.entry(self.spec_lru()[q] as int).spec_refs() == 0
        } by {
            assert(self.spec_lru()[q] == prev.spec_lru()[q]);
            assert(prev.slot_occupied(prev.spec_lru()[q] as int));
        };
        assert forall|q: int| 0 <= q < self.spec_in_use().len() implies {
            &&& self.slot_occupied(#[trigger] self.spec_in_use()[q] as int)
            &&& self.entry(self.spec_in_use()[q] as int).spec_in_table()
            &&& self.entry(self.spec_in_use()[q] as int).spec_refs() >= 1
        } by {
            assert(self.spec_in_use()[q] == prev.spec_in_use()[q]);
            assert(prev.slot_occupied(prev.spec_in_use()[q] as int));
        };
        assert forall|j: int| self.slot_occupied(j) implies {
            &&& ((#[trigger] self.entry(j)).spec_in_table() && self.entry(j).spec_refs() == 0
                ==> self.spec_lru().contains(j as usize))
            &&& (self.entry(j).spec_in_table() && self.entry(j).spec_refs() >= 1
                ==> self.spec_in_use().contains(j as usize))
            &&& (!self.entry(j).spec_in_table() ==> self.entry(j).spec_refs() >= 1)
        } by {
            if j < ns {
                assert(self.entry(j) == prev.entry(j));
            }
        };
        assert forall|a: int, b: int|
            self.slot_occupied(a) && self.slot_occupied(b) && self.entry(a).spec_in_table()
                && self.entry(b).spec_in_table() && (#[trigger] self.entry(a).spec_key())
                == (#[trigger] self.entry(b).spec_key()) implies a == b by {
            assert(a != ns && b != ns);
            assert(prev.entry(a).spec_key() == self.entry(a).spec_key());
            assert(prev.entry(b).spec_key() == self.entry(b).spec_key());
            assert(prev.entry(a).spec_in_table() && prev.entry(b).spec_in_table());
        };
    }

    /// Well-formedness after a fresh entry enters the table under a
    /// key with no live mapping: it is appended to the slot store and
    /// to the in-use list with one reference.
    proof fn lemma_wf_insert_new(&self, prev: LruCache<T>, i: usize)
        requires
            prev.wf(),
            i == prev.spec_slots().len(),
            !prev.contains_key(self.entry(i as int).spec_key()),
            self.spec_slots().len() == prev.spec_slots().len() + 1,
            self.spec_slots().len() <= usize::MAX,
            forall|j: int|
                0 <= j < prev.spec_slots().len() ==> self.spec_slots()[j]
                    == #[trigger] prev.spec_slots()[j],
            self.slot_occupied(i as int),
            self.entry(i as int).spec_in_table(),
            self.entry(i as int).spec_refs() == 1,
            self.spec_lru() == prev.spec_lru(),
            self.spec_in_use() == prev.spec_in_use().push(i),
            self.spec_usage() == spec_table_charge(self.spec_slots()),
        ensures
            self.wf(),
    {
        let ns = i as int;
        let iu0 = prev.spec_in_use();
        let iu1 = self.spec_in_use();
        assert(forall|j: int|
            0 <= j < ns ==> (prev.slot_occupied(j) <==> self.slot_occupied(j)));
        assert(forall|j: int|
            prev.slot_occupied(j) ==> self.entry(j) == prev.entry(j));
        assert forall|q: int| 0 <= q < self.spec_lru().len() implies {
            &&& self.slot_occupied(#[trigger] self.spec_lru()[q] as int)
            &&& self.entry(self.spec_lru()[q] as int).spec_in_table()
            &&& self.entry(self.spec_lru()[q] as int).spec_refs() == 0
        } by {
            assert(self.spec_lru()[q] == prev.spec_lru()[q]);
            assert(prev.slot_occupied(prev.spec_lru()[q] as int));
        };
        assert forall|q: int| 0 <= q < iu1.len() implies {
            &&& self.slot_occupied(#[trigger] iu1[q] as int)
            &&& self.entry(iu1[q] as int).spec_in_table()
            &&& self.entry(iu1[q] as int).spec_refs() >= 1
        } by {
            if q < iu0.len() {
                assert(iu1[q] == iu0[q]);
                assert(prev.slot_occupied(iu0[q] as int));
            } else {
                assert(iu1[q] == i);
            }
        };
        assert forall|q1: int, q2: int| 0 <= q1 < q2 < iu1.len() implies #[trigger] iu1[q1]
            != #[trigger] iu1[q2] by {
            if q2 == iu0.len() {
                assert(iu1[q2] == i);
                assert(iu1[q1] == iu0[q1]);
                assert(prev.slot_occupied(iu0[q1] as int));
            }
        };
        assert forall|j: int| self.slot_occupied(j) implies {
            &&& ((#[trigger] self.entry(j)).spec_in_table() && self.entry(j).spec_refs() == 0
                ==> self.spec_lru().contains(j as usize))
            &&& (self.entry(j).spec_in_table() && self.entry(j).spec_refs() >= 1
                ==> self.spec_in_use().contains(j as usize))
            &&& (!self.entry(j).spec_in_table() ==> self.entry(j).spec_refs() >= 1)
        } by {
            if j < ns {
                assert(self.entry(j) == prev.entry(j));
                if prev.entry(j).spec_in_table() && prev.entry(j).spec_refs() >= 1 {
                    let q0 = iu0.index_of(j as usize);
                    assert(iu1[q0] == iu0[q0]);
                    assert(iu1.contains(j as usize));
                }
            } else {
                assert(iu1[iu0.len() as int] == i);
                assert(iu1.contains(i));
            }
        };
        assert forall|a: int, b: int|
            self.slot_occupied(a) && self.slot_occupied(b) && self.entry(a).spec_in_table()
                && self.entry(b).spec_in_table() && (#[trigger] self.entry(a).spec_key())
                == (#[trigger] self.entry(b).spec_key()) implies a == b by {
            if a != b {
                if a == ns {
                    assert(prev.is_hit(b, self.entry(ns).spec_key()));
                } else if b == ns {
                    assert(prev.is_hit(a, self.entry(ns).spec_key()));
                } else {
                    assert(prev.entry(a).spec_key() == self.entry(a).spec_key());
                    assert(prev.entry(b).spec_key() == self.entry(b).spec_key());
                    assert(prev.entry(a).spec_in_table() && prev.entry(b).spec_in_table());
                }
            }
        };
    }

    /// Well-formedness when only an entry's reference count changes
    /// and at least one reference remains: the lists need not move.
    proof fn lemma_wf_refs_only(&self, prev: LruCache<T>, i: usize, r: int)
        requires
            prev.wf(),
            prev.slot_occupied(i as int),
            prev.entry(i as int).spec_refs() >= 1,
            r >= 1,
            self.slots_same_except(prev, i as int),
            self.entry_updated(prev, i as int, r, prev.entry(i as int).spec_in_table()),
            self.spec_lru() == prev.spec_lru(),
            self.spec_in_use() == prev.spec_in_use(),
            self.spec_usage() == spec_table_charge(self.spec_slots()),
        ensures
            self.wf(),
    {
        assert(forall|j: int|
            prev.slot_occupied(j) <==> self.slot_occupied(j));
        assert(forall|j: int|
            prev.slot_occupied(j) && j != i ==> self.entry(j) == prev.entry(j));
        assert forall|q: int| 0 <= q < self.spec_lru().len() implies {
            &&& self.slot_occupied(#[trigger] self.spec_lru()[q] as int)
            &&& self.entry(self.spec_lru()[q] as int).spec_in_table()
            &&& self.entry(self.spec_lru()[q] as int).spec_refs() == 0
        } by {
            assert(self.spec_lru()[q] == prev.spec_lru()[q]);
            assert(prev.spec_lru()[q] != i);
        };
        assert forall|q: int| 0 <= q < self.spec_in_use().len() implies {
            &&& self.slot_occupied(#[trigger] self.spec_in_use()[q] as int)
            &&& self.entry(self.spec_in_use()[q] as int).spec_in_table()
            &&& self.entry(self.spec_in_use()[q] as int).spec_refs() >= 1
        } by {
            assert(self.spec_in_use()[q] == prev.spec_in_use()[q]);
        };
        assert forall|j: int| self.slot_occupied(j) implies {
            &&& ((#[trigger] self.entry(j)).spec_in_table() && self.entry(j).spec_refs() == 0
                ==> self.spec_lru().contains(j as usize))
            &&& (self.entry(j).spec_in_table() && self.entry(j).spec_refs() >= 1
                ==> self.spec_in_use().contains(j as usize))
            &&& (!self.entry(j).spec_in_table() ==> self.entry(j).spec_refs() >= 1)
        } by {
            if j != i {
                assert(self.entry(j) == prev.entry(j));
            }
        };
        assert forall|a: int, b: int|
            self.slot_occupied(a) && self.slot_occupied(b) && self.entry(a).spec_in_table()
                && self.entry(b).spec_in_table() && (#[trigger] self.entry(a).spec_key())
                == (#[trigger] self.entry(b).spec_key()) implies a == b by {
            assert(prev.entry(a).spec_key() == self.entry(a).spec_key());
            assert(prev.entry(b).spec_key() == self.entry(b).spec_key());
            assert(prev.entry(a).spec_in_table() && prev.entry(b).spec_in_table());
        };
    }
}

/// Updating a slot shifts the resident-charge total by the difference
/// of the old and new slot charges.
proof fn lemma_charge_update<T>(s: Seq<Slot<T>>, i: int, v: Slot<T>)
    requires
        0 <= i < s.len(),
    ensures
        spec_table_charge(s.update(i, v)) == spec_table_charge(s) - slot_charge(s[i])
            + slot_charge(v),
    decreases s.len(),
{
    let t = s.update(i, v);
    if i == s.len() - 1 {
        assert(t.drop_last() =~= s.drop_last());
        assert(t.last() == v);
    } else {
        assert(t.drop_last() =~= s.drop_last().update(i, v));
        assert(t.last() == s.last());
        lemma_charge_update(s.drop_last(), i, v);
    }
}

/// Appending a slot adds its charge to the resident-charge total.
proof fn lemma_charge_push<T>(s: Seq<Slot<T>>, v: Slot<T>)
    ensures
        spec_table_charge(s.push(v)) == spec_table_charge(s) + slot_charge(v),
{
    assert(s.push(v).drop_last() =~= s);
    assert(s.push(v).last() == v);
}

/// The resident-charge total is at least any one slot's charge, and
/// never negative.
proof fn lemma_charge_bounds<T>(s: Seq<Slot<T>>, i: int)
    requires
        0 <= i < s.len(),
    ensures
        spec_table_charge(s) >= slot_charge(s[i]),
        slot_charge(s[i]) >= 0,
    decreases s.len(),
{
    lemma_charge_nonneg(s.drop_last());
    if i == s.len() - 1 {
        assert(s.last() == s[i]);
    } else {
        lemma_charge_bounds(s.drop_last(), i);
        assert(slot_charge(s.last()) >= 0);
    }
}

/// The resident-charge total is never negative.
proof fn lemma_charge_nonneg<T>(s: Seq<Slot<T>>)
    ensures
        spec_table_charge(s) >= 0,
    decreases s.len(),
{
    if s.len() > 0 {
        lemma_charge_nonneg(s.drop_last());
        assert(slot_charge(s.last()) >= 0);
    }
}

/// Remove the occurrence of `x` from a duplicate-free list.
fn remove_list_value(list: &mut Vec<usize>, x: usize) -> (p: Ghost<int>)
    requires
        old(list)@.contains(x),
        forall|p: int, q: int|
            0 <= p < q < old(list)@.len() ==> #[trigger] old(list)@[p] != #[trigger] old(
                list,
            )@[q],
    ensures
        0 <= p@ < old(list)@.len(),
        old(list)@[p@] == x,
        final(list)@ == old(list)@.remove(p@),
{
    let n = list.len();
    let mut i: usize = 0;
    while i < n
        invariant
            n == list@.len(),
            i <= n,
            list@ == old(list)@,
            old(list)@.contains(x),
            forall|j: int| 0 <= j < i ==> list@[j] != x,
        decreases n - i,
    {
        if list[i] == x {
            list.remove(i);
            return Ghost(i as int);
        }
        i += 1;
    }
    proof {
        let w = choose|w: int| 0 <= w < old(list)@.len() && old(list)@[w] == x;
        assert(old(list)@[w] == x);
        assert(false);
    }
    Ghost(0)
}

/// Move the entry out of slot `i`, leaving the slot vacant.
fn take_entry<T>(slots: &mut Vec<Slot<T>>, i: usize) -> (e: CacheEntry<T>)
    requires
        i < old(slots)@.len(),
        old(slots)@[i as int] is Occupied,
    ensures
        e == old(slots)@[i as int]->Occupied_0,
        final(slots)@ == old(slots)@.update(i as int, Slot::Vacant),
{
    let mut tmp: Slot<T> = Slot::Vacant;
    let r = &mut slots[i];
    core::mem::swap(&mut tmp, r);
    match tmp {
        Slot::Occupied(e) => e,
        Slot::Vacant => vstd::pervasive::unreached(),
    }
}

} // verus!
