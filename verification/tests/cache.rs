use kvcore::cache::Cache;
use kvcore::cache::LruCache;
use kvcore::sharded::ShardedCache;
use kvcore::slice::Slice;

fn key(s: &str) -> Slice {
    Slice::new(s.as_bytes().to_vec())
}

/// Insert an entry and release the handle at once, the way a client
/// that does not hold on to the mapping would.
fn insert_released(c: &mut LruCache<i32>, k: &str, v: i32, charge: usize) -> Vec<(Slice, i32)> {
    let (h, destroyed) = c.insert(key(k), v, charge);
    let gone = c.release(h);
    assert!(gone.is_none());
    destroyed
}

#[test]
fn insert_lookup_release() {
    let mut c: LruCache<i32> = LruCache::new(100);
    let destroyed = insert_released(&mut c, "a", 1, 10);
    assert!(destroyed.is_empty());
    assert_eq!(c.total_charge(), 10);

    let h = c.lookup(&key("a")).expect("entry must be resident");
    assert_eq!(*c.value(&h), 1);
    assert!(c.release(h).is_none());
    assert!(c.lookup(&key("b")).is_none());
}

#[test]
fn lru_eviction_order() {
    // capacity = 100, five entries of charge 20 in order A,B,C,D,E with
    // no lookups, then a sixth of charge 20: the oldest entry goes
    let mut c: LruCache<i32> = LruCache::new(100);
    for (i, name) in ["A", "B", "C", "D", "E"].iter().enumerate() {
        let destroyed = insert_released(&mut c, name, i as i32, 20);
        assert!(destroyed.is_empty());
    }
    assert_eq!(c.total_charge(), 100);

    let destroyed = insert_released(&mut c, "F", 5, 20);
    assert_eq!(destroyed.len(), 1);
    assert_eq!(destroyed[0].0.slice_data(), b"A");
    assert_eq!(destroyed[0].1, 0);
    assert_eq!(c.total_charge(), 100);

    assert!(c.lookup(&key("A")).is_none());
    for name in ["B", "C", "D", "E", "F"] {
        let h = c.lookup(&key(name)).expect("survivor must be resident");
        assert!(c.release(h).is_none());
    }
}

#[test]
fn eviction_takes_several_oldest() {
    let mut c: LruCache<i32> = LruCache::new(100);
    for (i, name) in ["a", "b", "c", "d", "e"].iter().enumerate() {
        insert_released(&mut c, name, i as i32, 20);
    }
    // a charge of 60 pushes usage to 160: the three oldest fall
    let destroyed = insert_released(&mut c, "big", 9, 60);
    assert_eq!(destroyed.len(), 3);
    assert_eq!(destroyed[0].0.slice_data(), b"a");
    assert_eq!(destroyed[1].0.slice_data(), b"b");
    assert_eq!(destroyed[2].0.slice_data(), b"c");
    assert_eq!(c.total_charge(), 100);
}

#[test]
fn lookup_promotes() {
    let mut c: LruCache<i32> = LruCache::new(40);
    insert_released(&mut c, "a", 1, 20);
    insert_released(&mut c, "b", 2, 20);
    // touch "a": it becomes the newest
    let h = c.lookup(&key("a")).unwrap();
    assert!(c.release(h).is_none());
    // over-capacity insert now evicts "b", the oldest unreferenced
    let destroyed = insert_released(&mut c, "c", 3, 20);
    assert_eq!(destroyed.len(), 1);
    assert_eq!(destroyed[0].0.slice_data(), b"b");
}

#[test]
fn referenced_entries_survive_pressure() {
    // an entry looked up and still held is not evicted by capacity
    // pressure that would otherwise take it
    let mut c: LruCache<i32> = LruCache::new(40);
    insert_released(&mut c, "a", 1, 20);
    insert_released(&mut c, "b", 2, 20);
    let held = c.lookup(&key("a")).unwrap();
    let destroyed = insert_released(&mut c, "c", 3, 30);
    // "b" is evictable, "a" is pinned by the handle
    assert_eq!(destroyed.len(), 1);
    assert_eq!(destroyed[0].0.slice_data(), b"b");
    assert_eq!(*c.value(&held), 1);
    let again = c.lookup(&key("a")).unwrap();
    assert!(c.release(again).is_none());
    assert!(c.release(held).is_none());
}

#[test]
fn deferred_destruction_on_erase() {
    // insert key "x" charge 10 capacity 50, hold its handle, erase it,
    // then release: the entry comes back only from the release
    let mut c: LruCache<i32> = LruCache::new(50);
    let (h, destroyed) = c.insert(key("x"), 7, 10);
    assert!(destroyed.is_empty());

    let at_erase = c.erase(&key("x"));
    assert!(at_erase.is_none(), "erase must not destroy a held entry");
    assert_eq!(c.total_charge(), 0);
    assert!(c.lookup(&key("x")).is_none());

    let at_release = c.release(h);
    let (k, v) = at_release.expect("last release must hand the entry back");
    assert_eq!(k.slice_data(), b"x");
    assert_eq!(v, 7);
}

#[test]
fn erase_unreferenced_destroys_now() {
    let mut c: LruCache<i32> = LruCache::new(50);
    insert_released(&mut c, "x", 7, 10);
    let gone = c.erase(&key("x")).expect("unreferenced entry dies at erase");
    assert_eq!(gone.0.slice_data(), b"x");
    assert_eq!(gone.1, 7);
    assert_eq!(c.total_charge(), 0);
    assert!(c.erase(&key("x")).is_none());
}

#[test]
fn duplicate_key_replaces() {
    let mut c: LruCache<i32> = LruCache::new(100);
    insert_released(&mut c, "k", 1, 10);
    let destroyed = insert_released(&mut c, "k", 2, 10);
    assert_eq!(destroyed.len(), 1);
    assert_eq!(destroyed[0].1, 1);
    let h = c.lookup(&key("k")).unwrap();
    assert_eq!(*c.value(&h), 2);
    assert!(c.release(h).is_none());
    assert_eq!(c.total_charge(), 10);
}

#[test]
fn duplicate_key_replacement_is_deferred_while_held() {
    let mut c: LruCache<i32> = LruCache::new(100);
    let (h, _) = c.insert(key("k"), 1, 10);
    let destroyed = insert_released(&mut c, "k", 2, 10);
    assert!(destroyed.is_empty(), "the held old entry must not die yet");
    assert_eq!(*c.value(&h), 1);
    let (k, v) = c.release(h).expect("old entry dies at its last release");
    assert_eq!(k.slice_data(), b"k");
    assert_eq!(v, 1);
}

#[test]
fn capacity_zero_disables_caching() {
    let mut c: LruCache<i32> = LruCache::new(0);
    let (h, destroyed) = c.insert(key("a"), 1, 10);
    assert!(destroyed.is_empty());
    assert_eq!(c.total_charge(), 0);
    assert!(c.lookup(&key("a")).is_none());
    assert_eq!(*c.value(&h), 1);
    let (k, v) = c.release(h).expect("uncached entry dies when released");
    assert_eq!(k.slice_data(), b"a");
    assert_eq!(v, 1);
}

#[test]
fn prune_removes_unreferenced() {
    let mut c: LruCache<i32> = LruCache::new(1000);
    insert_released(&mut c, "a", 1, 10);
    insert_released(&mut c, "b", 2, 10);
    let held = c.lookup(&key("a")).unwrap();
    let destroyed = c.prune();
    assert_eq!(destroyed.len(), 1);
    assert_eq!(destroyed[0].0.slice_data(), b"b");
    assert_eq!(c.total_charge(), 10);
    assert_eq!(*c.value(&held), 1);
    assert!(c.release(held).is_none());
}

#[test]
fn multiple_handles_count() {
    let mut c: LruCache<i32> = LruCache::new(100);
    let (h1, _) = c.insert(key("a"), 1, 10);
    let h2 = c.lookup(&key("a")).unwrap();
    assert!(c.erase(&key("a")).is_none());
    assert!(c.release(h1).is_none());
    let (_, v) = c.release(h2).expect("second release is the last");
    assert_eq!(v, 1);
}

#[test]
fn sharded_basics() {
    let mut c: ShardedCache<i32> = ShardedCache::new(1600);
    let (h, destroyed) = c.insert(key("alpha"), 42, 10);
    assert!(destroyed.is_empty());
    assert_eq!(*c.value(&h), 42);
    assert!(c.release(h).is_none());

    // the same key routes to the same shard, so it is found again
    let h2 = c.lookup(&key("alpha")).expect("stable routing finds the key");
    assert_eq!(*c.value(&h2), 42);
    assert!(c.release(h2).is_none());

    assert_eq!(c.total_charge(), 10);
    let gone = c.erase(&key("alpha")).expect("unreferenced entry dies at erase");
    assert_eq!(gone.1, 42);
    assert_eq!(c.total_charge(), 0);
}

#[test]
fn sharded_new_id_increases() {
    let mut c: ShardedCache<i32> = ShardedCache::new(100);
    let a = c.new_id();
    let b = c.new_id();
    let d = c.new_id();
    assert!(a < b && b < d);
}

#[test]
fn sharded_prune() {
    let mut c: ShardedCache<i32> = ShardedCache::new(1600);
    for (i, name) in ["one", "two", "three", "four"].iter().enumerate() {
        let (h, _) = c.insert(key(name), i as i32, 5);
        assert!(c.release(h).is_none());
    }
    let held = c.lookup(&key("one")).unwrap();
    let destroyed = c.prune();
    assert_eq!(destroyed.len(), 3);
    assert_eq!(c.total_charge(), 5);
    assert!(c.release(held).is_none());
}

#[test]
fn cache_trait_surface() {
    fn exercise<C: Cache<i32>>(c: &mut C) {
        let id1 = c.new_id();
        let id2 = c.new_id();
        assert!(id1 < id2);
        let (h, destroyed) = c.insert(Slice::new(b"t".to_vec()), 5, 10);
        assert!(destroyed.is_empty());
        assert!(c.release(h).is_none());
        let h = c.lookup(&Slice::new(b"t".to_vec())).unwrap();
        assert!(c.release(h).is_none());
        assert_eq!(c.total_charge(), 10);
        assert_eq!(c.prune().len(), 1);
        assert!(c.erase(&Slice::new(b"t".to_vec())).is_none());
    }

    let mut c: ShardedCache<i32> = ShardedCache::new(160);
    exercise(&mut c);
}

#[test]
fn try_release_rejects_dead_handles() {
    let mut c: ShardedCache<i32> = ShardedCache::new(1600);
    let (h, _) = c.insert(key("alpha"), 1, 10);
    let s = h.shard_index();
    // a handle addressed to a shard that does not exist is refused and
    // handed back; the cache is untouched
    let wrong = kvcore::cache::CacheHandle::with_shard(h, 99);
    let back = match c.try_release(wrong) {
        Err(back) => back,
        Ok(_) => panic!("a mis-addressed handle must be refused"),
    };
    assert_eq!(c.total_charge(), 10);
    // re-addressed to its own shard, the same handle releases fine
    let fixed = kvcore::cache::CacheHandle::with_shard(back, s);
    match c.try_release(fixed) {
        Ok(destroyed) => assert!(destroyed.is_none()),
        Err(_) => panic!("a live handle must release"),
    }
    assert_eq!(c.total_charge(), 10);
}
