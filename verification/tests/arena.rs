use kvcore::arena::{Arena, BLOCK_SIZE};
use kvcore::random::Random;

#[test]
fn empty() {
    let arena = Arena::new();
    assert_eq!(arena.bytes_remaining(), 0);
    assert_eq!(arena.memory_usage(), 0);
}

#[test]
fn aligned() {
    let mut arena = Arena::new();
    let ptr_size = std::mem::size_of::<usize>();
    assert!(ptr_size > 1);

    let _ = arena.allocate_fallback(1);
    let r = arena.allocate_aligned(512);
    assert_eq!(r.offset() % 8, 0);
    assert_eq!(arena.bytes_remaining(), BLOCK_SIZE - 512 - ptr_size);
}

#[test]
fn simple() {
    const N: u32 = 100000;
    let mut arena = Arena::new();
    let mut rnd = Random::new(301);
    let mut bytes: usize = 0;

    for i in 0..N {
        let mut s = if i % (N / 10) == 0 {
            i
        } else if rnd.one_in(4000) {
            rnd.uniform(6000)
        } else if rnd.one_in(10) {
            rnd.uniform(100)
        } else {
            rnd.uniform(20)
        };
        if s == 0 {
            // Our arena disallows size 0 allocations.
            s = 1;
        }
        let s = s as usize;

        let r = if rnd.one_in(10) {
            arena.allocate_aligned(s)
        } else {
            arena.allocate(s)
        };

        for b in 0..s {
            // Fill the "i"th allocation with a known bit pattern
            arena.write_byte(&r, b, (i % 256) as u8);
        }
        bytes += s;
        assert!(arena.memory_usage() >= bytes);
        if i > N / 10 {
            assert!(arena.memory_usage() <= (bytes as f32 * 1.10) as usize);
        }

        for b in 0..s {
            // Check the "i"th allocation for the known bit pattern
            assert_eq!(arena.read_byte(&r, b) & 0xff, (i % 256) as u8);
        }
    }
}

#[test]
fn dedicated_block_for_large_request() {
    let mut arena = Arena::new();
    let overhead = std::mem::size_of::<usize>();
    // a request over a quarter block gets a block of exactly its size
    let r = arena.allocate(2000);
    assert_eq!(r.offset(), 0);
    assert_eq!(r.length(), 2000);
    assert_eq!(arena.memory_usage(), 2000 + overhead);
    // the next small request opens a standard block
    let r2 = arena.allocate(10);
    assert_eq!(arena.memory_usage(), 2000 + overhead + BLOCK_SIZE + overhead);
    assert_ne!(r2.block_index(), r.block_index());
}

#[test]
fn regions_do_not_alias() {
    let mut arena = Arena::new();
    let a = arena.allocate(16);
    let b = arena.allocate(16);
    let c = arena.allocate_aligned(16);
    for i in 0..16 {
        arena.write_byte(&a, i, 0x11);
        arena.write_byte(&b, i, 0x22);
        arena.write_byte(&c, i, 0x33);
    }
    for i in 0..16 {
        assert_eq!(arena.read_byte(&a, i), 0x11);
        assert_eq!(arena.read_byte(&b, i), 0x22);
        assert_eq!(arena.read_byte(&c, i), 0x33);
    }
    assert_eq!(c.offset() % 8, 0);
}

#[test]
fn alignment_on_fallback_paths() {
    let mut arena = Arena::new();
    let _ = arena.allocate(3);
    for want in [1usize, 7, 8, 9, 511, 2000] {
        let r = arena.allocate_aligned(want);
        assert_eq!(r.offset() % 8, 0);
        assert_eq!(r.length(), want);
    }
}

#[test]
fn fresh_allocations_are_zeroed() {
    let mut arena = Arena::new();
    let a = arena.allocate(100);
    for i in 0..100 {
        assert_eq!(arena.read_byte(&a, i), 0);
    }
    arena.write_byte(&a, 0, 0xff);
    // the next allocation is zero-filled even though the block already
    // carries written bytes
    let b = arena.allocate(50);
    for i in 0..50 {
        assert_eq!(arena.read_byte(&b, i), 0);
    }
    // a dedicated large block is zero-filled too
    let c = arena.allocate(2000);
    assert_eq!(arena.read_byte(&c, 1999), 0);
}

#[test]
fn cursor_behavior_matches_contract() {
    let mut arena = Arena::new();
    // small fallback: a standard block becomes current
    let a = arena.allocate(100);
    assert_eq!(a.offset(), 0);
    assert_eq!(arena.bytes_remaining(), BLOCK_SIZE - 100);
    // fast path: the region continues at the cursor
    let b = arena.allocate(50);
    assert_eq!(b.block_index(), a.block_index());
    assert_eq!(b.offset(), 100);
    assert_eq!(arena.bytes_remaining(), BLOCK_SIZE - 150);
    // large request that does not fit: dedicated block, cursor untouched
    let c = arena.allocate(4000);
    assert_ne!(c.block_index(), a.block_index());
    assert_eq!(c.offset(), 0);
    assert_eq!(arena.bytes_remaining(), BLOCK_SIZE - 150);
}
