//! A bump-pointer arena.
//!
//! The arena hands out regions carved from internally owned blocks and
//! never reclaims an individual allocation; the whole arena is dropped
//! at once.  A `Region` names one allocation by block index, offset and
//! length, and the arena proves that every region it hands out is
//! zero-filled and disjoint from every region it handed out before, so
//! writes through one region never touch another.

use vstd::prelude::*;

verus! {

/// The size of a standard backing block.
pub const BLOCK_SIZE: usize = 4096;

/// Requests above a quarter of a standard block get a block of their
/// own.
pub const LARGE_REQUEST: usize = 1024;

/// Bookkeeping charged per block in the memory-usage estimate, the
/// size of a pointer.
pub const BLOCK_OVERHEAD: usize = 8;

/// The alignment that `allocate_aligned` guarantees: the pointer size,
/// but at least eight.
pub const ALIGNMENT: usize = 8;

/// One allocation: `len` bytes at `offset` in block `block`.
pub struct Region {
    block: usize,
    offset: usize,
    len: usize,
}

impl Region {
    pub closed spec fn spec_block(&self) -> int {
        self.block as int
    }

    pub closed spec fn spec_offset(&self) -> int {
        self.offset as int
    }

    pub closed spec fn spec_len(&self) -> int {
        self.len as int
    }

    /// The block this region lives in.
    pub fn block_index(&self) -> (b: usize)
        ensures
            b == self.spec_block(),
    {
        self.block
    }

    /// The offset of the region's first byte in its block.
    pub fn offset(&self) -> (o: usize)
        ensures
            o == self.spec_offset(),
    {
        self.offset
    }

    /// The region's length in bytes.
    pub fn length(&self) -> (n: usize)
        ensures
            n == self.spec_len(),
    {
        self.len
    }
}

/// The region lies inside one of the arena's blocks.
pub open spec fn region_in_bounds(r: Region, blocks: Seq<Vec<u8>>) -> bool {
    &&& 0 <= r.spec_block() < blocks.len()
    &&& r.spec_offset() >= 0
    &&& r.spec_len() >= 1
    &&& r.spec_offset() + r.spec_len() <= blocks[r.spec_block()]@.len()
}

/// Two regions share no byte.
pub open spec fn regions_disjoint(a: Region, b: Region) -> bool {
    ||| a.spec_block() != b.spec_block()
    ||| a.spec_offset() + a.spec_len() <= b.spec_offset()
    ||| b.spec_offset() + b.spec_len() <= a.spec_offset()
}

/// Total bytes reserved: each block's length plus the per-block
/// bookkeeping overhead.
pub open spec fn spec_reserved(blocks: Seq<Vec<u8>>) -> int
    decreases blocks.len(),
{
    if blocks.len() == 0 {
        0
    } else {
        spec_reserved(blocks.drop_last()) + blocks.last()@.len() + BLOCK_OVERHEAD
    }
}

/// The combined length of a run of regions: the bytes handed out.
pub open spec fn spec_regions_total(rs: Seq<Region>) -> int
    decreases rs.len(),
{
    if rs.len() == 0 {
        0
    } else {
        spec_regions_total(rs.drop_last()) + rs.last().spec_len()
    }
}

/// The padding that brings a cursor at `c` up to the next multiple of
/// the alignment.
pub open spec fn spec_align_pad(c: int) -> int {
    (ALIGNMENT - c % (ALIGNMENT as int)) % (ALIGNMENT as int)
}

pub struct Arena {
    // Allocated memory blocks; allocations never move once made.
    blocks: Vec<Vec<u8>>,
    // The block the bump cursor points into; meaningful while
    // `remaining > 0`.
    current: usize,
    // Next free offset in the current block.
    cursor: usize,
    // Bytes left in the current block.
    remaining: usize,
    // Total memory usage of the arena.
    usage: usize,
    // Every region handed out so far.
    regions: Ghost<Seq<Region>>,
}

impl Arena {
    /// The arena's bookkeeping is coherent: the cursor sits inside the
    /// current block, all handed-out regions are in bounds, pairwise
    /// disjoint, and below the cursor in the current block, the
    /// current block's free tail is still zero-filled, the usage
    /// counter equals the reserved total, and the bytes handed out
    /// never exceed the bytes reserved.
    pub closed spec fn wf(&self) -> bool {
        &&& (self.remaining > 0 ==> self.current < self.blocks@.len() && self.cursor
            + self.remaining == self.blocks@[self.current as int]@.len())
        &&& self.cursor + self.remaining <= usize::MAX
        &&& self.usage == spec_reserved(self.blocks@)
        &&& spec_regions_total(self.regions@) + self.remaining <= spec_reserved(self.blocks@)
        &&& (self.remaining > 0 ==> forall|o: int|
            self.cursor <= o < self.blocks@[self.current as int]@.len()
                ==> self.blocks@[self.current as int]@[o] == 0)
        &&& (forall|i: int|
            0 <= i < self.regions@.len() ==> region_in_bounds(
                #[trigger] self.regions@[i],
                self.blocks@,
            ))
        &&& (forall|i: int, j: int|
            0 <= i < j < self.regions@.len() ==> regions_disjoint(
                #[trigger] self.regions@[i],
                #[trigger] self.regions@[j],
            ))
        &&& (forall|i: int|
            0 <= i < self.regions@.len() && self.remaining > 0
                && (#[trigger] self.regions@[i]).spec_block() == self.current
                ==> self.regions@[i].spec_offset() + self.regions@[i].spec_len() <= self.cursor)
    }

    /// The bytes of the arena's blocks.
    pub closed spec fn spec_blocks(&self) -> Seq<Seq<u8>> {
        self.blocks@.map(|i: int, b: Vec<u8>| b@)
    }

    /// The blocks as vectors, for in-bounds talk.
    pub closed spec fn spec_blocks_raw(&self) -> Seq<Vec<u8>> {
        self.blocks@
    }

    /// The regions handed out so far, in order.
    pub closed spec fn spec_regions(&self) -> Seq<Region> {
        self.regions@
    }

    /// The usage counter.
    pub closed spec fn spec_usage(&self) -> int {
        self.usage as int
    }

    /// Bytes left before the current block is exhausted.
    pub closed spec fn spec_remaining(&self) -> int {
        self.remaining as int
    }

    /// The bump cursor's offset in the current block.
    pub closed spec fn spec_cursor(&self) -> int {
        self.cursor as int
    }

    /// The index of the block the cursor points into.
    pub closed spec fn spec_current(&self) -> int {
        self.current as int
    }

    pub fn new() -> (a: Arena)
        ensures
            a.wf(),
            a.spec_usage() == 0,
            a.spec_remaining() == 0,
            a.spec_cursor() == 0,
            a.spec_blocks().len() == 0,
            a.spec_regions().len() == 0,
    {
        Arena {
            blocks: Vec::new(),
            current: 0,
            cursor: 0,
            remaining: 0,
            usage: 0,
            regions: Ghost(Seq::empty()),
        }
    }

    /// Returns an estimate of the total memory usage of data allocated
    /// by the arena: exactly the reserved block bytes plus per-block
    /// overhead, and so never less than the bytes handed out.
    pub fn memory_usage(&self) -> (u: usize)
        requires
            self.wf(),
        ensures
            u == self.spec_usage(),
            u == spec_reserved(self.spec_blocks_raw()),
            u >= spec_regions_total(self.spec_regions()),
    {
        self.usage
    }

    /// Bytes still free in the current block.
    pub fn bytes_remaining(&self) -> (n: usize)
        ensures
            n == self.spec_remaining(),
    {
        self.remaining
    }

    /// What every allocation path guarantees: a fresh zero-filled
    /// region of the requested length, in bounds, disjoint from all
    /// earlier regions, appended to the log; old blocks keep their
    /// contents; the usage counter never shrinks.
    pub open spec fn post_allocate_common(&self, prev: Arena, r: Region, bytes: usize) -> bool {
        &&& r.spec_len() == bytes
        &&& region_in_bounds(r, self.spec_blocks_raw())
        &&& self.spec_regions() == prev.spec_regions().push(r)
        &&& (forall|j: int|
            0 <= j < prev.spec_regions().len() ==> regions_disjoint(
                r,
                #[trigger] prev.spec_regions()[j],
            ))
        &&& prev.spec_blocks_raw().len() <= self.spec_blocks_raw().len()
        &&& (forall|b: int|
            0 <= b < prev.spec_blocks_raw().len() ==> #[trigger] self.spec_blocks_raw()[b]@
                == prev.spec_blocks_raw()[b]@)
        &&& prev.spec_usage() <= self.spec_usage()
        &&& (forall|q: int|
            0 <= q < bytes ==> #[trigger] self.spec_blocks_raw()[r.spec_block()]@[r.spec_offset()
                + q] == 0)
    }

    /// What the fallback path guarantees: the region opens a fresh
    /// block.  A request over a quarter block gets a dedicated block
    /// of exactly its size and leaves the cursor alone; a small one
    /// gets a standard block, which becomes current.
    pub open spec fn post_fallback(&self, prev: Arena, r: Region, bytes: usize) -> bool {
        &&& self.post_allocate_common(prev, r, bytes)
        &&& r.spec_block() == prev.spec_blocks_raw().len()
        &&& r.spec_offset() == 0
        &&& self.spec_blocks_raw().len() == prev.spec_blocks_raw().len() + 1
        &&& (bytes > LARGE_REQUEST ==> {
            &&& self.spec_blocks_raw()[r.spec_block()]@.len() == bytes
            &&& self.spec_usage() == prev.spec_usage() + bytes + BLOCK_OVERHEAD
            &&& self.spec_current() == prev.spec_current()
            &&& self.spec_cursor() == prev.spec_cursor()
            &&& self.spec_remaining() == prev.spec_remaining()
        })
        &&& (bytes <= LARGE_REQUEST ==> {
            &&& self.spec_blocks_raw()[r.spec_block()]@.len() == BLOCK_SIZE
            &&& self.spec_usage() == prev.spec_usage() + BLOCK_SIZE + BLOCK_OVERHEAD
            &&& self.spec_current() == r.spec_block()
            &&& self.spec_cursor() == bytes
            &&& self.spec_remaining() == BLOCK_SIZE - bytes
        })
    }

    /// What `allocate` guarantees: on the fast path the region sits at
    /// the old cursor, which advances past it; otherwise the fallback
    /// serves it from a fresh block.
    pub open spec fn post_allocate(&self, prev: Arena, r: Region, bytes: usize) -> bool {
        &&& self.post_allocate_common(prev, r, bytes)
        &&& (bytes <= prev.spec_remaining() ==> {
            &&& r.spec_block() == prev.spec_current()
            &&& r.spec_offset() == prev.spec_cursor()
            &&& self.spec_current() == prev.spec_current()
            &&& self.spec_cursor() == prev.spec_cursor() + bytes
            &&& self.spec_remaining() == prev.spec_remaining() - bytes
            &&& self.spec_usage() == prev.spec_usage()
            &&& self.spec_blocks_raw() == prev.spec_blocks_raw()
        })
        &&& (bytes > prev.spec_remaining() ==> self.post_fallback(prev, r, bytes))
    }

    /// Allocate `bytes` bytes.
    pub fn allocate(&mut self, bytes: usize) -> (r: Region)
        requires
            old(self).wf(),
            bytes > 0,
            old(self).spec_usage() + bytes + BLOCK_SIZE + BLOCK_OVERHEAD <= usize::MAX,
        ensures
            final(self).wf(),
            final(self).post_allocate(*old(self), r, bytes),
    {
        if bytes <= self.remaining {
            self.bump(bytes)
        } else {
            self.allocate_fallback(bytes)
        }
    }

    /// Carve `bytes` from the current block at the cursor.
    fn bump(&mut self, bytes: usize) -> (r: Region)
        requires
            old(self).wf(),
            bytes > 0,
            bytes <= old(self).spec_remaining(),
        ensures
            final(self).wf(),
            final(self).post_allocate(*old(self), r, bytes),
    {
        let r = Region { block: self.current, offset: self.cursor, len: bytes };
        self.cursor = self.cursor + bytes;
        self.remaining = self.remaining - bytes;
        proof {
            lemma_regions_total_push(self.regions@, r);
            self.regions@ = self.regions@.push(r);
        }
        r
    }

    /// The fallback path: reserve a new block and serve the request
    /// from it.  A request over a quarter block gets a dedicated block
    /// sized exactly to it, so a shared block's tail is not wasted on
    /// one oversized object; otherwise the rest of the old block is
    /// abandoned and a fresh standard block becomes current.
    pub fn allocate_fallback(&mut self, bytes: usize) -> (r: Region)
        requires
            old(self).wf(),
            bytes > 0,
            old(self).spec_usage() + bytes + BLOCK_SIZE + BLOCK_OVERHEAD <= usize::MAX,
        ensures
            final(self).wf(),
            final(self).post_fallback(*old(self), r, bytes),
    {
        if bytes > LARGE_REQUEST {
            // Object is more than a quarter of our block size.  Allocate
            // it separately to avoid wasting too much space in leftover
            // bytes.
            let b = self.allocate_new_block(bytes);
            let r = Region { block: b, offset: 0, len: bytes };
            proof {
                lemma_regions_total_push(self.regions@, r);
                self.regions@ = self.regions@.push(r);
            }
            return r;
        }
        // We waste the remaining space in the current block.
        let b = self.allocate_new_block(BLOCK_SIZE);
        self.current = b;
        self.cursor = bytes;
        self.remaining = BLOCK_SIZE - bytes;
        let r = Region { block: b, offset: 0, len: bytes };
        proof {
            lemma_regions_total_push(self.regions@, r);
            self.regions@ = self.regions@.push(r);
        }
        r
    }

    /// Reserve one zero-filled block of `block_bytes` bytes and charge
    /// it, plus bookkeeping overhead, to the usage counter.
    fn allocate_new_block(&mut self, block_bytes: usize) -> (b: usize)
        requires
            old(self).usage + block_bytes + BLOCK_OVERHEAD <= usize::MAX,
        ensures
            b == old(self).blocks@.len(),
            final(self).blocks@ == old(self).blocks@.push(final(self).blocks@[b as int]),
            final(self).blocks@[b as int]@.len() == block_bytes,
            forall|q: int| 0 <= q < block_bytes ==> final(self).blocks@[b as int]@[q] == 0,
            final(self).usage == old(self).usage + block_bytes + BLOCK_OVERHEAD,
            final(self).current == old(self).current,
            final(self).cursor == old(self).cursor,
            final(self).remaining == old(self).remaining,
            final(self).regions == old(self).regions,
            final(self).usage == spec_reserved(final(self).blocks@) || old(self).usage
                != spec_reserved(old(self).blocks@),
    {
        let buf: Vec<u8> = vec![0u8; block_bytes];
        let b = self.blocks.len();
        proof {
            lemma_reserved_push(self.blocks@, buf);
        }
        self.blocks.push(buf);
        self.usage = self.usage + block_bytes + BLOCK_OVERHEAD;
        b
    }

    /// Read byte `i` of region `r`.
    pub fn read_byte(&self, r: &Region, i: usize) -> (b: u8)
        requires
            self.wf(),
            region_in_bounds(*r, self.spec_blocks_raw()),
            i < r.spec_len(),
        ensures
            b == self.spec_blocks()[r.spec_block()][r.spec_offset() + i],
    {
        let block: &Vec<u8> = &self.blocks[r.block];
        let n = block.len();
        assert(r.spec_offset() + i < n);
        block[r.offset + i]
    }

    /// Write `b` into byte `i` of a region this arena handed out.
    /// Only that byte of that block changes; with the disjointness of
    /// handed-out regions, a write through one region never changes a
    /// byte of another.
    pub fn write_byte(&mut self, r: &Region, i: usize, b: u8)
        requires
            old(self).wf(),
            old(self).spec_regions().contains(*r),
            i < r.spec_len(),
        ensures
            final(self).wf(),
            region_in_bounds(*r, old(self).spec_blocks_raw()),
            final(self).spec_blocks() == old(self).spec_blocks().update(
                r.spec_block(),
                old(self).spec_blocks()[r.spec_block()].update(r.spec_offset() + i, b),
            ),
            final(self).spec_regions() == old(self).spec_regions(),
            final(self).spec_usage() == old(self).spec_usage(),
            final(self).spec_remaining() == old(self).spec_remaining(),
            final(self).spec_cursor() == old(self).spec_cursor(),
    {
        proof {
            let idx = choose|idx: int|
                0 <= idx < self.regions@.len() && self.regions@[idx] == *r;
            assert(region_in_bounds(self.regions@[idx], self.blocks@));
        }
        let block: &mut Vec<u8> = &mut self.blocks[r.block];
        let n = block.len();
        assert(r.spec_offset() + i < n);
        block[r.offset + i] = b;
        proof {
            lemma_reserved_update(old(self).blocks@, self.blocks@, r.spec_block());
            assert(final(self).spec_blocks() =~= old(self).spec_blocks().update(
                r.spec_block(),
                old(self).spec_blocks()[r.spec_block()].update(r.spec_offset() + i, b),
            ));
            // a logged region in the current block lies below the
            // cursor, so the zero tail is untouched
            let idx = choose|idx: int|
                0 <= idx < old(self).regions@.len() && old(self).regions@[idx] == *r;
            assert(old(self).regions@[idx].spec_block() == r.spec_block());
        }
    }

    /// Allocate `bytes` bytes whose offset in its block is a multiple
    /// of `ALIGNMENT`.  On the fast path the cursor is padded up to
    /// the next multiple and the region starts there; the fallback
    /// path starts at offset zero, which is already aligned.
    pub fn allocate_aligned(&mut self, bytes: usize) -> (r: Region)
        requires
            old(self).wf(),
            bytes > 0,
            old(self).spec_usage() + bytes + BLOCK_SIZE + BLOCK_OVERHEAD + ALIGNMENT
                <= usize::MAX,
        ensures
            final(self).wf(),
            r.spec_offset() % (ALIGNMENT as int) == 0,
            final(self).post_allocate_common(*old(self), r, bytes),
            ({
                let pad = spec_align_pad(old(self).spec_cursor());
                &&& (bytes + pad <= old(self).spec_remaining() ==> {
                    &&& r.spec_block() == old(self).spec_current()
                    &&& r.spec_offset() == old(self).spec_cursor() + pad
                    &&& final(self).spec_current() == old(self).spec_current()
                    &&& final(self).spec_cursor() == old(self).spec_cursor() + pad + bytes
                    &&& final(self).spec_remaining() == old(self).spec_remaining() - pad - bytes
                    &&& final(self).spec_usage() == old(self).spec_usage()
                    &&& final(self).spec_blocks_raw() == old(self).spec_blocks_raw()
                })
                &&& (bytes + pad > old(self).spec_remaining() ==> final(self).post_fallback(
                    *old(self),
                    r,
                    bytes,
                ))
            }),
    {
        let current_mod = self.cursor % ALIGNMENT;
        let slop = if current_mod == 0 {
            0usize
        } else {
            ALIGNMENT - current_mod
        };
        proof {
            assert(slop == spec_align_pad(old(self).spec_cursor()));
        }
        let needed = bytes + slop;
        if needed <= self.remaining {
            // skip the slop; the padding bytes are simply never handed
            // out, so disjointness is kept
            let r = Region { block: self.current, offset: self.cursor + slop, len: bytes };
            self.cursor = self.cursor + needed;
            self.remaining = self.remaining - needed;
            proof {
                lemma_regions_total_push(self.regions@, r);
                self.regions@ = self.regions@.push(r);
            }
            r
        } else {
            // the fallback always serves from offset zero of a fresh
            // block, which is aligned
            let r = self.allocate_fallback(bytes);
            r
        }
    }
}

/// Pushing a block adds its length plus overhead to the reserved
/// total.
proof fn lemma_reserved_push(blocks: Seq<Vec<u8>>, buf: Vec<u8>)
    ensures
        spec_reserved(blocks.push(buf)) == spec_reserved(blocks) + buf@.len() + BLOCK_OVERHEAD,
{
    assert(blocks.push(buf).drop_last() =~= blocks);
    assert(blocks.push(buf).last() == buf);
}

/// Replacing one block with another of the same length keeps the
/// reserved total.
proof fn lemma_reserved_update(before: Seq<Vec<u8>>, after: Seq<Vec<u8>>, b: int)
    requires
        before.len() == after.len(),
        0 <= b < before.len(),
        after[b]@.len() == before[b]@.len(),
        forall|j: int| 0 <= j < before.len() && j != b ==> after[j] == #[trigger] before[j],
    ensures
        spec_reserved(after) == spec_reserved(before),
    decreases before.len(),
{
    if before.len() > 0 {
        if b == before.len() - 1 {
            assert(after.drop_last() =~= before.drop_last());
        } else {
            lemma_reserved_update(before.drop_last(), after.drop_last(), b);
        }
    }
}

/// Handing out one more region adds its length to the handed-out
/// total.
proof fn lemma_regions_total_push(rs: Seq<Region>, r: Region)
    ensures
        spec_regions_total(rs.push(r)) == spec_regions_total(rs) + r.spec_len(),
{
    assert(rs.push(r).drop_last() =~= rs);
    assert(rs.push(r).last() == r);
}

} // verus!
