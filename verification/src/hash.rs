//! The non-cryptographic hash used for table bucketing and shard
//! routing.  It mixes four-byte groups first and the up-to-three
//! trailing bytes after, in the style of Murmur, with wrapping
//! arithmetic throughout.

use vstd::prelude::*;

verus! {

/// The mixing multiplier.
pub const HASH_M: u32 = 0xc6a4a793;

/// The little-endian word formed by the four bytes at `i`.
pub open spec fn spec_word_at(data: Seq<u8>, i: int) -> u32
    recommends
        0 <= i,
        i + 4 <= data.len(),
{
    (data[i] + data[i + 1] * 256 + data[i + 2] * 65536 + data[i + 3] * 16777216) as u32
}

/// One mixing round: absorb a word, multiply, fold the high bits down.
pub open spec fn spec_hash_round(h: u32, w: u32) -> u32 {
    let h1 = h.wrapping_add(w);
    let h2 = h1.wrapping_mul(HASH_M);
    h2 ^ (h2 >> 16)
}

/// Absorb whole four-byte groups, starting at `i`.
pub open spec fn spec_hash_groups(data: Seq<u8>, i: nat, h: u32) -> u32
    decreases data.len() - i when i <= data.len()
{
    if i + 4 <= data.len() {
        spec_hash_groups(data, i + 4, spec_hash_round(h, spec_word_at(data, i as int)))
    } else {
        h
    }
}

/// Absorb the trailing one to three bytes, starting at `i`.
pub open spec fn spec_hash_tail(data: Seq<u8>, i: int, h: u32) -> u32
    recommends
        0 <= i <= data.len(),
        data.len() - i < 4,
{
    let rem = data.len() - i;
    let h1 = if rem > 2 {
        h.wrapping_add((data[i + 2] as u32) << 16)
    } else {
        h
    };
    let h2 = if rem > 1 {
        h1.wrapping_add((data[i + 1] as u32) << 8)
    } else {
        h1
    };
    if rem > 0 {
        let h3 = h2.wrapping_add(data[i] as u32);
        let h4 = h3.wrapping_mul(HASH_M);
        h4 ^ (h4 >> 24)
    } else {
        h2
    }
}

/// The hash of `data` under `seed`: a function of the bytes and the
/// seed alone, so one process always routes one key the same way.
pub open spec fn spec_hash(data: Seq<u8>, seed: u32) -> u32 {
    let h0 = seed ^ HASH_M.wrapping_mul(data.len() as u32);
    let groups_end = data.len() - (data.len() % 4);
    spec_hash_tail(data, groups_end as int, spec_hash_groups(data, 0, h0))
}

/// Hash `data` under `seed`.
pub fn hash(data: &[u8], seed: u32) -> (r: u32)
    ensures
        r == spec_hash(data@, seed),
{
    let n = data.len();
    #[verifier::truncate]
    let n32 = n as u32;
    let mut h: u32 = seed ^ HASH_M.wrapping_mul(n32);
    let ghost h0 = h;

    // Pick up four bytes at a time.
    let mut i: usize = 0;
    while n - i >= 4
        invariant
            n == data@.len(),
            i <= n,
            i % 4 == 0,
            spec_hash_groups(data@, 0, h0) == spec_hash_groups(data@, i as nat, h),
        decreases n - i,
    {
        let b0 = data[i];
        let b1 = data[i + 1];
        let b2 = data[i + 2];
        let b3 = data[i + 3];
        let w = b0 as u32 + b1 as u32 * 256 + b2 as u32 * 65536 + b3 as u32 * 16777216;
        assert(w == spec_word_at(data@, i as int));
        h = h.wrapping_add(w);
        h = h.wrapping_mul(HASH_M);
        h = h ^ (h >> 16);
        i += 4;
    }
    assert(spec_hash_groups(data@, i as nat, h) == h);
    assert(i == n - (n % 4));

    // Pick up the remaining bytes.
    let remainder = n - i;
    if remainder > 2 {
        h = h.wrapping_add((data[i + 2] as u32) << 16u32);
    }
    if remainder > 1 {
        h = h.wrapping_add((data[i + 1] as u32) << 8u32);
    }
    if remainder > 0 {
        h = h.wrapping_add(data[i] as u32);
        h = h.wrapping_mul(HASH_M);
        h = h ^ (h >> 24);
    }
    h
}

} // verus!
