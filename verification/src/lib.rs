//! In-memory caching and bulk-allocation utilities for an embedded
//! key-value storage engine: an LRU cache with sharding, a bump-pointer
//! arena, byte-slice keys, integer coding, a checksum facade, a
//! non-cryptographic hash, and a simple pseudo-random generator.

pub mod arena;
pub mod cache;
pub mod coding;
pub mod crc32c;
pub mod hash;
pub mod random;
pub mod sharded;
pub mod slice;
