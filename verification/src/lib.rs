//! Fork-aware account state cache for a blockchain node.
//!
//! The crate keeps a shared, bounded LRU of account records in front of a
//! journaled backing store, together with a block-ordered modification log
//! that lets per-block views decide whether a cached entry is still valid for
//! their anchor block, and a persistent Bloom filter over every address ever
//! written.

use vstd::prelude::*;

pub mod bloom;
pub mod changes;
pub mod codec;
pub mod laws;
pub mod lru;
pub mod record;
pub mod state_db;
pub mod store;

verus! {

/// Capacity of the shared LRU of account records.
pub const STATE_CACHE_ITEMS: usize = 65536;

/// Bound on the number of per-block change records kept in the log.
pub const STATE_CACHE_BLOCKS: usize = 8;

/// Size of the account Bloom filter, in bits.
pub const ACCOUNT_BLOOM_SPACE: usize = 1048576;

/// Expected number of items the account Bloom filter is sized for.
pub const DEFAULT_ACCOUNT_PRESET: usize = 1000000;

/// Number of 64-bit words in the account Bloom filter.
pub const ACCOUNT_BLOOM_WORDS: usize = ACCOUNT_BLOOM_SPACE / 64;

} // verus!
