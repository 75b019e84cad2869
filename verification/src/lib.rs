//! A sharded associative container.
//!
//! The map partitions its key space across a power-of-two number of
//! independently held segments (shards), routing every key to exactly one
//! shard by a deterministic 64-bit hash. Operations on unrelated keys touch
//! disjoint shards, which is what makes the layout suitable for concurrent
//! use once each shard is placed behind its own lock.
//!
//! The crate proves, for every operation, how it changes the map's abstract
//! contents (a mathematical map from key views to values), that a key always
//! lives in the one shard its hash routes it to, and that the entry counter
//! equals the number of distinct live keys.

pub mod keys;
pub mod map;
pub mod selector;
pub mod shard;

pub use keys::{FnvHasher, IdentityHasher, KeyHasher, ShardKey};
pub use map::{MapRef, ShardMap};
pub use selector::{route_key, shard_count};
pub use shard::Shard;
