//! A sharded, in-memory associative index for fixed-width 32-byte keys.
//!
//! Each key maps to a variable-length list of values of a caller-chosen
//! copyable element type, together with a 64-bit reference count.  The key
//! space is partitioned over a power-of-two number of shards ("buckets") by
//! the high bits of the key; each shard owns an open-addressed hash table
//! with a bounded linear-probe window and a segregated heap of power-of-two
//! capacity blocks that stores the value lists.  Writers that run out of
//! room receive a typed grow request; growing one storage axis and retrying
//! is the caller-visible protocol, wrapped by the convenience methods.
//!
//! Every storage region is held in memory as a vector.  The byte-region
//! backing (memory-mapped scratch files spread over caller-chosen
//! directories) is out of the core's scope: regions promise nothing across
//! processes, and the code around the library owns file placement.

use vstd::prelude::*;

pub mod math;
pub mod pubkey;
pub mod index_storage;
pub mod data_storage;
pub mod bucket;
pub mod bucket_item;
pub mod bucket_map;
pub mod laws;

pub use crate::bucket_item::BucketItem;
pub use crate::bucket_map::BucketMap;
pub use crate::bucket_map::BucketMapConfig;
pub use crate::bucket_map::BucketMapError;
pub use crate::bucket_map::read_be_u64;
pub use crate::pubkey::Pubkey;
pub use crate::pubkey::PubkeyRange;

verus! {

/// Reference count attached to each key.
pub type RefCount = u64;

/// Bound on the linear-probe window of the index table and of the
/// per-class block scan of the data heap.
pub type MaxSearch = u8;

} // verus!
