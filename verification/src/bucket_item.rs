//! One enumerated entry of a shard.

use vstd::prelude::*;
use crate::pubkey::Pubkey;

verus! {

/// A key together with its stored value list and ref count, as returned by
/// per-shard enumeration.
pub struct BucketItem<T> {
    pub pubkey: Pubkey,
    pub ref_count: u64,
    pub slot_list: Vec<T>,
}

} // verus!
