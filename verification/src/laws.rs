//! The governing laws of the map, stated over its view and its shards.

use vstd::prelude::*;
use crate::math::size_class;
use crate::bucket::Bucket;

verus! {

/// Writing a pair under a key and reading that key back yields exactly the
/// written pair, for every key, value list (the empty one included) and
/// ref count.
pub proof fn lemma_insert_round_trip<T>(
    m: Map<Seq<u8>, (Seq<T>, u64)>,
    k: Seq<u8>,
    v: Seq<T>,
    rc: u64,
)
    ensures
        m.insert(k, (v, rc)).contains_key(k),
        m.insert(k, (v, rc))[k] == (v, rc),
{
}

/// A second write under the same key fully overwrites the first, whatever
/// the lengths of the two lists.
pub proof fn lemma_insert_overwrite<T>(
    m: Map<Seq<u8>, (Seq<T>, u64)>,
    k: Seq<u8>,
    v1: Seq<T>,
    r1: u64,
    v2: Seq<T>,
    r2: u64,
)
    ensures
        m.insert(k, (v1, r1)).insert(k, (v2, r2)) == m.insert(k, (v2, r2)),
        m.insert(k, (v1, r1)).insert(k, (v2, r2))[k] == (v2, r2),
{
    assert(m.insert(k, (v1, r1)).insert(k, (v2, r2)) =~= m.insert(k, (v2, r2)));
}

/// After a removal the key reads as absent, and a subsequent write brings
/// the key back exactly as if it had never been removed.
pub proof fn lemma_delete_then_insert<T>(
    m: Map<Seq<u8>, (Seq<T>, u64)>,
    k: Seq<u8>,
    v: Seq<T>,
    rc: u64,
)
    ensures
        !m.remove(k).contains_key(k),
        m.remove(k).insert(k, (v, rc)) == m.insert(k, (v, rc)),
{
    assert(m.remove(k).insert(k, (v, rc)) =~= m.insert(k, (v, rc)));
}

/// A fresh map holds no key: reads before the first write return nothing.
pub proof fn lemma_no_phantom_reads<T>(k: Seq<u8>)
    ensures
        !Map::<Seq<u8>, (Seq<T>, u64)>::empty().contains_key(k),
{
}

/// Incrementing a key's ref count and then decrementing it restores the
/// map exactly (the count moves by exactly one in each direction).
pub proof fn lemma_addref_then_unref<T>(m: Map<Seq<u8>, (Seq<T>, u64)>, k: Seq<u8>, v: Seq<T>, rc: u64)
    requires
        m.contains_key(k),
        m[k] == (v, rc),
        rc < u64::MAX,
    ensures
        m.insert(k, (v, (rc + 1) as u64))[k].1 == rc + 1,
        m.insert(k, (v, (rc + 1) as u64)).insert(k, (v, rc)) == m,
{
    assert(m.insert(k, (v, (rc + 1) as u64)).insert(k, (v, rc)) =~= m);
}

/// A failed write is restartable: after the matching grow of the data
/// class it named, the same write has room and must succeed, because a
/// rejected write leaves the shard unchanged and the grow parks a free
/// block inside the allocation window.
pub proof fn lemma_grow_unblocks_data<T: Copy>(b0: Bucket<T>, b1: Bucket<T>, k: Seq<u8>, n: nat)
    requires
        b0.wf(),
        b1.wf(),
        b1.index == b0.index,
        b1.model@ == b0.model@,
        b0.model@.contains_key(k) || b0.index.has_free_slot(k),
        n > 0 ==> b1.data.free_in_window(size_class(n) as int),
    ensures
        b1.can_write(k, n),
{
}

} // verus!
