//! One shard of the map: an index table plus a data heap, specified
//! against a ghost map from key bytes to `(value list, ref count)`.

use vstd::prelude::*;
use vstd::arithmetic::power2::pow2;
use vstd::arithmetic::power2::lemma_pow2_pos;
use vstd::arithmetic::power2::lemma_pow2_strictly_increases;
use vstd::arithmetic::power2::lemma2_to64;
use vstd::arithmetic::power2::lemma2_to64_rest;
use vstd::set::axiom_set_insert_len;
use vstd::set_lib::lemma_map_size;
use vstd::set_lib::lemma_len_subset;
use vstd::set_lib::lemma_int_range;
use vstd::set_lib::set_int_range;
use vstd::relations::injective_on;
use crate::math::size_class;
use crate::math::size_class_exec;
use crate::index_storage::IndexSlot;
use crate::index_storage::IndexStorage;
use crate::index_storage::probe;
use crate::index_storage::slot_in_prefix;
use crate::data_storage::DataStorage;
use crate::pubkey::Pubkey;
use crate::bucket_map::BucketMapError;

verus! {

/// An occupied slot of `idx` holds key bytes `k`.
#[verifier::opaque]
pub open spec fn index_has_key(idx: IndexStorage, k: Seq<u8>) -> bool {
    exists|i: int|
        0 <= i < idx.cap() && #[trigger] idx.slots[i].occupied && idx.slots[i].key@ == k
}

/// One shard: the index table, the data heap, the number of live keys and
/// the ghost map the shard realizes.
pub struct Bucket<T: Copy> {
    pub index: IndexStorage,
    pub data: DataStorage<T>,
    pub count: u64,
    pub model: Ghost<Map<Seq<u8>, (Seq<T>, u64)>>,
}

impl<T: Copy> Bucket<T> {
    /// The value list and ref count slot `i` denotes.
    pub open spec fn slot_val(self, i: int) -> (Seq<T>, u64) {
        let s = self.index.slots[i];
        (
            if s.len == 0 {
                Seq::empty()
            } else {
                self.data.classes[s.class as int].blocks[s.block as int].data@
            },
            s.ref_count,
        )
    }

    /// A non-empty slot points at a used block of the right class whose
    /// stored list has the slot's length.
    pub open spec fn slot_ok(self, i: int) -> bool {
        let s = self.index.slots[i];
        s.len > 0 ==> {
            &&& (s.class as int) < self.data.classes.len()
            &&& (s.block as int) < self.data.classes[s.class as int].blocks.len()
            &&& self.data.classes[s.class as int].blocks[s.block as int].used
            &&& self.data.classes[s.class as int].blocks[s.block as int].data@.len() == s.len
            &&& s.class as nat == size_class(s.len as nat)
        }
    }

    /// The shard invariant: both storages are well formed, the counter is
    /// the ghost map's size, every occupied slot realizes one entry of the
    /// map and vice versa, and no two slots share a heap block.
    pub open spec fn wf(self) -> bool {
        &&& self.index.wf()
        &&& self.data.wf()
        &&& self.index.max_search == self.data.max_search
        &&& self.model@.dom().finite()
        &&& self.count == self.model@.dom().len()
        &&& forall|i: int|
            0 <= i < self.index.cap() && #[trigger] self.index.slots[i].occupied ==> {
                &&& self.index.slots[i].key@.len() == 32
                &&& self.model@.contains_key(self.index.slots[i].key@)
                &&& self.model@[self.index.slots[i].key@] == self.slot_val(i)
                &&& self.slot_ok(i)
            }
        &&& forall|k: Seq<u8>|
            #[trigger] self.model@.contains_key(k) ==> index_has_key(self.index, k)
        &&& forall|i: int, j: int|
            0 <= i < self.index.cap() && 0 <= j < self.index.cap() && i != j
                && #[trigger] self.index.slots[i].occupied && #[trigger] self.index.slots[j].occupied
                && self.index.slots[i].len > 0 && self.index.slots[j].len > 0
                && self.index.slots[i].class == self.index.slots[j].class
                ==> self.index.slots[i].block != self.index.slots[j].block
    }

    /// Both shard parameters agree with `other`'s.
    pub open spec fn same_shape(self, other: Bucket<T>) -> bool {
        &&& self.index.shard_bits == other.index.shard_bits
        &&& self.index.max_search == other.index.max_search
        &&& self.data.max_search == other.data.max_search
        &&& self.data.init_pow == other.data.init_pow
    }

    /// A write of `n` elements under key bytes `k` cannot run out of room:
    /// either the key is present and the write reuses its slot (and, when
    /// both lists are non-empty and of the same class, its block), or a
    /// free slot and (for a non-empty list) a free block are in reach.
    pub open spec fn can_write(self, k: Seq<u8>, n: nat) -> bool {
        if self.model@.contains_key(k) {
            ||| n == 0
            ||| (self.model@[k].0.len() > 0 && size_class(n) == size_class(self.model@[k].0.len()))
            ||| self.data.free_in_window(size_class(n) as int)
        } else {
            self.index.has_free_slot(k) && (n == 0 || self.data.free_in_window(
                size_class(n) as int,
            ))
        }
    }

    /// The shard can accept a write of `n` elements under `k` after at
    /// most one grow of the named data class: the index side holds the key
    /// or a free slot in its window, and the class region is not at its
    /// size ceiling.
    pub open spec fn write_ready(self, k: Seq<u8>, n: nat) -> bool {
        &&& (self.model@.contains_key(k) || self.index.has_free_slot(k))
        &&& (n == 0 || {
            let c = size_class(n) as int;
            c >= self.data.classes.len() || self.data.classes[c].blocks.len() < pow2(61)
        })
    }
}

/// Extending the heap with empty class regions changes no class's
/// free-block window.
proof fn lemma_free_window_stable<T: Copy>(d0: DataStorage<T>, d1: DataStorage<T>)
    requires
        d1.max_search == d0.max_search,
        d1.classes.len() >= d0.classes.len(),
        forall|cc: int| 0 <= cc < d0.classes.len() ==> d1.classes[cc] == d0.classes[cc],
        forall|cc: int|
            d0.classes.len() <= cc < d1.classes.len() ==> (#[trigger] d1.classes[cc]).blocks.len()
                == 0,
    ensures
        forall|cx: int| #[trigger] d1.free_in_window(cx) == d0.free_in_window(cx),
{
    reveal(DataStorage::free_in_window);
    assert forall|cx: int| #[trigger] d1.free_in_window(cx) == d0.free_in_window(cx) by {
        if 0 <= cx < d0.classes.len() {
            assert(d1.classes[cx] == d0.classes[cx]);
        } else if 0 <= cx < d1.classes.len() {
            assert(d1.classes[cx].blocks.len() == 0);
        }
    }
}

/// A key the probe window does not hold is not in the shard.
proof fn lemma_find_none_absent<T: Copy>(b: Bucket<T>, k: Seq<u8>)
    requires
        b.wf(),
        forall|d: int|
            0 <= d < b.index.max_search ==> !(b.index.slots[#[trigger] probe(
                b.index.home_of(k),
                d,
                b.index.cap(),
            )].occupied && b.index.slots[probe(b.index.home_of(k), d, b.index.cap())].key@ == k),
    ensures
        !b.model@.contains_key(k),
{
    if b.model@.contains_key(k) {
        assert(index_has_key(b.index, k));
        reveal(index_has_key);
        let i = choose|i: int|
            0 <= i < b.index.cap() && #[trigger] b.index.slots[i].occupied && b.index.slots[i].key@
                == k;
        assert(b.index.in_window(k, i));
        reveal(IndexStorage::in_window);
        let d = choose|d: int|
            0 <= d < b.index.max_search && i == #[trigger] probe(
                b.index.home_of(k),
                d,
                b.index.cap(),
            );
        assert(false);
    }
}

/// A shard never holds more keys than its table has slots.
proof fn lemma_dom_le_cap<T: Copy>(b: Bucket<T>)
    requires
        b.wf(),
    ensures
        b.model@.dom().len() <= b.index.cap(),
{
    let cap = b.index.cap();
    let f = |k: Seq<u8>|
        choose|i: int|
            0 <= i < cap && #[trigger] b.index.slots[i].occupied && b.index.slots[i].key@ == k;
    assert forall|k: Seq<u8>| #[trigger] b.model@.dom().contains(k) implies 0 <= f(k) < cap
        && b.index.slots[f(k)].occupied && b.index.slots[f(k)].key@ == k by {
        assert(index_has_key(b.index, k));
        reveal(index_has_key);
        assert(exists|i: int|
            0 <= i < cap && #[trigger] b.index.slots[i].occupied && b.index.slots[i].key@ == k);
    }
    assert(injective_on(f, b.model@.dom())) by {
        assert forall|k1: Seq<u8>, k2: Seq<u8>|
            #![trigger f(k1), f(k2)]
            b.model@.dom().contains(k1) && b.model@.dom().contains(k2) && f(k1) == f(k2)
            implies k1 == k2 by {
            assert(b.index.slots[f(k1)].key@ == k1);
            assert(b.index.slots[f(k2)].key@ == k2);
        }
    }
    lemma_map_size(b.model@.dom(), b.model@.dom().map(f), f);
    assert(b.model@.dom().map(f).subset_of(set_int_range(0, cap))) by {
        assert forall|x: int| #[trigger] b.model@.dom().map(f).contains(x) implies 0 <= x < cap by {
            let k = choose|k: Seq<u8>| b.model@.dom().contains(k) && f(k) == x;
        }
    }
    lemma_int_range(0, cap);
    lemma_len_subset(b.model@.dom().map(f), set_int_range(0, cap));
}

/// Committing one slot (fresh or overwritten) with a valid block keeps the
/// shard invariant and realizes a ghost-map insertion.
#[verifier::rlimit(100)]
#[verifier::spinoff_prover]
proof fn lemma_commit<T: Copy>(
    pre: Bucket<T>,
    post: Bucket<T>,
    i: int,
    ns: IndexSlot,
    vals: Seq<T>,
    rc: u64,
)
    requires
        pre.wf(),
        0 <= i < pre.index.cap(),
        ns.occupied,
        ns.key@.len() == 32,
        ns.ref_count == rc,
        ns.len == vals.len(),
        ns.len > 0 ==> ns.class as nat == size_class(ns.len as nat),
        pre.index.slots[i].occupied ==> pre.index.slots[i].key@ == ns.key@,
        !pre.index.slots[i].occupied ==> pre.index.in_window(ns.key@, i) && !pre.model@.contains_key(
            ns.key@,
        ),
        post.index.slots@ == pre.index.slots@.update(i, ns),
        post.index.pow == pre.index.pow,
        post.index.shard_bits == pre.index.shard_bits,
        post.index.max_search == pre.index.max_search,
        post.data.wf(),
        post.data.max_search == pre.data.max_search,
        post.data.init_pow == pre.data.init_pow,
        post.data.classes.len() >= pre.data.classes.len(),
        ns.len > 0 ==> {
            &&& (ns.class as int) < post.data.classes.len()
            &&& (ns.block as int) < post.data.classes[ns.class as int].blocks.len()
            &&& post.data.classes[ns.class as int].blocks[ns.block as int].used
            &&& post.data.classes[ns.class as int].blocks[ns.block as int].data@ == vals
        },
        forall|j: int|
            0 <= j < pre.index.cap() && j != i && #[trigger] pre.index.slots[j].occupied
                && pre.index.slots[j].len > 0 ==> {
                &&& (pre.index.slots[j].block as int) < post.data.classes[pre.index.slots[j].class as int].blocks.len()
                &&& post.data.classes[pre.index.slots[j].class as int].blocks[pre.index.slots[j].block as int]
                    == pre.data.classes[pre.index.slots[j].class as int].blocks[pre.index.slots[j].block as int]
                &&& (ns.len > 0 && pre.index.slots[j].class == ns.class
                    ==> pre.index.slots[j].block != ns.block)
            },
        post.model@ == pre.model@.insert(ns.key@, (vals, rc)),
        post.count == pre.model@.dom().len() + (if pre.model@.contains_key(ns.key@) {
            0int
        } else {
            1int
        }),
    ensures
        post.wf(),
{
    let k = ns.key@;
    let cap = pre.index.cap();
    axiom_set_insert_len(pre.model@.dom(), k);
    assert(post.model@.dom() =~= pre.model@.dom().insert(k));
    // no occupied slot other than i holds k
    assert forall|j: int|
        0 <= j < cap && j != i && #[trigger] pre.index.slots[j].occupied implies pre.index.slots[j].key@
        != k by {
        if pre.index.slots[j].key@ == k {
            if pre.index.slots[i].occupied {
                assert(false);  // pre uniqueness
            } else {
                assert(pre.model@.contains_key(k));  // wf at j
                assert(false);
            }
        }
    }
    assert forall|j1: int, j2: int|
        0 <= j1 < cap && 0 <= j2 < cap && #[trigger] post.index.slots[j1].occupied
            && #[trigger] post.index.slots[j2].occupied && post.index.slots[j1].key@
            == post.index.slots[j2].key@ implies j1 == j2 by {
        if j1 != j2 {
            if j1 == i {
                assert(pre.index.slots[j2].key@ != k);
            } else if j2 == i {
                assert(pre.index.slots[j1].key@ != k);
            }
        }
    }
    assert forall|j: int|
        0 <= j < cap && #[trigger] post.index.slots[j].occupied implies post.index.in_window(
        post.index.slots[j].key@,
        j,
    ) by {
        crate::index_storage::lemma_window_stable(
            pre.index,
            post.index,
            post.index.slots[j].key@,
            j,
        );
        if j == i {
            if pre.index.slots[i].occupied {
                assert(pre.index.in_window(pre.index.slots[i].key@, i));
            }
        } else {
            assert(pre.index.in_window(pre.index.slots[j].key@, j));
        }
    }
    assert forall|j: int|
        0 <= j < cap && #[trigger] post.index.slots[j].occupied implies {
        &&& post.index.slots[j].key@.len() == 32
        &&& post.model@.contains_key(post.index.slots[j].key@)
        &&& post.model@[post.index.slots[j].key@] == post.slot_val(j)
        &&& post.slot_ok(j)
    } by {
        if j != i {
            assert(pre.index.slots[j].key@ != k);
            assert(post.model@[post.index.slots[j].key@] == pre.model@[pre.index.slots[j].key@]);
        }
    }
    assert forall|kk: Seq<u8>| #[trigger] post.model@.contains_key(kk) implies index_has_key(
        post.index,
        kk,
    ) by {
        reveal(index_has_key);
        if kk == k {
            assert(post.index.slots[i].occupied && post.index.slots[i].key@ == kk);
        } else {
            assert(pre.model@.contains_key(kk));
            assert(index_has_key(pre.index, kk));
            let ii = choose|ii: int|
                0 <= ii < cap && #[trigger] pre.index.slots[ii].occupied && pre.index.slots[ii].key@
                    == kk;
            assert(ii != i);
            assert(post.index.slots[ii].occupied && post.index.slots[ii].key@ == kk);
        }
    }
    assert forall|j1: int, j2: int|
        0 <= j1 < cap && 0 <= j2 < cap && j1 != j2 && #[trigger] post.index.slots[j1].occupied
            && #[trigger] post.index.slots[j2].occupied && post.index.slots[j1].len > 0
            && post.index.slots[j2].len > 0 && post.index.slots[j1].class
            == post.index.slots[j2].class implies post.index.slots[j1].block
        != post.index.slots[j2].block by {
        if j1 == i || j2 == i {
        } else {
            assert(pre.index.slots[j1].occupied && pre.index.slots[j2].occupied);
        }
    }
}

/// Clearing one slot (and having freed only its block) keeps the shard
/// invariant and realizes a ghost-map removal.
#[verifier::rlimit(100)]
#[verifier::spinoff_prover]
proof fn lemma_delete<T: Copy>(pre: Bucket<T>, post: Bucket<T>, i: int, ns: IndexSlot, k: Seq<u8>)
    requires
        pre.wf(),
        0 <= i < pre.index.cap(),
        pre.index.slots[i].occupied,
        pre.index.slots[i].key@ == k,
        !ns.occupied,
        post.index.slots@ == pre.index.slots@.update(i, ns),
        post.index.pow == pre.index.pow,
        post.index.shard_bits == pre.index.shard_bits,
        post.index.max_search == pre.index.max_search,
        post.data.wf(),
        post.data.max_search == pre.data.max_search,
        post.data.init_pow == pre.data.init_pow,
        post.data.classes.len() >= pre.data.classes.len(),
        forall|j: int|
            0 <= j < pre.index.cap() && j != i && #[trigger] pre.index.slots[j].occupied
                && pre.index.slots[j].len > 0 ==> {
                &&& (pre.index.slots[j].block as int) < post.data.classes[pre.index.slots[j].class as int].blocks.len()
                &&& post.data.classes[pre.index.slots[j].class as int].blocks[pre.index.slots[j].block as int]
                    == pre.data.classes[pre.index.slots[j].class as int].blocks[pre.index.slots[j].block as int]
            },
        post.model@ == pre.model@.remove(k),
        post.count == pre.model@.dom().len() - 1,
    ensures
        post.wf(),
{
    let cap = pre.index.cap();
    assert(pre.model@.contains_key(k));
    pre.model@.lemma_remove_key_len(k);
    assert forall|j: int|
        0 <= j < cap && j != i && #[trigger] pre.index.slots[j].occupied implies pre.index.slots[j].key@
        != k by {}
    assert forall|j: int|
        0 <= j < cap && #[trigger] post.index.slots[j].occupied implies {
        &&& post.index.slots[j].key@.len() == 32
        &&& post.model@.contains_key(post.index.slots[j].key@)
        &&& post.model@[post.index.slots[j].key@] == post.slot_val(j)
        &&& post.slot_ok(j)
    } by {
        assert(j != i);
        assert(pre.index.slots[j].key@ != k);
    }
    assert forall|j: int|
        0 <= j < cap && #[trigger] post.index.slots[j].occupied implies post.index.in_window(
        post.index.slots[j].key@,
        j,
    ) by {
        crate::index_storage::lemma_window_stable(
            pre.index,
            post.index,
            post.index.slots[j].key@,
            j,
        );
        assert(j != i);
        assert(pre.index.in_window(pre.index.slots[j].key@, j));
    }
    assert forall|kk: Seq<u8>| #[trigger] post.model@.contains_key(kk) implies index_has_key(
        post.index,
        kk,
    ) by {
        reveal(index_has_key);
        assert(pre.model@.contains_key(kk));
        assert(index_has_key(pre.index, kk));
        let ii = choose|ii: int|
            0 <= ii < cap && #[trigger] pre.index.slots[ii].occupied && pre.index.slots[ii].key@
                == kk;
        assert(ii != i);
        assert(post.index.slots[ii].occupied && post.index.slots[ii].key@ == kk);
    }
}

/// Swapping in a rehashed index with the same occupied slot contents keeps
/// the shard invariant and the ghost map.
#[verifier::rlimit(100)]
#[verifier::spinoff_prover]
proof fn lemma_after_rehash<T: Copy>(pre: Bucket<T>, post: Bucket<T>)
    requires
        pre.wf(),
        post.data == pre.data,
        post.model == pre.model,
        post.count == pre.count,
        post.index.wf(),
        post.index.shard_bits == pre.index.shard_bits,
        post.index.max_search == pre.index.max_search,
        forall|i: int|
            0 <= i < pre.index.cap() && #[trigger] pre.index.slots[i].occupied ==> slot_in_prefix(
                post.index,
                post.index.cap(),
                pre.index.slots[i],
            ),
        forall|j: int|
            0 <= j < post.index.cap() && #[trigger] post.index.slots[j].occupied
                ==> slot_in_prefix(pre.index, pre.index.cap(), post.index.slots[j]),
    ensures
        post.wf(),
{
    let cap = post.index.cap();
    assert forall|j: int|
        0 <= j < cap && #[trigger] post.index.slots[j].occupied implies {
        &&& post.index.slots[j].key@.len() == 32
        &&& post.model@.contains_key(post.index.slots[j].key@)
        &&& post.model@[post.index.slots[j].key@] == post.slot_val(j)
        &&& post.slot_ok(j)
    } by {
        reveal(slot_in_prefix);
        assert(slot_in_prefix(pre.index, pre.index.cap(), post.index.slots[j]));
        let ii = choose|ii: int|
            0 <= ii < pre.index.cap() && ii < pre.index.cap()
                && #[trigger] pre.index.slots[ii].occupied && pre.index.slots[ii]
                == post.index.slots[j];
        assert(pre.model@[pre.index.slots[ii].key@] == pre.slot_val(ii));
    }
    assert forall|kk: Seq<u8>| #[trigger] post.model@.contains_key(kk) implies index_has_key(
        post.index,
        kk,
    ) by {
        reveal(index_has_key);
        reveal(slot_in_prefix);
        assert(index_has_key(pre.index, kk));
        let ii = choose|ii: int|
            0 <= ii < pre.index.cap() && #[trigger] pre.index.slots[ii].occupied
                && pre.index.slots[ii].key@ == kk;
        assert(slot_in_prefix(post.index, post.index.cap(), pre.index.slots[ii]));
        let jj = choose|jj: int|
            0 <= jj < post.index.cap() && jj < post.index.cap()
                && #[trigger] post.index.slots[jj].occupied && post.index.slots[jj]
                == pre.index.slots[ii];
        assert(post.index.slots[jj].occupied && post.index.slots[jj].key@ == kk);
    }
    assert forall|j1: int, j2: int|
        0 <= j1 < cap && 0 <= j2 < cap && j1 != j2 && #[trigger] post.index.slots[j1].occupied
            && #[trigger] post.index.slots[j2].occupied && post.index.slots[j1].len > 0
            && post.index.slots[j2].len > 0 && post.index.slots[j1].class
            == post.index.slots[j2].class implies post.index.slots[j1].block
        != post.index.slots[j2].block by {
        reveal(slot_in_prefix);
        assert(slot_in_prefix(pre.index, pre.index.cap(), post.index.slots[j1]));
        assert(slot_in_prefix(pre.index, pre.index.cap(), post.index.slots[j2]));
        let i1 = choose|i1: int|
            0 <= i1 < pre.index.cap() && i1 < pre.index.cap()
                && #[trigger] pre.index.slots[i1].occupied && pre.index.slots[i1]
                == post.index.slots[j1];
        let i2 = choose|i2: int|
            0 <= i2 < pre.index.cap() && i2 < pre.index.cap()
                && #[trigger] pre.index.slots[i2].occupied && pre.index.slots[i2]
                == post.index.slots[j2];
        if i1 == i2 {
            assert(post.index.slots[j1].key@ == post.index.slots[j2].key@);
            assert(false);
        }
    }
}

/// Extending the data heap without touching any referenced block keeps the
/// shard invariant.
proof fn lemma_data_resize<T: Copy>(pre: Bucket<T>, post: Bucket<T>)
    requires
        pre.wf(),
        post.index == pre.index,
        post.model == pre.model,
        post.count == pre.count,
        post.data.wf(),
        post.data.max_search == pre.data.max_search,
        post.data.init_pow == pre.data.init_pow,
        post.data.classes.len() >= pre.data.classes.len(),
        forall|j: int|
            0 <= j < pre.index.cap() && #[trigger] pre.index.slots[j].occupied
                && pre.index.slots[j].len > 0 ==> {
                &&& (pre.index.slots[j].block as int) < post.data.classes[pre.index.slots[j].class as int].blocks.len()
                &&& post.data.classes[pre.index.slots[j].class as int].blocks[pre.index.slots[j].block as int]
                    == pre.data.classes[pre.index.slots[j].class as int].blocks[pre.index.slots[j].block as int]
            },
    ensures
        post.wf(),
{
    assert forall|j: int|
        0 <= j < post.index.cap() && #[trigger] post.index.slots[j].occupied implies {
        &&& post.model@[post.index.slots[j].key@] == post.slot_val(j)
        &&& post.slot_ok(j)
    } by {
        assert(pre.index.slots[j].occupied);
    }
}


impl<T: Copy> Bucket<T> {
    /// A fresh, empty shard.  Regions start at the smallest power of two
    /// that covers the probe window (at least 32 index slots).
    pub fn new(shard_bits: u8, max_search: u8) -> (r: Bucket<T>)
        requires
            shard_bits <= 62,
            max_search >= 1,
        ensures
            r.wf(),
            r.model@ == Map::<Seq<u8>, (Seq<T>, u64)>::empty(),
            r.count == 0,
            r.index.shard_bits == shard_bits,
            r.index.max_search == max_search as usize,
            r.data.classes.len() == 0,
            forall|k: Seq<u8>| r.index.has_free_slot(k),
    {
        proof {
            lemma2_to64();
        }
        let mut p: u8 = 5;
        let mut c: u64 = 32;
        while c < max_search as u64
            invariant
                5 <= p <= 8,
                c == pow2(p as nat),
                max_search <= 255,
            decreases 8 - p,
        {
            proof {
                lemma2_to64();
                if p >= 8 {
                    assert(c == 256);
                    assert(false);
                }
                vstd::arithmetic::power2::lemma_pow2_adds(p as nat, 1);
            }
            c = c * 2;
            p = p + 1;
        }
        let empty_slot = IndexSlot {
            occupied: false,
            key: Pubkey::new_from_array([0u8; 32]),
            ref_count: 0,
            class: 0,
            block: 0,
            len: 0,
        };
        let mut slots: Vec<IndexSlot> = Vec::new();
        while (slots.len() as u64) < c
            invariant
                slots.len() as u64 <= c,
                !empty_slot.occupied,
                forall|j: int| 0 <= j < slots.len() ==> !(#[trigger] slots[j].occupied),
            decreases c - slots.len() as u64,
        {
            slots.push(empty_slot);
        }
        let index = IndexStorage { slots, pow: p, shard_bits, max_search: max_search as usize };
        let data = DataStorage::<T> {
            classes: Vec::new(),
            max_search: max_search as usize,
            init_pow: p,
        };
        let b = Bucket { index, data, count: 0, model: Ghost(Map::empty()) };
        proof {
            assert(b.model@.dom() =~= Set::<Seq<u8>>::empty());
            assert forall|k: Seq<u8>| b.index.has_free_slot(k) by {
                reveal(IndexStorage::has_free_slot);
                reveal(probe);
                b.index.lemma_home_in_range(k);
                let home = b.index.home_of(k);
                vstd::arithmetic::div_mod::lemma_small_mod(home as nat, b.index.cap() as nat);
                assert(!b.index.slots[probe(home, 0, b.index.cap())].occupied);
            }
        }
        b
    }

    /// Reads the value list and ref count of `key`, if present.
    pub fn read_value(&self, key: &Pubkey) -> (r: Option<(Vec<T>, u64)>)
        requires
            self.wf(),
        ensures
            match r {
                None => !self.model@.contains_key(key@),
                Some(p) => self.model@.contains_key(key@) && self.model@[key@] == (p.0@, p.1),
            },
    {
        match self.index.find(key) {
            None => {
                proof {
                    lemma_find_none_absent(*self, key@);
                }
                None
            },
            Some(i) => {
                let s = self.index.slots[i];
                let vals: Vec<T> = if s.len == 0 {
                    Vec::new()
                } else {
                    self.data.read_block(s.class, s.block)
                };
                Some((vals, s.ref_count))
            },
        }
    }

    /// The number of keys the shard holds.
    pub fn bucket_len(&self) -> (r: u64)
        requires
            self.wf(),
        ensures
            r == self.model@.dom().len(),
    {
        self.count
    }

    /// One write attempt.  Succeeds in place when it can; otherwise asks
    /// for the one grow that unblocks it and leaves the shard unchanged.
    #[verifier::rlimit(100)]
    pub fn try_write(&mut self, key: &Pubkey, values: &[T], rc: u64) -> (r: Result<
        (),
        BucketMapError,
    >)
        requires
            old(self).wf(),
            values@.len() < 0x4000_0000_0000_0000,
        ensures
            final(self).wf(),
            final(self).same_shape(*old(self)),
            final(self).index.pow == old(self).index.pow,
            match r {
                Ok(()) => final(self).model@ == old(self).model@.insert(key@, (values@, rc)),
                Err(e) => {
                    &&& final(self).model@ == old(self).model@
                    &&& final(self).index == old(self).index
                    &&& final(self).data.classes.len() >= old(self).data.classes.len()
                    &&& forall|cc: int|
                        0 <= cc < old(self).data.classes.len() ==> final(self).data.classes[cc]
                            == old(self).data.classes[cc]
                    &&& forall|cc: int|
                        old(self).data.classes.len() <= cc < final(self).data.classes.len()
                            ==> (#[trigger] final(self).data.classes[cc]).blocks.len() == 0
                    &&& match e {
                        BucketMapError::DataNoSpace(p) => {
                            &&& p.0 == size_class(values@.len() as nat) as u64
                            &&& p.0 <= 62
                            &&& (p.0 as int) < final(self).data.classes.len()
                            &&& p.1 >= final(self).data.init_pow
                            &&& p.1 <= 62
                            &&& pow2(p.1 as nat) > final(self).data.classes[p.0 as int].blocks.len()
                            &&& (final(self).model@.contains_key(key@)
                                || final(self).index.has_free_slot(key@))
                            &&& (final(self).data.classes[p.0 as int].blocks.len() == 0 ==> p.1
                                == final(self).data.init_pow)
                            &&& (final(self).data.classes[p.0 as int].blocks.len() > 0 ==> pow2(
                                p.1 as nat,
                            ) == 2 * final(self).data.classes[p.0 as int].blocks.len())
                        },
                        BucketMapError::IndexNoSpace(t) => {
                            &&& t == old(self).index.pow + 1
                            &&& !final(self).model@.contains_key(key@)
                            &&& !final(self).index.has_free_slot(key@)
                        },
                    }
                },
            },
            old(self).can_write(key@, values@.len() as nat) ==> r is Ok,
            r is Ok ==> old(self).can_write(key@, values@.len() as nat),
            r is Err ==> forall|n: nat|
                #[trigger] final(self).can_write(key@, n) == old(self).can_write(key@, n),
    {
        let ghost pre = *self;
        match self.index.find(key) {
            Some(i) => {
                let s = self.index.slots[i];
                if values.len() == 0 {
                    if s.len > 0 {
                        self.data.free_block(s.class, s.block);
                    }
                    let ns = IndexSlot {
                        occupied: true,
                        key: *key,
                        ref_count: rc,
                        class: 0,
                        block: 0,
                        len: 0,
                    };
                    self.index.set_slot(i, ns);
                    self.model = Ghost(self.model@.insert(key@, (values@, rc)));
                    proof {
                        lemma_commit(pre, *self, i as int, ns, values@, rc);
                    }
                    Ok(())
                } else {
                    let (c_new, _cap) = size_class_exec(values.len());
                    if s.len > 0 && c_new == s.class {
                        self.data.write_block(s.class, s.block, values);
                        let ns = IndexSlot {
                            occupied: true,
                            key: *key,
                            ref_count: rc,
                            class: s.class,
                            block: s.block,
                            len: values.len(),
                        };
                        self.index.set_slot(i, ns);
                        self.model = Ghost(self.model@.insert(key@, (values@, rc)));
                        proof {
                            lemma_commit(pre, *self, i as int, ns, values@, rc);
                        }
                        Ok(())
                    } else {
                        match self.data.alloc_block(c_new) {
                            Err(t) => {
                                proof {
                                    lemma_data_resize(pre, *self);
                                    lemma_free_window_stable(pre.data, self.data);
                                    assert(pre.model@[key@] == pre.slot_val(i as int));
                                }
                                Err(BucketMapError::DataNoSpace((c_new as u64, t)))
                            },
                            Ok(b) => {
                                self.data.write_block(c_new, b, values);
                                if s.len > 0 {
                                    self.data.free_block(s.class, s.block);
                                }
                                let ns = IndexSlot {
                                    occupied: true,
                                    key: *key,
                                    ref_count: rc,
                                    class: c_new,
                                    block: b,
                                    len: values.len(),
                                };
                                self.index.set_slot(i, ns);
                                self.model = Ghost(self.model@.insert(key@, (values@, rc)));
                                proof {
                                    lemma_commit(pre, *self, i as int, ns, values@, rc);
                                }
                                Ok(())
                            },
                        }
                    }
                }
            },
            None => {
                proof {
                    lemma_find_none_absent(*self, key@);
                }
                match self.index.find_free(key) {
                    None => {
                        proof {
                            reveal(IndexStorage::has_free_slot);
                        }
                        Err(BucketMapError::IndexNoSpace(self.index.pow + 1))
                    },
                    Some(j) => {
                        proof {
                            reveal(IndexStorage::has_free_slot);
                            reveal(IndexStorage::in_window);
                            lemma_dom_le_cap(pre);
                            lemma_pow2_strictly_increases(pre.index.pow as nat, 63);
                            lemma2_to64();
                            lemma2_to64_rest();
                        }
                        if values.len() == 0 {
                            let ns = IndexSlot {
                                occupied: true,
                                key: *key,
                                ref_count: rc,
                                class: 0,
                                block: 0,
                                len: 0,
                            };
                            self.index.set_slot(j, ns);
                            self.count = self.count + 1;
                            self.model = Ghost(self.model@.insert(key@, (values@, rc)));
                            proof {
                                lemma_commit(pre, *self, j as int, ns, values@, rc);
                            }
                            Ok(())
                        } else {
                            let (c_new, _cap) = size_class_exec(values.len());
                            match self.data.alloc_block(c_new) {
                                Err(t) => {
                                    proof {
                                        lemma_data_resize(pre, *self);
                                        lemma_free_window_stable(pre.data, self.data);
                                    }
                                    Err(BucketMapError::DataNoSpace((c_new as u64, t)))
                                },
                                Ok(b) => {
                                    self.data.write_block(c_new, b, values);
                                    let ns = IndexSlot {
                                        occupied: true,
                                        key: *key,
                                        ref_count: rc,
                                        class: c_new,
                                        block: b,
                                        len: values.len(),
                                    };
                                    self.index.set_slot(j, ns);
                                    self.count = self.count + 1;
                                    self.model = Ghost(self.model@.insert(key@, (values@, rc)));
                                    proof {
                                        lemma_commit(pre, *self, j as int, ns, values@, rc);
                                    }
                                    Ok(())
                                },
                            }
                        }
                    },
                }
            },
        }
    }

    /// Grows the storage axis a failed write asked for.  A request that
    /// was already satisfied is a no-op; growing never changes the shard's
    /// contents.
    pub fn grow(&mut self, err: BucketMapError)
        requires
            old(self).wf(),
        ensures
            final(self).wf(),
            final(self).same_shape(*old(self)),
            final(self).model@ == old(self).model@,
            match err {
                BucketMapError::DataNoSpace(p) => {
                    &&& final(self).index == old(self).index
                    &&& ((p.0 <= 62 && p.1 <= 61 && p.1 >= old(self).data.init_pow && ((p.0 as int)
                        >= old(self).data.classes.len() || old(self).data.classes[p.0 as int].blocks.len()
                        < pow2(p.1 as nat))) ==> final(self).data.free_in_window(p.0 as int))
                },
                BucketMapError::IndexNoSpace(t) => {
                    &&& final(self).data == old(self).data
                    &&& final(self).index.pow >= old(self).index.pow
                    &&& (old(self).index.pow < t <= 61 ==> (final(self).index.pow > old(
                        self,
                    ).index.pow || old(self).index.occupied_slots().len() >= old(
                        self,
                    ).index.max_search))
                },
            },
    {
        let ghost pre = *self;
        match err {
            BucketMapError::DataNoSpace((c64, t)) => {
                if c64 <= 62 {
                    self.data.grow_class(c64 as u8, t);
                    proof {
                        lemma_pow2_pos(t as nat);
                        lemma_data_resize(pre, *self);
                    }
                }
            },
            BucketMapError::IndexNoSpace(t) => {
                if t <= self.index.pow {
                    // already grown at least that far: a stale request
                    return ;
                }
                let mut target: u8 = t;
                let mut tries: u8 = 0;
                while tries < 16
                    invariant
                        *self == *old(self),
                        pre == *old(self),
                        pre.wf(),
                        target > pre.index.pow,
                        err == (BucketMapError::IndexNoSpace(t)),
                        t > pre.index.pow,
                        target == t + tries,
                        tries > 0 ==> pre.index.occupied_slots().len()
                            >= pre.index.max_search,
                    decreases 16 - tries,
                {
                    if target > 61 {
                        return ;
                    }
                    let attempt = self.index.rehash_attempt(target);
                    match attempt {
                        Some(n) => {
                            self.index = n;
                            proof {
                                lemma_after_rehash(pre, *self);
                            }
                            return ;
                        },
                        None => {
                            target = target + 1;
                            tries = tries + 1;
                        },
                    }
                }
            },
        }
    }

    /// Writes `values` with ref count `rc` under `key`, growing and
    /// retrying as needed, up to a fixed number of grow rounds.
    pub fn insert(&mut self, key: &Pubkey, values: &[T], rc: u64) -> (r: Result<
        (),
        BucketMapError,
    >)
        requires
            old(self).wf(),
            values@.len() < 0x4000_0000_0000_0000,
        ensures
            final(self).wf(),
            final(self).same_shape(*old(self)),
            match r {
                Ok(()) => final(self).model@ == old(self).model@.insert(key@, (values@, rc)),
                Err(_) => final(self).model@ == old(self).model@,
            },
            old(self).can_write(key@, values@.len() as nat) ==> r is Ok,
            old(self).write_ready(key@, values@.len() as nat) ==> r is Ok,
    {
        let mut tries: usize = 0;
        while tries < 32
            invariant
                self.wf(),
                self.same_shape(*old(self)),
                self.model@ == old(self).model@,
                values@.len() < 0x4000_0000_0000_0000,
                tries > 0 ==> !old(self).can_write(key@, values@.len() as nat),
                tries == 0 ==> *self == *old(self),
                tries == 1 && old(self).write_ready(key@, values@.len() as nat)
                    ==> self.can_write(key@, values@.len() as nat),
                tries >= 2 ==> !old(self).write_ready(key@, values@.len() as nat),
            decreases 32 - tries,
        {
            let res = self.try_write(key, values, rc);
            let ghost s1 = *self;
            match res {
                Ok(()) => {
                    return Ok(());
                },
                Err(e) => {
                    self.grow(e);
                    proof {
                        if tries == 0 && old(self).write_ready(key@, values@.len() as nat) {
                            let n = values@.len() as nat;
                            let b0 = *old(self);
                            if n == 0 {
                                assert(b0.can_write(key@, n));
                                assert(false);
                            }
                            match e {
                                BucketMapError::IndexNoSpace(_) => {
                                    assert(false);
                                },
                                BucketMapError::DataNoSpace(p) => {
                                    lemma2_to64_rest();
                                    crate::math::lemma_size_class_le(n, 62);
                                    let c = p.0 as int;
                                    assert(c == size_class(n));
                                    let len1 = s1.data.classes[c].blocks.len() as int;
                                    if len1 == 0 {
                                        assert(p.1 <= 61);
                                    } else {
                                        assert(c < b0.data.classes.len());
                                        assert(b0.data.classes[c].blocks.len() == len1);
                                        assert(len1 < pow2(61));
                                        assert(pow2(p.1 as nat) == 2 * len1);
                                        vstd::arithmetic::power2::lemma_pow2_adds(61, 1);
                                        lemma2_to64();
                                        if p.1 >= 62 {
                                            if p.1 > 62 {
                                                lemma_pow2_strictly_increases(62, p.1 as nat);
                                            }
                                            assert(false);
                                        }
                                    }
                                    assert(self.data.free_in_window(c));
                                    assert(self.can_write(key@, n));
                                },
                            }
                        }
                    }
                },
            }
            tries = tries + 1;
        }
        self.try_write(key, values, rc)
    }

    /// Removes `key`: frees its block, clears its slot.  Absent keys are a
    /// silent no-op.
    pub fn delete_key(&mut self, key: &Pubkey)
        requires
            old(self).wf(),
        ensures
            final(self).wf(),
            final(self).same_shape(*old(self)),
            final(self).model@ == old(self).model@.remove(key@),
            forall|n: nat|
                old(self).write_ready(key@, n) ==> #[trigger] final(self).write_ready(key@, n),
    {
        let ghost pre = *self;
        match self.index.find(key) {
            None => {
                proof {
                    lemma_find_none_absent(*self, key@);
                    assert(self.model@.remove(key@) =~= self.model@);
                }
            },
            Some(i) => {
                let s = self.index.slots[i];
                if s.len > 0 {
                    self.data.free_block(s.class, s.block);
                }
                let ns = IndexSlot {
                    occupied: false,
                    key: s.key,
                    ref_count: 0,
                    class: 0,
                    block: 0,
                    len: 0,
                };
                self.index.set_slot(i, ns);
                proof {
                    pre.model@.lemma_remove_key_len(key@);
                }
                self.count = self.count - 1;
                self.model = Ghost(self.model@.remove(key@));
                proof {
                    lemma_delete(pre, *self, i as int, ns, key@);
                    reveal(IndexStorage::has_free_slot);
                    reveal(IndexStorage::in_window);
                    assert(pre.index.in_window(key@, i as int));
                    let d = choose|d: int|
                        0 <= d < pre.index.max_search && i as int == #[trigger] probe(
                            pre.index.home_of(key@),
                            d,
                            pre.index.cap(),
                        );
                    assert(!self.index.slots[probe(
                        self.index.home_of(key@),
                        d,
                        self.index.cap(),
                    )].occupied);
                    assert(self.index.has_free_slot(key@));
                    assert forall|n: nat| pre.write_ready(key@, n) implies #[trigger] self.write_ready(
                        key@,
                        n,
                    ) by {
                        if n > 0 {
                            let c = size_class(n) as int;
                            if 0 <= c < pre.data.classes.len() {
                                assert(self.data.classes[c].blocks.len()
                                    == pre.data.classes[c].blocks.len());
                            }
                        }
                    }
                }
            },
        }
    }

    /// Adds one to `key`'s ref count (saturating at the counter's maximum)
    /// and returns the new count; `None` if the key is absent.
    pub fn addref(&mut self, key: &Pubkey) -> (r: Option<u64>)
        requires
            old(self).wf(),
        ensures
            final(self).wf(),
            final(self).same_shape(*old(self)),
            match r {
                None => !old(self).model@.contains_key(key@) && final(self).model@ == old(
                    self,
                ).model@,
                Some(n) => {
                    &&& old(self).model@.contains_key(key@)
                    &&& n == if old(self).model@[key@].1 < u64::MAX {
                        old(self).model@[key@].1 + 1
                    } else {
                        u64::MAX as int
                    }
                    &&& final(self).model@ == old(self).model@.insert(
                        key@,
                        (old(self).model@[key@].0, n),
                    )
                },
            },
    {
        let ghost pre = *self;
        match self.index.find(key) {
            None => {
                proof {
                    lemma_find_none_absent(*self, key@);
                }
                None
            },
            Some(i) => {
                let s = self.index.slots[i];
                let nrc = if s.ref_count < u64::MAX {
                    s.ref_count + 1
                } else {
                    u64::MAX
                };
                let ns = IndexSlot { ref_count: nrc, ..s };
                self.index.set_slot(i, ns);
                self.model = Ghost(self.model@.insert(key@, (self.model@[key@].0, nrc)));
                proof {
                    assert(pre.model@[key@] == pre.slot_val(i as int));
                    lemma_commit(pre, *self, i as int, ns, pre.model@[key@].0, nrc);
                }
                Some(nrc)
            },
        }
    }

    /// Subtracts one from `key`'s ref count (a count of zero stays zero)
    /// and returns the new count; `None` if the key is absent.
    pub fn unref(&mut self, key: &Pubkey) -> (r: Option<u64>)
        requires
            old(self).wf(),
        ensures
            final(self).wf(),
            final(self).same_shape(*old(self)),
            match r {
                None => !old(self).model@.contains_key(key@) && final(self).model@ == old(
                    self,
                ).model@,
                Some(n) => {
                    &&& old(self).model@.contains_key(key@)
                    &&& n == if old(self).model@[key@].1 > 0 {
                        old(self).model@[key@].1 - 1
                    } else {
                        0int
                    }
                    &&& final(self).model@ == old(self).model@.insert(
                        key@,
                        (old(self).model@[key@].0, n),
                    )
                },
            },
    {
        let ghost pre = *self;
        match self.index.find(key) {
            None => {
                proof {
                    lemma_find_none_absent(*self, key@);
                }
                None
            },
            Some(i) => {
                let s = self.index.slots[i];
                let nrc = if s.ref_count > 0 {
                    s.ref_count - 1
                } else {
                    0
                };
                let ns = IndexSlot { ref_count: nrc, ..s };
                self.index.set_slot(i, ns);
                self.model = Ghost(self.model@.insert(key@, (self.model@[key@].0, nrc)));
                proof {
                    assert(pre.model@[key@] == pre.slot_val(i as int));
                    lemma_commit(pre, *self, i as int, ns, pre.model@[key@].0, nrc);
                }
                Some(nrc)
            },
        }
    }
}


impl<T: Copy> Bucket<T> {
    /// Reads the current entry of `key`, hands it to `updatefn`, and
    /// applies the outcome: a new value list replaces the entry, `None`
    /// deletes the key.
    pub fn update<F: Fn(Option<(&[T], u64)>) -> Option<(Vec<T>, u64)>>(
        &mut self,
        key: &Pubkey,
        updatefn: F,
    ) -> (r: Result<(), BucketMapError>)
        requires
            old(self).wf(),
            forall|a: Option<(&[T], u64)>| #[trigger] call_requires(updatefn, (a,)),
        ensures
            final(self).wf(),
            final(self).same_shape(*old(self)),
            exists|arg: Option<(&[T], u64)>, res: Option<(Vec<T>, u64)>|
                {
                    &&& match arg {
                        None => !old(self).model@.contains_key(key@),
                        Some(p) => old(self).model@.contains_key(key@) && old(self).model@[key@]
                            == (p.0@, p.1),
                    }
                    &&& #[trigger] call_ensures(updatefn, (arg,), res)
                    &&& match res {
                        None => r is Ok && final(self).model@ == old(self).model@.remove(key@),
                        Some(q) => ((r is Ok && final(self).model@ == old(self).model@.insert(
                            key@,
                            (q.0@, q.1),
                        )) || (r is Err && final(self).model@ == old(self).model@)) && (old(
                            self,
                        ).write_ready(key@, q.0@.len() as nat) && q.0@.len()
                            < 0x4000_0000_0000_0000 ==> r is Ok),
                    }
                },
    {
        let cur = self.read_value(key);
        let arg: Option<(&[T], u64)> = match &cur {
            None => None,
            Some(p) => Some((p.0.as_slice(), p.1)),
        };
        let ghost garg = arg;
        let res = updatefn(arg);
        let ghost gres = res;
        match res {
            None => {
                self.delete_key(key);
                proof {
                    assert(call_ensures(updatefn, (garg,), gres));
                }
                Ok(())
            },
            Some((v, nrc)) => {
                let r = if (v.len() as u64) < 0x4000_0000_0000_0000u64 {
                    self.insert(key, v.as_slice(), nrc)
                } else {
                    Err(BucketMapError::DataNoSpace((63, 62)))
                };
                proof {
                    assert(call_ensures(updatefn, (garg,), gres));
                }
                r
            },
        }
    }

    /// The keys the shard holds, in internal slot order.
    pub fn keys(&self) -> (r: Vec<Pubkey>)
        requires
            self.wf(),
        ensures
            forall|j: int| 0 <= j < r@.len() ==> self.model@.contains_key(#[trigger] r@[j]@),
            forall|k: Seq<u8>|
                #[trigger] self.model@.contains_key(k) ==> exists|j: int|
                    0 <= j < r@.len() && #[trigger] r@[j]@ == k,
            forall|j1: int, j2: int|
                0 <= j1 < r@.len() && 0 <= j2 < r@.len() && j1 != j2 ==> r@[j1]@ != r@[j2]@,
    {
        let cap = self.index.slots.len();
        let mut out: Vec<Pubkey> = Vec::new();
        let ghost mut srcs: Seq<int> = Seq::empty();
        let mut i: usize = 0;
        while i < cap
            invariant
                self.wf(),
                cap == self.index.slots.len(),
                0 <= i <= cap,
                out@.len() == srcs.len(),
                forall|j: int|
                    0 <= j < srcs.len() ==> 0 <= #[trigger] srcs[j] < i
                        && self.index.slots[srcs[j]].occupied && self.index.slots[srcs[j]].key@
                        == out@[j]@,
                forall|j1: int, j2: int|
                    0 <= j1 < j2 < srcs.len() ==> #[trigger] srcs[j1] < #[trigger] srcs[j2],
                forall|ii: int|
                    0 <= ii < i && #[trigger] self.index.slots[ii].occupied ==> exists|j: int|
                        0 <= j < out@.len() && (#[trigger] out@[j])@ == self.index.slots[ii].key@,
            decreases cap - i,
        {
            let ghost out0 = out@;
            if self.index.slots[i].occupied {
                out.push(self.index.slots[i].key);
                proof {
                    srcs = srcs.push(i as int);
                }
            }
            proof {
                assert forall|ii: int|
                    0 <= ii < i + 1 && #[trigger] self.index.slots[ii].occupied implies exists|
                    j: int,
                |
                    0 <= j < out@.len() && (#[trigger] out@[j])@ == self.index.slots[ii].key@ by {
                    if ii < i as int {
                        let j = choose|j: int|
                            0 <= j < out0.len() && (#[trigger] out0[j])@
                                == self.index.slots[ii].key@;
                        assert(out@[j] == out0[j]);
                    } else {
                        assert((out@[out@.len() - 1])@ == self.index.slots[ii].key@);
                    }
                }
            }
            i = i + 1;
        }
        proof {
            assert forall|j: int| 0 <= j < out@.len() implies self.model@.contains_key(
                #[trigger] out@[j]@,
            ) by {
                assert(self.index.slots[srcs[j]].occupied);
            }
            assert forall|k: Seq<u8>| #[trigger] self.model@.contains_key(k) implies exists|j: int|
                0 <= j < out@.len() && #[trigger] out@[j]@ == k by {
                assert(index_has_key(self.index, k));
                reveal(index_has_key);
                let ii = choose|ii: int|
                    0 <= ii < self.index.cap() && #[trigger] self.index.slots[ii].occupied
                        && self.index.slots[ii].key@ == k;
            }
            assert forall|j1: int, j2: int|
                0 <= j1 < out@.len() && 0 <= j2 < out@.len() && j1 != j2 implies out@[j1]@
                != out@[j2]@ by {
                if out@[j1]@ == out@[j2]@ {
                    assert(self.index.slots[srcs[j1]].occupied
                        && self.index.slots[srcs[j2]].occupied);
                    assert(srcs[j1] == srcs[j2]);
                    if j1 < j2 {
                        assert(srcs[j1] < srcs[j2]);
                    } else {
                        assert(srcs[j2] < srcs[j1]);
                    }
                }
            }
        }
        out
    }

    /// The entries of the shard whose keys fall in `range` (all of them
    /// when `range` is `None`), in internal slot order.
    pub fn items_in_range(&self, range: &Option<crate::pubkey::PubkeyRange>) -> (r: Vec<
        crate::bucket_item::BucketItem<T>,
    >)
        requires
            self.wf(),
        ensures
            forall|j: int|
                0 <= j < r@.len() ==> {
                    &&& self.model@.contains_key((#[trigger] r@[j]).pubkey@)
                    &&& crate::pubkey::in_key_range(r@[j].pubkey@, *range)
                    &&& self.model@[r@[j].pubkey@] == (r@[j].slot_list@, r@[j].ref_count)
                },
            forall|k: Seq<u8>|
                #[trigger] self.model@.contains_key(k) && crate::pubkey::in_key_range(k, *range)
                    ==> exists|j: int| 0 <= j < r@.len() && (#[trigger] r@[j]).pubkey@ == k,
            forall|j1: int, j2: int|
                0 <= j1 < r@.len() && 0 <= j2 < r@.len() && j1 != j2 ==> r@[j1].pubkey@
                    != r@[j2].pubkey@,
    {
        let cap = self.index.slots.len();
        let mut out: Vec<crate::bucket_item::BucketItem<T>> = Vec::new();
        let ghost mut srcs: Seq<int> = Seq::empty();
        let mut i: usize = 0;
        while i < cap
            invariant
                self.wf(),
                cap == self.index.slots.len(),
                0 <= i <= cap,
                out@.len() == srcs.len(),
                forall|j: int|
                    0 <= j < srcs.len() ==> 0 <= #[trigger] srcs[j] < i
                        && self.index.slots[srcs[j]].occupied && self.index.slots[srcs[j]].key@
                        == out@[j].pubkey@,
                forall|j: int|
                    0 <= j < out@.len() ==> {
                        &&& crate::pubkey::in_key_range((#[trigger] out@[j]).pubkey@, *range)
                        &&& self.model@.contains_key(out@[j].pubkey@)
                        &&& self.model@[out@[j].pubkey@] == (out@[j].slot_list@, out@[j].ref_count)
                    },
                forall|j1: int, j2: int|
                    0 <= j1 < j2 < srcs.len() ==> #[trigger] srcs[j1] < #[trigger] srcs[j2],
                forall|ii: int|
                    0 <= ii < i && #[trigger] self.index.slots[ii].occupied
                        && crate::pubkey::in_key_range(self.index.slots[ii].key@, *range)
                        ==> exists|j: int|
                        0 <= j < out@.len() && (#[trigger] out@[j]).pubkey@
                            == self.index.slots[ii].key@,
            decreases cap - i,
        {
            let s = self.index.slots[i];
            let ghost out0 = out@;
            if s.occupied && crate::pubkey::key_in_range(&s.key, range) {
                let vals: Vec<T> = if s.len == 0 {
                    Vec::new()
                } else {
                    self.data.read_block(s.class, s.block)
                };
                out.push(
                    crate::bucket_item::BucketItem {
                        pubkey: s.key,
                        ref_count: s.ref_count,
                        slot_list: vals,
                    },
                );
                proof {
                    srcs = srcs.push(i as int);
                }
            }
            proof {
                assert forall|ii: int|
                    0 <= ii < i + 1 && #[trigger] self.index.slots[ii].occupied
                        && crate::pubkey::in_key_range(self.index.slots[ii].key@, *range)
                    implies exists|j: int|
                    0 <= j < out@.len() && (#[trigger] out@[j]).pubkey@
                        == self.index.slots[ii].key@ by {
                    if ii < i as int {
                        let j = choose|j: int|
                            0 <= j < out0.len() && (#[trigger] out0[j]).pubkey@
                                == self.index.slots[ii].key@;
                        assert(out@[j] == out0[j]);
                    } else {
                        assert((out@[out@.len() - 1]).pubkey@ == self.index.slots[ii].key@);
                    }
                }
            }
            i = i + 1;
        }
        proof {
            assert forall|k: Seq<u8>|
                #[trigger] self.model@.contains_key(k) && crate::pubkey::in_key_range(
                    k,
                    *range,
                ) implies exists|j: int| 0 <= j < out@.len() && (#[trigger] out@[j]).pubkey@
                == k by {
                assert(index_has_key(self.index, k));
                reveal(index_has_key);
                let ii = choose|ii: int|
                    0 <= ii < self.index.cap() && #[trigger] self.index.slots[ii].occupied
                        && self.index.slots[ii].key@ == k;
            }
            assert forall|j1: int, j2: int|
                0 <= j1 < out@.len() && 0 <= j2 < out@.len() && j1 != j2 implies out@[j1].pubkey@
                != out@[j2].pubkey@ by {
                if out@[j1].pubkey@ == out@[j2].pubkey@ {
                    assert(self.index.slots[srcs[j1]].occupied
                        && self.index.slots[srcs[j2]].occupied);
                    assert(srcs[j1] == srcs[j2]);
                    if j1 < j2 {
                        assert(srcs[j1] < srcs[j2]);
                    } else {
                        assert(srcs[j2] < srcs[j1]);
                    }
                }
            }
        }
        out
    }
}

} // verus!
