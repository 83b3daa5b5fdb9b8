//! The shard router: a fixed, power-of-two array of buckets selected by the
//! high bits of the key's 64-bit big-endian prefix.  The router's view is a
//! single map from key bytes to `(value list, ref count)`.

use vstd::prelude::*;
use vstd::arithmetic::power2::pow2;
use vstd::arithmetic::power2::lemma_pow2_pos;
use vstd::arithmetic::power2::lemma_pow2_adds;
use vstd::arithmetic::power2::lemma_pow2_strictly_increases;
use vstd::arithmetic::div_mod::lemma_multiply_divide_lt;
use vstd::arithmetic::div_mod::lemma_div_pos_is_pos;
use crate::math::be_u64_of;
use crate::math::lemma_be_val_bound;
use crate::math::pow2_u64;
use crate::math::size_class;
use crate::math::lemma_size_class_le;
use vstd::arithmetic::power2::lemma2_to64;
use vstd::arithmetic::power2::lemma2_to64_rest;
use crate::bucket::Bucket;
use crate::bucket_item::BucketItem;
use crate::pubkey::Pubkey;
use crate::pubkey::PubkeyRange;
use crate::pubkey::in_key_range;
use crate::RefCount;
use crate::MaxSearch;

pub use crate::math::read_be_u64;

verus! {

/// A typed request to grow one storage axis of a shard.
#[derive(Clone, Copy, Debug)]
pub enum BucketMapError {
    /// The data heap of one segregation class is out of blocks: carries
    /// `(class, power the class region must grow to)`.
    DataNoSpace((u64, u8)),
    /// The index table is out of probe-window room: carries the power the
    /// table must grow to.
    IndexNoSpace(u8),
}

/// Configuration of a map: the shard count (a power of two), optional
/// directories for deployments that place shard files themselves, and an
/// optional probe-window bound.
#[derive(Debug, Default, Clone)]
pub struct BucketMapConfig {
    pub max_buckets: usize,
    pub drives: Option<Vec<String>>,
    pub max_search: Option<MaxSearch>,
}

impl BucketMapConfig {
    /// A configuration with `max_buckets` shards and every other knob at
    /// its default.  The map requires `max_buckets` to be a power of two.
    pub fn new(max_buckets: usize) -> (r: BucketMapConfig)
        ensures
            r.max_buckets == max_buckets,
            r.drives is None,
            r.max_search is None,
    {
        BucketMapConfig { max_buckets, drives: None, max_search: None }
    }
}

/// The shard a key with bytes `k` belongs to: the top `shard_bits` bits of
/// the first eight bytes read big-endian.
pub open spec fn bucket_ix_spec(k: Seq<u8>, shard_bits: u8) -> int {
    if shard_bits == 0 {
        0
    } else {
        be_u64_of(k) as int / pow2((64 - shard_bits) as nat) as int
    }
}

/// The shard index is always in range for a 32-byte key.
pub proof fn lemma_bucket_ix_range(k: Seq<u8>, shard_bits: u8)
    requires
        k.len() >= 8,
        shard_bits <= 62,
    ensures
        0 <= bucket_ix_spec(k, shard_bits) < pow2(shard_bits as nat),
{
    lemma_pow2_pos(shard_bits as nat);
    if shard_bits > 0 {
        let v = be_u64_of(k) as int;
        let d = pow2((64 - shard_bits) as nat) as int;
        let b = pow2(shard_bits as nat) as int;
        lemma_be_val_bound(k, 8);
        lemma_pow2_adds((64 - shard_bits) as nat, shard_bits as nat);
        lemma_pow2_pos((64 - shard_bits) as nat);
        assert(v < d * b) by {
            assert(d * b == pow2(64));
        }
        lemma_multiply_divide_lt(v, d, b);
        lemma_div_pos_is_pos(v, d);
    }
}

/// The sharded map.  Its view is the union of the shards' ghost maps; each
/// key lives in exactly the shard its prefix selects.
pub struct BucketMap<T: Copy> {
    buckets: Vec<Bucket<T>>,
    max_buckets_pow2: u8,
    max_search: MaxSearch,
}

impl<T: Copy> View for BucketMap<T> {
    type V = Map<Seq<u8>, (Seq<T>, u64)>;

    closed spec fn view(&self) -> Map<Seq<u8>, (Seq<T>, u64)> {
        Map::new(
            |k: Seq<u8>|
                k.len() == 32 && self.buckets@[bucket_ix_spec(k, self.max_buckets_pow2)].model@.contains_key(
                    k,
                ),
            |k: Seq<u8>| self.buckets@[bucket_ix_spec(k, self.max_buckets_pow2)].model@[k],
        )
    }
}

impl<T: Copy> BucketMap<T> {
    /// The shard index of key bytes `k`.
    pub closed spec fn shard_of(&self, k: Seq<u8>) -> int {
        bucket_ix_spec(k, self.max_buckets_pow2)
    }

    /// The number of shards.
    pub closed spec fn num_buckets_spec(&self) -> int {
        self.buckets@.len() as int
    }

    /// The keys the map holds in shard `ix`.
    pub closed spec fn shard_keys(&self, ix: int) -> Set<Seq<u8>> {
        self.buckets@[ix].model@.dom()
    }

    /// A write of `n` elements under key bytes `k` has room in its shard
    /// without growing.
    pub closed spec fn can_insert(&self, k: Seq<u8>, n: nat) -> bool {
        self.buckets@[self.shard_of(k)].can_write(k, n)
    }

    /// The exponent of the shard count: keys are routed by this many top
    /// bits of their big-endian prefix.
    pub closed spec fn shard_bits_spec(&self) -> u8 {
        self.max_buckets_pow2
    }

    /// The key's shard can take a write of `n` elements after at most one
    /// grow of the named data class: its index holds the key or a free
    /// slot, and the class region is below its size ceiling.
    pub closed spec fn insert_ready(&self, k: Seq<u8>, n: nat) -> bool {
        self.buckets@[self.shard_of(k)].write_ready(k, n)
    }

    /// The power of shard `ix`'s index table: the table holds two to this
    /// many slots.
    pub closed spec fn shard_index_pow(&self, ix: int) -> u8 {
        self.buckets@[ix].index.pow
    }

    /// Shard `ix`'s table holds at least a full probe window of occupied
    /// slots, so a rehash into a larger table may still fail.
    pub closed spec fn shard_probe_saturated(&self, ix: int) -> bool {
        self.buckets@[ix].index.occupied_slots().len() >= self.buckets@[ix].index.max_search
    }

    /// Growing shard `ix` as `e` asks gives a write of `n` elements under
    /// `k` room: `e` names `k`'s own shard and `n`'s class with a target
    /// that enlarges the region, and the index side already has room.
    pub closed spec fn grow_unblocks(&self, ix: int, e: BucketMapError, k: Seq<u8>, n: nat) -> bool {
        let b = self.buckets@[ix];
        &&& 0 <= ix < self.buckets@.len()
        &&& self.shard_of(k) == ix
        &&& n < 0x4000_0000_0000_0000
        &&& (b.model@.contains_key(k) || b.index.has_free_slot(k))
        &&& match e {
            BucketMapError::DataNoSpace(p) => {
                &&& (n > 0 ==> p.0 == size_class(n) as u64)
                &&& p.0 <= 62
                &&& b.data.init_pow <= p.1 <= 61
                &&& ((p.0 as int) >= b.data.classes.len() || b.data.classes[p.0 as int].blocks.len()
                    < pow2(p.1 as nat))
            },
            BucketMapError::IndexNoSpace(_) => false,
        }
    }

    /// The map invariant: a power-of-two shard array whose shards are well
    /// formed, agree on the parameters, and hold exactly the keys routed
    /// to them.
    pub closed spec fn wf(&self) -> bool {
        &&& self.buckets@.len() == pow2(self.max_buckets_pow2 as nat)
        &&& self.max_buckets_pow2 <= 62
        &&& self.max_search >= 1
        &&& forall|i: int|
            0 <= i < self.buckets@.len() ==> {
                &&& (#[trigger] self.buckets@[i]).wf()
                &&& self.buckets@[i].index.shard_bits == self.max_buckets_pow2
                &&& self.buckets@[i].index.max_search == self.max_search as usize
            }
        &&& forall|i: int, k: Seq<u8>|
            0 <= i < self.buckets@.len() && #[trigger] self.buckets@[i].model@.contains_key(k)
                ==> k.len() == 32 && bucket_ix_spec(k, self.max_buckets_pow2) == i
    }
}

/// Keys are partitioned over the shards: a key's shard index is always
/// below the shard count, and no other shard ever holds the key.
pub proof fn lemma_shard_partition<T: Copy>(m: &BucketMap<T>, k: Seq<u8>)
    requires
        m.wf(),
        k.len() == 32,
    ensures
        0 <= m.shard_of(k) < m.num_buckets_spec(),
        forall|ix: int|
            0 <= ix < m.num_buckets_spec() && ix != m.shard_of(k) ==> !(
            #[trigger] m.shard_keys(ix)).contains(k),
        m@.contains_key(k) ==> m.shard_keys(m.shard_of(k)).contains(k),
{
    lemma_bucket_ix_range(k, m.max_buckets_pow2);
    assert forall|ix: int|
        0 <= ix < m.num_buckets_spec() && ix != m.shard_of(k) implies !(#[trigger] m.shard_keys(
        ix,
    )).contains(k) by {
        if m.buckets@[ix].model@.contains_key(k) {
            assert(bucket_ix_spec(k, m.max_buckets_pow2) == ix);
        }
    }
}

/// The routing formula: the shard count is two to the routing exponent,
/// and every key's shard index is the top bits of its big-endian prefix.
pub proof fn lemma_shard_formula<T: Copy>(m: &BucketMap<T>)
    requires
        m.wf(),
    ensures
        m.shard_bits_spec() <= 62,
        m.num_buckets_spec() == pow2(m.shard_bits_spec() as nat),
        forall|k: Seq<u8>| m.shard_of(k) == #[trigger] bucket_ix_spec(k, m.shard_bits_spec()),
{
}

/// A shard's key set is exactly the map's keys routed to it.
pub proof fn lemma_shard_keys_from_view<T: Copy>(m: &BucketMap<T>, ix: int)
    requires
        m.wf(),
        0 <= ix < m.num_buckets_spec(),
    ensures
        m.shard_keys(ix) == Set::new(|k: Seq<u8>| m@.contains_key(k) && m.shard_of(k) == ix),
{
    let s2 = Set::new(|k: Seq<u8>| m@.contains_key(k) && m.shard_of(k) == ix);
    assert forall|k: Seq<u8>| #[trigger] m.shard_keys(ix).contains(k) implies s2.contains(k) by {
        lemma_view_at(*m, k);
    }
    assert forall|k: Seq<u8>| #[trigger] s2.contains(k) implies m.shard_keys(ix).contains(k) by {
        lemma_view_at(*m, k);
    }
    assert(m.shard_keys(ix) =~= s2);
}

/// The view restricted to one key agrees with that key's shard.
proof fn lemma_view_at<T: Copy>(m: BucketMap<T>, k: Seq<u8>)
    requires
        m.wf(),
        k.len() == 32,
    ensures
        0 <= m.shard_of(k) < m.buckets@.len(),
        m@.contains_key(k) == m.buckets@[m.shard_of(k)].model@.contains_key(k),
        m@.contains_key(k) ==> m@[k] == m.buckets@[m.shard_of(k)].model@[k],
{
    lemma_bucket_ix_range(k, m.max_buckets_pow2);
}

/// Changing one shard's map to `bm` changes the view pointwise: an
/// insertion or removal of a key routed there, or nothing.
proof fn lemma_view_shard_change<T: Copy>(pre: BucketMap<T>, post: BucketMap<T>, ix: int)
    requires
        pre.wf(),
        post.wf(),
        post.max_buckets_pow2 == pre.max_buckets_pow2,
        post.buckets@.len() == pre.buckets@.len(),
        0 <= ix < pre.buckets@.len(),
        forall|j: int|
            0 <= j < pre.buckets@.len() && j != ix ==> (#[trigger] post.buckets@[j]).model@
                == pre.buckets@[j].model@,
    ensures
        forall|k: Seq<u8>|
            #[trigger] bucket_ix_spec(k, pre.max_buckets_pow2) != ix || k.len() != 32 ==> (
            post@.contains_key(k) == pre@.contains_key(k) && (pre@.contains_key(k) ==> post@[k]
                == pre@[k])),
        forall|k: Seq<u8>|
            k.len() == 32 && #[trigger] bucket_ix_spec(k, pre.max_buckets_pow2) == ix ==> (
            post@.contains_key(k) == post.buckets@[ix].model@.contains_key(k) && (
            post@.contains_key(k) ==> post@[k] == post.buckets@[ix].model@[k])
                && pre@.contains_key(k) == pre.buckets@[ix].model@.contains_key(k) && (
            pre@.contains_key(k) ==> pre@[k] == pre.buckets@[ix].model@[k])),
{
    assert forall|k: Seq<u8>|
        #[trigger] bucket_ix_spec(k, pre.max_buckets_pow2) != ix || k.len() != 32 implies (
    post@.contains_key(k) == pre@.contains_key(k) && (pre@.contains_key(k) ==> post@[k]
        == pre@[k])) by {
        if k.len() == 32 {
            lemma_bucket_ix_range(k, pre.max_buckets_pow2);
        }
    }
    assert forall|k: Seq<u8>|
        k.len() == 32 && #[trigger] bucket_ix_spec(k, pre.max_buckets_pow2) == ix implies (
    post@.contains_key(k) == post.buckets@[ix].model@.contains_key(k) && (post@.contains_key(k)
        ==> post@[k] == post.buckets@[ix].model@[k]) && pre@.contains_key(k)
        == pre.buckets@[ix].model@.contains_key(k) && (pre@.contains_key(k) ==> pre@[k]
        == pre.buckets@[ix].model@[k])) by {
        lemma_bucket_ix_range(k, pre.max_buckets_pow2);
    }
}

impl<T: Copy> BucketMap<T> {
    /// A fresh map with `config.max_buckets` shards (a power of two, at
    /// least one) and an empty view.
    pub fn new(config: BucketMapConfig) -> (r: BucketMap<T>)
        requires
            config.max_buckets >= 1,
            exists|p: nat| p <= 62 && config.max_buckets == pow2(p),
            match config.max_search {
                Some(m) => m >= 1,
                None => true,
            },
        ensures
            r.wf(),
            r@ == Map::<Seq<u8>, (Seq<T>, u64)>::empty(),
            r.num_buckets_spec() == config.max_buckets,
            forall|k: Seq<u8>, n: nat| k.len() == 32 ==> #[trigger] r.insert_ready(k, n),
            forall|k: Seq<u8>, n: nat|
                k.len() == 32 && n > 0 ==> !(#[trigger] r.can_insert(k, n)),
    {
        let max_search: u8 = match config.max_search {
            Some(m) => m,
            None => 32,
        };
        let mut p: u8 = 0;
        let mut c: usize = 1;
        proof {
            vstd::arithmetic::power2::lemma2_to64();
        }
        while c < config.max_buckets
            invariant
                c == pow2(p as nat),
                c >= 1,
                p <= 62,
                c <= config.max_buckets,
                exists|q: nat| q <= 62 && config.max_buckets == pow2(q),
            decreases config.max_buckets - c,
        {
            proof {
                vstd::arithmetic::power2::lemma2_to64();
                let q = choose|q: nat| q <= 62 && config.max_buckets == pow2(q);
                if p as nat >= q {
                    if p as nat > q {
                        lemma_pow2_strictly_increases(q, p as nat);
                    }
                    assert(false);
                }
                lemma_pow2_adds(p as nat, 1);
                if p as nat + 1 < q {
                    lemma_pow2_strictly_increases((p + 1) as nat, q);
                }
                assert(pow2((p + 1) as nat) <= pow2(q));
            }
            c = c * 2;
            p = p + 1;
        }
        let mut buckets: Vec<Bucket<T>> = Vec::new();
        while buckets.len() < config.max_buckets
            invariant
                p <= 62,
                max_search >= 1,
                buckets@.len() <= config.max_buckets,
                forall|i: int|
                    0 <= i < buckets@.len() ==> {
                        &&& (#[trigger] buckets@[i]).wf()
                        &&& buckets@[i].model@ == Map::<Seq<u8>, (Seq<T>, u64)>::empty()
                        &&& buckets@[i].index.shard_bits == p
                        &&& buckets@[i].index.max_search == max_search as usize
                        &&& buckets@[i].data.classes.len() == 0
                    },
                forall|i: int, k: Seq<u8>|
                    0 <= i < buckets@.len() ==> #[trigger] buckets@[i].index.has_free_slot(k),
            decreases config.max_buckets - buckets.len(),
        {
            let b = Bucket::<T>::new(p, max_search);
            buckets.push(b);
        }
        let m = BucketMap { buckets, max_buckets_pow2: p, max_search };
        proof {
            assert forall|k: Seq<u8>| true implies !(#[trigger] m@.contains_key(k)) by {
                if k.len() == 32 {
                    lemma_bucket_ix_range(k, p);
                }
            }
            assert(m@ =~= Map::<Seq<u8>, (Seq<T>, u64)>::empty());
            assert forall|k: Seq<u8>, n: nat| k.len() == 32 implies #[trigger] m.insert_ready(
                k,
                n,
            ) by {
                lemma_bucket_ix_range(k, p);
            }
            assert forall|k: Seq<u8>, n: nat| k.len() == 32 && n > 0 implies !(
            #[trigger] m.can_insert(k, n)) by {
                lemma_bucket_ix_range(k, p);
                reveal(crate::data_storage::DataStorage::free_in_window);
            }
        }
        m
    }

    /// The number of shards.
    pub fn num_buckets(&self) -> (r: usize)
        requires
            self.wf(),
        ensures
            r == self.num_buckets_spec(),
    {
        self.buckets.len()
    }

    /// The shard index of `key`: the top bits of its big-endian prefix.
    pub fn bucket_ix(&self, key: &Pubkey) -> (r: usize)
        requires
            self.wf(),
        ensures
            r == self.shard_of(key@),
            r < self.num_buckets_spec(),
    {
        proof {
            lemma_bucket_ix_range(key@, self.max_buckets_pow2);
        }
        if self.max_buckets_pow2 > 0 {
            let location = read_be_u64(key.as_bytes());
            let divisor = pow2_u64((64 - self.max_buckets_pow2) as u64);
            let q = location / divisor;
            let nb = self.buckets.len();
            proof {
                assert(q as int == bucket_ix_spec(key@, self.max_buckets_pow2));
                assert((q as int) < nb as int);
            }
            q as usize
        } else {
            0
        }
    }

    /// The number of keys shard `ix` holds.
    pub fn bucket_len(&self, ix: usize) -> (r: u64)
        requires
            self.wf(),
            ix < self.num_buckets_spec(),
        ensures
            r == self.shard_keys(ix as int).len(),
    {
        self.buckets[ix].bucket_len()
    }

    /// Reads the value list and ref count of `key`, if present.
    pub fn read_value(&self, key: &Pubkey) -> (r: Option<(Vec<T>, RefCount)>)
        requires
            self.wf(),
        ensures
            match r {
                None => !self@.contains_key(key@),
                Some(p) => self@.contains_key(key@) && self@[key@] == (p.0@, p.1),
            },
    {
        proof {
            lemma_view_at(*self, key@);
        }
        let ix = self.bucket_ix(key);
        self.buckets[ix].read_value(key)
    }

    /// Removes `key`; absent keys are a silent no-op.
    pub fn delete_key(&mut self, key: &Pubkey)
        requires
            old(self).wf(),
        ensures
            final(self).wf(),
            final(self)@ == old(self)@.remove(key@),
            final(self).num_buckets_spec() == old(self).num_buckets_spec(),
            forall|k: Seq<u8>| #[trigger] final(self).shard_of(k) == old(self).shard_of(k),
            forall|n: nat|
                old(self).insert_ready(key@, n) ==> #[trigger] final(self).insert_ready(key@, n),
    {
        let ghost pre = *self;
        proof {
            lemma_view_at(*self, key@);
        }
        let ix = self.bucket_ix(key);
        let b = &mut self.buckets[ix];
        b.delete_key(key);
        proof {
            assert forall|i: int, k: Seq<u8>|
                0 <= i < self.buckets@.len() && #[trigger] self.buckets@[i].model@.contains_key(
                    k,
                ) implies k.len() == 32 && bucket_ix_spec(k, self.max_buckets_pow2) == i by {
                assert(pre.buckets@[i].model@.contains_key(k));
            }
            lemma_view_shard_change(pre, *self, ix as int);
            assert forall|k: Seq<u8>| true implies #[trigger] self@.contains_key(k)
                == pre@.remove(key@).contains_key(k) && (self@.contains_key(k) ==> self@[k]
                == pre@.remove(key@)[k]) by {
                if bucket_ix_spec(k, pre.max_buckets_pow2) == ix as int && k.len() == 32 {
                } else {
                    assert(k != key@);
                }
            }
            assert(self@ =~= pre@.remove(key@));
        }
    }

    /// Writes `value` under `key` into shard `ix` (the key's own shard),
    /// growing and retrying as needed.
    pub fn insert(&mut self, ix: usize, key: &Pubkey, value: (&[T], RefCount)) -> (r: Result<
        (),
        BucketMapError,
    >)
        requires
            old(self).wf(),
            ix as int == old(self).shard_of(key@),
            value.0@.len() < 0x4000_0000_0000_0000,
        ensures
            final(self).wf(),
            match r {
                Ok(()) => final(self)@ == old(self)@.insert(key@, (value.0@, value.1)),
                Err(_) => final(self)@ == old(self)@,
            },
            old(self).can_insert(key@, value.0@.len() as nat) ==> r is Ok,
            old(self).insert_ready(key@, value.0@.len() as nat) ==> r is Ok,
            final(self).num_buckets_spec() == old(self).num_buckets_spec(),
            forall|k: Seq<u8>| #[trigger] final(self).shard_of(k) == old(self).shard_of(k),
    {
        let ghost pre = *self;
        proof {
            lemma_view_at(*self, key@);
        }
        let b = &mut self.buckets[ix];
        let r = b.insert(key, value.0, value.1);
        proof {
            self.lemma_after_routed_write(pre, ix as int, key@);
            match r {
                Ok(()) => {
                    assert(self@ =~= pre@.insert(key@, (value.0@, value.1)));
                },
                Err(_) => {
                    assert(self@ =~= pre@);
                },
            }
        }
        r
    }

    /// One write attempt into shard `ix` (the key's own shard); on
    /// `NeedsGrow` the map is unchanged and the error names the axis to
    /// grow.
    pub fn try_insert(&mut self, ix: usize, key: &Pubkey, value: (&[T], RefCount)) -> (r: Result<
        (),
        BucketMapError,
    >)
        requires
            old(self).wf(),
            ix as int == old(self).shard_of(key@),
            value.0@.len() < 0x4000_0000_0000_0000,
        ensures
            final(self).wf(),
            match r {
                Ok(()) => final(self)@ == old(self)@.insert(key@, (value.0@, value.1)),
                Err(e) => {
                    &&& final(self)@ == old(self)@
                    &&& match e {
                        BucketMapError::DataNoSpace(p) => {
                            &&& p.0 == size_class(value.0@.len() as nat) as u64
                            &&& (old(self).insert_ready(key@, value.0@.len() as nat)
                                ==> final(self).grow_unblocks(ix as int, e, key@, value.0@.len() as nat))
                        },
                        BucketMapError::IndexNoSpace(t) => !old(self).insert_ready(key@, 0)
                            && t == old(self).shard_index_pow(ix as int) + 1,
                    }
                },
            },
            old(self).can_insert(key@, value.0@.len() as nat) ==> r is Ok,
            r is Ok ==> old(self).can_insert(key@, value.0@.len() as nat),
            r is Err ==> forall|n: nat|
                #[trigger] final(self).can_insert(key@, n) == old(self).can_insert(key@, n),
            final(self).num_buckets_spec() == old(self).num_buckets_spec(),
            forall|k: Seq<u8>| #[trigger] final(self).shard_of(k) == old(self).shard_of(k),
    {
        let ghost pre = *self;
        proof {
            lemma_view_at(*self, key@);
        }
        let b = &mut self.buckets[ix];
        let r = b.try_write(key, value.0, value.1);
        proof {
            self.lemma_after_routed_write(pre, ix as int, key@);
            match r {
                Ok(()) => {
                    assert(self@ =~= pre@.insert(key@, (value.0@, value.1)));
                },
                Err(e) => {
                    assert(self@ =~= pre@);
                    match e {
                        BucketMapError::DataNoSpace(p) => {
                            let n = value.0@.len() as nat;
                            if pre.insert_ready(key@, n) {
                                let b0 = pre.buckets@[ix as int];
                                let s1b = self.buckets@[ix as int];
                                assert(n > 0);
                                lemma2_to64_rest();
                                lemma_size_class_le(n, 62);
                                let c = p.0 as int;
                                assert(c == size_class(n));
                                let len1 = s1b.data.classes[c].blocks.len() as int;
                                if len1 == 0 {
                                } else {
                                    assert(c < b0.data.classes.len());
                                    assert(b0.data.classes[c].blocks.len() == len1);
                                    assert(pow2(p.1 as nat) == 2 * len1);
                                    lemma_pow2_adds(61, 1);
                                    lemma2_to64();
                                    if p.1 >= 62 {
                                        if p.1 > 62 {
                                            lemma_pow2_strictly_increases(62, p.1 as nat);
                                        }
                                        assert(false);
                                    }
                                }
                                assert(self.grow_unblocks(ix as int, e, key@, n));
                            }
                        },
                        BucketMapError::IndexNoSpace(_) => {},
                    }
                },
            }
        }
        r
    }

    /// Grows the storage axis of shard `ix` a failed write asked for; the
    /// map's contents never change, and a stale request is a no-op.
    pub fn grow(&mut self, ix: usize, err: BucketMapError)
        requires
            old(self).wf(),
            ix < old(self).num_buckets_spec(),
        ensures
            final(self).wf(),
            final(self)@ == old(self)@,
            final(self).num_buckets_spec() == old(self).num_buckets_spec(),
            forall|k: Seq<u8>| #[trigger] final(self).shard_of(k) == old(self).shard_of(k),
            forall|k: Seq<u8>, n: nat|
                old(self).grow_unblocks(ix as int, err, k, n) ==> final(self).can_insert(k, n),
            match err {
                BucketMapError::IndexNoSpace(t) => {
                    &&& final(self).shard_index_pow(ix as int) >= old(self).shard_index_pow(
                        ix as int,
                    )
                    &&& (old(self).shard_index_pow(ix as int) < t <= 61 ==> (final(self).shard_index_pow(ix as int) > old(self).shard_index_pow(ix as int) || old(self).shard_probe_saturated(ix as int)))
                },
                BucketMapError::DataNoSpace(_) => true,
            },
    {
        let ghost pre = *self;
        let b = &mut self.buckets[ix];
        b.grow(err);
        proof {
            assert forall|i: int, k: Seq<u8>|
                0 <= i < self.buckets@.len() && #[trigger] self.buckets@[i].model@.contains_key(
                    k,
                ) implies k.len() == 32 && bucket_ix_spec(k, self.max_buckets_pow2) == i by {
                assert(pre.buckets@[i].model@.contains_key(k));
            }
            lemma_view_shard_change(pre, *self, ix as int);
            assert(self@ =~= pre@);
            assert forall|k: Seq<u8>, n: nat|
                pre.grow_unblocks(ix as int, err, k, n) implies self.can_insert(k, n) by {
                let b0 = pre.buckets@[ix as int];
                let b1 = self.buckets@[ix as int];
                match err {
                    BucketMapError::DataNoSpace(p) => {
                        assert(b1.data.free_in_window(p.0 as int));
                        if n > 0 {
                            lemma2_to64_rest();
                            lemma_size_class_le(n, 62);
                            assert((p.0 as int) == size_class(n));
                        }
                    },
                    BucketMapError::IndexNoSpace(_) => {},
                }
            }
        }
    }

    /// Adds one to `key`'s ref count (saturating) and returns the new
    /// count; `None` if the key is absent.
    pub fn addref(&mut self, key: &Pubkey) -> (r: Option<RefCount>)
        requires
            old(self).wf(),
        ensures
            final(self).wf(),
            match r {
                None => !old(self)@.contains_key(key@) && final(self)@ == old(self)@,
                Some(n) => {
                    &&& old(self)@.contains_key(key@)
                    &&& n == if old(self)@[key@].1 < u64::MAX {
                        old(self)@[key@].1 + 1
                    } else {
                        u64::MAX as int
                    }
                    &&& final(self)@ == old(self)@.insert(key@, (old(self)@[key@].0, n))
                },
            },
            final(self).num_buckets_spec() == old(self).num_buckets_spec(),
            forall|k: Seq<u8>| #[trigger] final(self).shard_of(k) == old(self).shard_of(k),
    {
        let ghost pre = *self;
        proof {
            lemma_view_at(*self, key@);
        }
        let ix = self.bucket_ix(key);
        let b = &mut self.buckets[ix];
        let r = b.addref(key);
        proof {
            self.lemma_after_routed_write(pre, ix as int, key@);
            match r {
                None => {
                    assert(self@ =~= pre@);
                },
                Some(n) => {
                    assert(self@ =~= pre@.insert(key@, (pre@[key@].0, n)));
                },
            }
        }
        r
    }

    /// Subtracts one from `key`'s ref count (a count of zero stays zero)
    /// and returns the new count; `None` if the key is absent.
    pub fn unref(&mut self, key: &Pubkey) -> (r: Option<RefCount>)
        requires
            old(self).wf(),
        ensures
            final(self).wf(),
            match r {
                None => !old(self)@.contains_key(key@) && final(self)@ == old(self)@,
                Some(n) => {
                    &&& old(self)@.contains_key(key@)
                    &&& n == if old(self)@[key@].1 > 0 {
                        old(self)@[key@].1 - 1
                    } else {
                        0int
                    }
                    &&& final(self)@ == old(self)@.insert(key@, (old(self)@[key@].0, n))
                },
            },
            final(self).num_buckets_spec() == old(self).num_buckets_spec(),
            forall|k: Seq<u8>| #[trigger] final(self).shard_of(k) == old(self).shard_of(k),
    {
        let ghost pre = *self;
        proof {
            lemma_view_at(*self, key@);
        }
        let ix = self.bucket_ix(key);
        let b = &mut self.buckets[ix];
        let r = b.unref(key);
        proof {
            self.lemma_after_routed_write(pre, ix as int, key@);
            match r {
                None => {
                    assert(self@ =~= pre@);
                },
                Some(n) => {
                    assert(self@ =~= pre@.insert(key@, (pre@[key@].0, n)));
                },
            }
        }
        r
    }

    /// Re-establishes the routing invariant and the shard-change view
    /// facts after a write into `key`'s own shard.
    proof fn lemma_after_routed_write(&self, pre: BucketMap<T>, ix: int, k: Seq<u8>)
        requires
            pre.wf(),
            k.len() == 32,
            0 <= ix < pre.buckets@.len(),
            ix == bucket_ix_spec(k, pre.max_buckets_pow2),
            self.max_buckets_pow2 == pre.max_buckets_pow2,
            self.max_search == pre.max_search,
            self.buckets@.len() == pre.buckets@.len(),
            forall|j: int|
                0 <= j < pre.buckets@.len() && j != ix ==> #[trigger] self.buckets@[j]
                    == pre.buckets@[j],
            self.buckets@[ix].wf(),
            self.buckets@[ix].same_shape(pre.buckets@[ix]),
            self.buckets@[ix].model@ == pre.buckets@[ix].model@ || self.buckets@[ix].model@
                == pre.buckets@[ix].model@.remove(k) || exists|v: (Seq<T>, u64)|
                self.buckets@[ix].model@ == pre.buckets@[ix].model@.insert(k, v),
        ensures
            self.wf(),
            forall|kk: Seq<u8>|
                #[trigger] bucket_ix_spec(kk, pre.max_buckets_pow2) != ix || kk.len() != 32 ==> (
                self@.contains_key(kk) == pre@.contains_key(kk) && (pre@.contains_key(kk)
                    ==> self@[kk] == pre@[kk])),
            forall|kk: Seq<u8>|
                kk.len() == 32 && #[trigger] bucket_ix_spec(kk, pre.max_buckets_pow2) == ix ==> (
                self@.contains_key(kk) == self.buckets@[ix].model@.contains_key(kk) && (
                self@.contains_key(kk) ==> self@[kk] == self.buckets@[ix].model@[kk])
                    && pre@.contains_key(kk) == pre.buckets@[ix].model@.contains_key(kk) && (
                pre@.contains_key(kk) ==> pre@[kk] == pre.buckets@[ix].model@[kk])),
    {
        assert forall|i: int, kk: Seq<u8>|
            0 <= i < self.buckets@.len() && #[trigger] self.buckets@[i].model@.contains_key(
                kk,
            ) implies kk.len() == 32 && bucket_ix_spec(kk, self.max_buckets_pow2) == i by {
            if i == ix {
                if kk != k {
                    assert(pre.buckets@[i].model@.contains_key(kk));
                }
            } else {
                assert(pre.buckets@[i].model@.contains_key(kk));
            }
        }
        lemma_view_shard_change(pre, *self, ix);
    }

    /// Reads the current entry of `key`, hands it to `updatefn`, and
    /// applies the outcome: a new value list replaces the entry, `None`
    /// deletes the key.
    pub fn update<F: Fn(Option<(&[T], RefCount)>) -> Option<(Vec<T>, RefCount)>>(
        &mut self,
        key: &Pubkey,
        updatefn: F,
    ) -> (r: Result<(), BucketMapError>)
        requires
            old(self).wf(),
            forall|a: Option<(&[T], u64)>| #[trigger] call_requires(updatefn, (a,)),
        ensures
            final(self).wf(),
            exists|arg: Option<(&[T], u64)>, res: Option<(Vec<T>, u64)>|
                {
                    &&& match arg {
                        None => !old(self)@.contains_key(key@),
                        Some(p) => old(self)@.contains_key(key@) && old(self)@[key@] == (p.0@, p.1),
                    }
                    &&& #[trigger] call_ensures(updatefn, (arg,), res)
                    &&& match res {
                        None => r is Ok && final(self)@ == old(self)@.remove(key@),
                        Some(q) => ((r is Ok && final(self)@ == old(self)@.insert(
                            key@,
                            (q.0@, q.1),
                        )) || (r is Err && final(self)@ == old(self)@)) && (old(self).insert_ready(
                            key@,
                            q.0@.len() as nat,
                        ) && q.0@.len() < 0x4000_0000_0000_0000 ==> r is Ok),
                    }
                },
            final(self).num_buckets_spec() == old(self).num_buckets_spec(),
            forall|kk: Seq<u8>| #[trigger] final(self).shard_of(kk) == old(self).shard_of(kk),
    {
        let ghost pre = *self;
        proof {
            lemma_view_at(*self, key@);
        }
        let ix = self.bucket_ix(key);
        let b = &mut self.buckets[ix];
        let ghost bpre = *b;
        let r = b.update(key, updatefn);
        proof {
            let (arg, res): (Option<(&[T], u64)>, Option<(Vec<T>, u64)>) = choose|
                arg: Option<(&[T], u64)>,
                res: Option<(Vec<T>, u64)>,
            |
                {
                    &&& match arg {
                        None => !bpre.model@.contains_key(key@),
                        Some(p) => bpre.model@.contains_key(key@) && bpre.model@[key@] == (
                        p.0@,
                        p.1,
                        ),
                    }
                    &&& #[trigger] call_ensures(updatefn, (arg,), res)
                    &&& match res {
                        None => r is Ok && self.buckets@[ix as int].model@
                            == bpre.model@.remove(key@),
                        Some(q) => ((r is Ok && self.buckets@[ix as int].model@
                            == bpre.model@.insert(key@, (q.0@, q.1))) || (r is Err
                            && self.buckets@[ix as int].model@ == bpre.model@)) && (
                        bpre.write_ready(key@, q.0@.len() as nat) && q.0@.len()
                            < 0x4000_0000_0000_0000 ==> r is Ok),
                    }
                };
            self.lemma_after_routed_write(pre, ix as int, key@);
            match res {
                None => {
                    assert(self@ =~= pre@.remove(key@));
                },
                Some(q) => {
                    if self.buckets@[ix as int].model@ == bpre.model@.insert(key@, (q.0@, q.1)) {
                        assert(self@ =~= pre@.insert(key@, (q.0@, q.1)));
                    } else {
                        assert(self@ =~= pre@);
                    }
                },
            }
        }
        r
    }

    /// The keys shard `ix` holds, in internal slot order.
    pub fn keys(&self, ix: usize) -> (r: Vec<Pubkey>)
        requires
            self.wf(),
            ix < self.num_buckets_spec(),
        ensures
            forall|j: int|
                0 <= j < r@.len() ==> self@.contains_key(#[trigger] r@[j]@) && self.shard_of(
                    r@[j]@,
                ) == ix,
            forall|k: Seq<u8>|
                #[trigger] self@.contains_key(k) && self.shard_of(k) == ix ==> exists|j: int|
                    0 <= j < r@.len() && #[trigger] r@[j]@ == k,
            forall|j1: int, j2: int|
                0 <= j1 < r@.len() && 0 <= j2 < r@.len() && j1 != j2 ==> r@[j1]@ != r@[j2]@,
    {
        let r = self.buckets[ix].keys();
        proof {
            assert forall|j: int| 0 <= j < r@.len() implies self@.contains_key(#[trigger] r@[j]@)
                && self.shard_of(r@[j]@) == ix by {
                lemma_view_at(*self, r@[j]@);
            }
            assert forall|k: Seq<u8>|
                #[trigger] self@.contains_key(k) && self.shard_of(k) == ix implies exists|j: int|
                0 <= j < r@.len() && #[trigger] r@[j]@ == k by {
                lemma_view_at(*self, k);
            }
        }
        r
    }

    /// The entries of shard `ix` whose keys fall in `range` (all of them
    /// when `range` is `None`), in internal slot order.
    pub fn items_in_range(&self, ix: usize, range: &Option<PubkeyRange>) -> (r: Vec<BucketItem<T>>)
        requires
            self.wf(),
            ix < self.num_buckets_spec(),
        ensures
            forall|j: int|
                0 <= j < r@.len() ==> {
                    &&& self@.contains_key((#[trigger] r@[j]).pubkey@)
                    &&& self.shard_of(r@[j].pubkey@) == ix
                    &&& in_key_range(r@[j].pubkey@, *range)
                    &&& self@[r@[j].pubkey@] == (r@[j].slot_list@, r@[j].ref_count)
                },
            forall|k: Seq<u8>|
                #[trigger] self@.contains_key(k) && self.shard_of(k) == ix && in_key_range(
                    k,
                    *range,
                ) ==> exists|j: int| 0 <= j < r@.len() && (#[trigger] r@[j]).pubkey@ == k,
            forall|j1: int, j2: int|
                0 <= j1 < r@.len() && 0 <= j2 < r@.len() && j1 != j2 ==> r@[j1].pubkey@
                    != r@[j2].pubkey@,
    {
        let r = self.buckets[ix].items_in_range(range);
        proof {
            assert forall|j: int| 0 <= j < r@.len() implies {
                &&& self@.contains_key((#[trigger] r@[j]).pubkey@)
                &&& self.shard_of(r@[j].pubkey@) == ix
                &&& in_key_range(r@[j].pubkey@, *range)
                &&& self@[r@[j].pubkey@] == (r@[j].slot_list@, r@[j].ref_count)
            } by {
                lemma_view_at(*self, r@[j].pubkey@);
            }
            assert forall|k: Seq<u8>|
                #[trigger] self@.contains_key(k) && self.shard_of(k) == ix && in_key_range(
                    k,
                    *range,
                ) implies exists|j: int| 0 <= j < r@.len() && (#[trigger] r@[j]).pubkey@ == k by {
                lemma_view_at(*self, k);
            }
        }
        r
    }
}

} // verus!
