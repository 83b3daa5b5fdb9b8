//! The open-addressed hash table of one shard: fixed-size slots probed
//! linearly over a bounded, wrapping window.

use vstd::prelude::*;
use vstd::arithmetic::power2::pow2;
use vstd::arithmetic::power2::lemma_pow2_pos;
use vstd::arithmetic::power2::lemma_pow2_strictly_increases;
use vstd::arithmetic::div_mod::lemma_small_mod;
use vstd::arithmetic::div_mod::lemma_fundamental_div_mod_converse_mod;
use vstd::arithmetic::div_mod::lemma_mod_division_less_than_divisor;
use vstd::set_lib::lemma_map_size;
use vstd::set_lib::lemma_len_subset;
use vstd::set_lib::lemma_int_range;
use vstd::set_lib::set_int_range;
use vstd::relations::injective_on;
use crate::math::be_u64_of;
use crate::math::read_be_u64;
use crate::math::pow2_u64;
use crate::pubkey::Pubkey;

verus! {

/// One record of the index table.
#[derive(Clone, Copy)]
pub struct IndexSlot {
    pub occupied: bool,
    /// Meaningful only when `occupied`.
    pub key: Pubkey,
    pub ref_count: u64,
    /// Segregation class of the data block; meaningful only when `len > 0`.
    pub class: u8,
    /// Block index within that class's region; meaningful only when `len > 0`.
    pub block: usize,
    /// Element count of the stored value list.
    pub len: usize,
}

/// The hash table of one shard: `2^pow` slots.
pub struct IndexStorage {
    pub slots: Vec<IndexSlot>,
    /// The table holds `2^pow` slots.
    pub pow: u8,
    /// Key bits already consumed by the router's shard selection.
    pub shard_bits: u8,
    /// Length of the linear-probe window.
    pub max_search: usize,
}

/// The slot probed `d` steps after `home`, wrapping at `cap`.
#[verifier::opaque]
pub open spec fn probe(home: int, d: int, cap: int) -> int {
    (home + d) % cap
}

/// The in-shard home slot of key bytes `k`: the bits of the 64-bit
/// big-endian prefix that follow the `shard_bits` bits used by the router.
#[verifier::opaque]
pub open spec fn home_spec(k: Seq<u8>, shard_bits: nat, pow: nat) -> int {
    let shift: nat = if shard_bits + pow <= 64 {
        (64 - shard_bits - pow) as nat
    } else {
        0
    };
    (be_u64_of(k) as int / pow2(shift) as int) % pow2(pow) as int
}

/// Executable wrapping probe.
pub fn probe_ix(home: usize, d: usize, cap: usize) -> (r: usize)
    requires
        home < cap,
        d < cap,
    ensures
        r == probe(home as int, d as int, cap as int),
        r < cap,
{
    proof {
        reveal(probe);
    }
    if d < cap - home {
        proof {
            lemma_small_mod((home + d) as nat, cap as nat);
        }
        home + d
    } else {
        proof {
            lemma_fundamental_div_mod_converse_mod(
                home + d as int,
                cap as int,
                1,
                home + d - cap,
            );
        }
        d - (cap - home)
    }
}

/// Slot value `s` occurs in an occupied slot among the first `bound`
/// entries of `tab`.
#[verifier::opaque]
pub open spec fn slot_in_prefix(tab: IndexStorage, bound: int, s: IndexSlot) -> bool {
    exists|i: int|
        0 <= i < bound && i < tab.cap() && #[trigger] tab.slots[i].occupied && tab.slots[i] == s
}

/// A slot found among the first `b1` entries is found among the first `b2`.
pub proof fn lemma_slot_in_prefix_widen(tab: IndexStorage, b1: int, b2: int, s: IndexSlot)
    requires
        slot_in_prefix(tab, b1, s),
        b1 <= b2,
    ensures
        slot_in_prefix(tab, b2, s),
{
    reveal(slot_in_prefix);
}

/// A full probe window in a partially filled rehash target means the old
/// table already held at least a window's worth of occupied slots.
#[verifier::rlimit(100)]
#[verifier::spinoff_prover]
proof fn lemma_rehash_full_window(old_tab: IndexStorage, n: IndexStorage, i: int, k: Seq<u8>)
    requires
        old_tab.wf(),
        n.wf(),
        n.max_search == old_tab.max_search,
        0 <= i <= old_tab.cap(),
        forall|jj: int|
            0 <= jj < n.cap() && #[trigger] n.slots[jj].occupied ==> slot_in_prefix(
                old_tab,
                i,
                n.slots[jj],
            ),
        !n.has_free_slot(k),
    ensures
        old_tab.occupied_slots().len() >= old_tab.max_search,
{
    reveal(IndexStorage::has_free_slot);
    reveal(slot_in_prefix);
    let home = n.home_of(k);
    n.lemma_home_in_range(k);
    let ms = old_tab.max_search as int;
    let f = |d: int|
        choose|ii: int|
            0 <= ii < i && ii < old_tab.cap() && #[trigger] old_tab.slots[ii].occupied
                && old_tab.slots[ii] == n.slots[probe(home, d, n.cap())];
    assert forall|d: int| 0 <= d < ms implies {
        &&& n.slots[probe(home, d, n.cap())].occupied
        &&& 0 <= probe(home, d, n.cap()) < n.cap()
        &&& 0 <= f(d) < old_tab.cap()
        &&& old_tab.slots[f(d)].occupied
        &&& old_tab.slots[f(d)] == n.slots[probe(home, d, n.cap())]
    } by {
        reveal(probe);
        vstd::arithmetic::div_mod::lemma_mod_division_less_than_divisor(home + d, n.cap());
        vstd::arithmetic::div_mod::lemma_div_pos_is_pos(home + d, n.cap());
        assert(n.slots[probe(home, d, n.cap())].occupied);
        assert(slot_in_prefix(old_tab, i, n.slots[probe(home, d, n.cap())]));
    }
    let dom = set_int_range(0, ms);
    lemma_int_range(0, ms);
    assert(injective_on(f, dom)) by {
        assert forall|d1: int, d2: int|
            #![trigger f(d1), f(d2)]
            dom.contains(d1) && dom.contains(d2) && f(d1) == f(d2) implies d1 == d2 by {
            if d1 != d2 {
                let j1 = probe(home, d1, n.cap());
                let j2 = probe(home, d2, n.cap());
                lemma_probe_injective(home, d1, d2, n.cap());
                assert(j1 != j2);
                assert(n.slots[j1].occupied && n.slots[j2].occupied);
                assert(n.slots[j1].key@ == old_tab.slots[f(d1)].key@);
                assert(n.slots[j2].key@ == old_tab.slots[f(d2)].key@);
                assert(n.slots[j1].key@ == n.slots[j2].key@);
                assert(false);
            }
        }
    }
    lemma_map_size(dom, dom.map(f), f);
    assert(dom.map(f).subset_of(old_tab.occupied_slots())) by {
        assert forall|x: int| #[trigger] dom.map(f).contains(x) implies old_tab.occupied_slots(
        ).contains(x) by {
            let d = choose|d: int| dom.contains(d) && f(d) == x;
        }
    }
    lemma_int_range(0, old_tab.cap());
    assert(old_tab.occupied_slots().subset_of(set_int_range(0, old_tab.cap())));
    lemma_len_subset(old_tab.occupied_slots(), set_int_range(0, old_tab.cap()));
    lemma_len_subset(dom.map(f), old_tab.occupied_slots());
}

/// One placement step of a rehash preserves the new table's shape and the
/// two-way correspondence with the first `i + 1` old slots.
#[verifier::rlimit(100)]
#[verifier::spinoff_prover]
proof fn lemma_rehash_step(old_tab: IndexStorage, pre: IndexStorage, n: IndexStorage, i: int, j: int)
    requires
        old_tab.wf(),
        pre.wf(),
        n.pow == pre.pow,
        n.shard_bits == pre.shard_bits,
        n.max_search == pre.max_search,
        0 <= i < old_tab.cap(),
        old_tab.slots[i].occupied,
        0 <= j < pre.cap(),
        !pre.slots[j].occupied,
        pre.in_window(old_tab.slots[i].key@, j),
        n.slots@ == pre.slots@.update(j, old_tab.slots[i]),
        forall|ii: int|
            0 <= ii < i && #[trigger] old_tab.slots[ii].occupied ==> slot_in_prefix(
                pre,
                pre.cap(),
                old_tab.slots[ii],
            ),
        forall|jj: int|
            0 <= jj < pre.cap() && #[trigger] pre.slots[jj].occupied ==> slot_in_prefix(
                old_tab,
                i,
                pre.slots[jj],
            ),
    ensures
        n.wf(),
        forall|ii: int|
            0 <= ii < i + 1 && #[trigger] old_tab.slots[ii].occupied ==> slot_in_prefix(
                n,
                n.cap(),
                old_tab.slots[ii],
            ),
        forall|jj: int|
            0 <= jj < n.cap() && #[trigger] n.slots[jj].occupied ==> slot_in_prefix(
                old_tab,
                i + 1,
                n.slots[jj],
            ),
{
    assert(n.cap() == pre.cap());
    assert forall|jj: int|
        0 <= jj < n.cap() && #[trigger] n.slots[jj].occupied implies slot_in_prefix(
        old_tab,
        i + 1,
        n.slots[jj],
    ) by {
        reveal(slot_in_prefix);
        if jj == j {
            assert(old_tab.slots[i].occupied && old_tab.slots[i] == n.slots[jj]);
        } else {
            assert(pre.slots[jj].occupied);
            assert(slot_in_prefix(old_tab, i, pre.slots[jj]));
        }
    }
    assert forall|ii: int|
        0 <= ii < i + 1 && #[trigger] old_tab.slots[ii].occupied implies slot_in_prefix(
        n,
        n.cap(),
        old_tab.slots[ii],
    ) by {
        reveal(slot_in_prefix);
        if ii == i {
            assert(n.slots[j].occupied && n.slots[j] == old_tab.slots[ii]);
        } else {
            assert(slot_in_prefix(pre, pre.cap(), old_tab.slots[ii]));
            let jj = choose|jj: int|
                0 <= jj < pre.cap() && jj < pre.cap() && #[trigger] pre.slots[jj].occupied
                    && pre.slots[jj] == old_tab.slots[ii];
            assert(jj != j);
            assert(n.slots[jj].occupied && n.slots[jj] == old_tab.slots[ii]);
        }
    }
    assert forall|j1: int, j2: int|
        0 <= j1 < n.cap() && 0 <= j2 < n.cap() && #[trigger] n.slots[j1].occupied
            && #[trigger] n.slots[j2].occupied && n.slots[j1].key@ == n.slots[j2].key@
        implies j1 == j2 by {
        reveal(slot_in_prefix);
        if j1 != j2 {
            if j1 == j {
                assert(pre.slots[j2].occupied);
                assert(slot_in_prefix(old_tab, i, pre.slots[j2]));
                let ii = choose|ii: int|
                    0 <= ii < i && ii < old_tab.cap() && #[trigger] old_tab.slots[ii].occupied
                        && old_tab.slots[ii] == pre.slots[j2];
                assert(old_tab.slots[ii].key@ == old_tab.slots[i].key@);
                assert(false);
            } else if j2 == j {
                assert(pre.slots[j1].occupied);
                assert(slot_in_prefix(old_tab, i, pre.slots[j1]));
                let ii = choose|ii: int|
                    0 <= ii < i && ii < old_tab.cap() && #[trigger] old_tab.slots[ii].occupied
                        && old_tab.slots[ii] == pre.slots[j1];
                assert(old_tab.slots[ii].key@ == old_tab.slots[i].key@);
                assert(false);
            } else {
                assert(pre.slots[j1].occupied && pre.slots[j2].occupied);
            }
        }
    }
    assert forall|jj: int|
        0 <= jj < n.cap() && #[trigger] n.slots[jj].occupied implies n.in_window(
        n.slots[jj].key@,
        jj,
    ) by {
        lemma_window_stable(pre, n, n.slots[jj].key@, jj);
        if jj != j {
            assert(pre.slots[jj].occupied);
            assert(pre.in_window(pre.slots[jj].key@, jj));
        } else {
            assert(pre.in_window(old_tab.slots[i].key@, j));
        }
    }
}

/// Window membership depends only on a table's shape (capacity, powers and
/// probe length), never on its slot contents.
pub proof fn lemma_window_stable(a: IndexStorage, b: IndexStorage, k: Seq<u8>, i: int)
    requires
        a.pow == b.pow,
        a.shard_bits == b.shard_bits,
        a.max_search == b.max_search,
        a.slots.len() == b.slots.len(),
    ensures
        a.in_window(k, i) == b.in_window(k, i),
{
    reveal(IndexStorage::in_window);
    assert(a.home_of(k) == b.home_of(k));
    if a.in_window(k, i) {
        let d = choose|d: int|
            0 <= d < a.max_search && i == #[trigger] probe(a.home_of(k), d, a.cap());
        assert(i == probe(b.home_of(k), d, b.cap()));
    }
    if b.in_window(k, i) {
        let d = choose|d: int|
            0 <= d < b.max_search && i == #[trigger] probe(b.home_of(k), d, b.cap());
        assert(i == probe(a.home_of(k), d, a.cap()));
    }
}

/// Distinct probe steps inside one wrap reach distinct slots.
pub proof fn lemma_probe_injective(home: int, d1: int, d2: int, cap: int)
    requires
        0 <= home < cap,
        0 <= d1 < cap,
        0 <= d2 < cap,
        probe(home, d1, cap) == probe(home, d2, cap),
    ensures
        d1 == d2,
{
    reveal(probe);
    if home + d1 < cap {
        lemma_small_mod((home + d1) as nat, cap as nat);
    } else {
        lemma_fundamental_div_mod_converse_mod(home + d1, cap, 1, home + d1 - cap);
    }
    if home + d2 < cap {
        lemma_small_mod((home + d2) as nat, cap as nat);
    } else {
        lemma_fundamental_div_mod_converse_mod(home + d2, cap, 1, home + d2 - cap);
    }
}

impl IndexStorage {
    pub open spec fn cap(self) -> int {
        self.slots.len() as int
    }

    pub open spec fn home_of(self, k: Seq<u8>) -> int {
        home_spec(k, self.shard_bits as nat, self.pow as nat)
    }

    /// Slot `i` lies within the probe window of key bytes `k`.
    #[verifier::opaque]
    pub open spec fn in_window(self, k: Seq<u8>, i: int) -> bool {
        exists|d: int|
            0 <= d < self.max_search && i == #[trigger] probe(self.home_of(k), d, self.cap())
    }

    /// Shape of the table: a power-of-two slot count at least as long as
    /// the probe window, no duplicate occupied keys, and every occupied
    /// slot inside its own key's probe window.
    pub open spec fn wf(self) -> bool {
        &&& self.slots.len() == pow2(self.pow as nat)
        &&& 1 <= self.pow <= 61
        &&& self.shard_bits <= 62
        &&& 1 <= self.max_search <= self.slots.len()
        &&& forall|i: int, j: int|
            0 <= i < self.cap() && 0 <= j < self.cap() && #[trigger] self.slots[i].occupied
                && #[trigger] self.slots[j].occupied && self.slots[i].key@ == self.slots[j].key@
                ==> i == j
        &&& forall|i: int|
            0 <= i < self.cap() && #[trigger] self.slots[i].occupied ==> self.in_window(
                self.slots[i].key@,
                i,
            )
    }

    /// The indices of the occupied slots.
    pub open spec fn occupied_slots(self) -> Set<int> {
        Set::new(|i: int| 0 <= i < self.cap() && self.slots[i].occupied)
    }

    /// A key's home slot is inside the table.
    pub proof fn lemma_home_in_range(self, k: Seq<u8>)
        requires
            self.wf(),
        ensures
            0 <= self.home_of(k) < self.cap(),
    {
        reveal(home_spec);
        lemma_pow2_pos(self.pow as nat);
        let shift: nat = if self.shard_bits as nat + self.pow as nat <= 64 {
            (64 - self.shard_bits - self.pow) as nat
        } else {
            0
        };
        lemma_pow2_pos(shift);
        vstd::arithmetic::div_mod::lemma_div_pos_is_pos(
            be_u64_of(k) as int,
            pow2(shift) as int,
        );
        lemma_mod_division_less_than_divisor(
            be_u64_of(k) as int / pow2(shift) as int,
            pow2(self.pow as nat) as int,
        );
    }

    /// Whether some slot of `k`'s probe window is free.
    #[verifier::opaque]
    pub open spec fn has_free_slot(self, k: Seq<u8>) -> bool {
        exists|d: int|
            0 <= d < self.max_search && !self.slots[#[trigger] probe(
                self.home_of(k),
                d,
                self.cap(),
            )].occupied
    }

    /// The home slot of `key`, computed from the big-endian prefix.
    pub fn home_ix(&self, key: &Pubkey) -> (r: usize)
        requires
            self.wf(),
        ensures
            r == self.home_of(key@),
            r < self.slots.len(),
    {
        proof {
            reveal(home_spec);
        }
        let v = read_be_u64(key.as_bytes());
        let sb = self.shard_bits as u64;
        let p = self.pow as u64;
        let shift: u64 = if sb + p <= 64 {
            64 - sb - p
        } else {
            0
        };
        let q = v / pow2_u64(shift);
        let c = pow2_u64(p);
        let m = q % c;
        proof {
            lemma_mod_division_less_than_divisor(q as int, c as int);
        }
        m as usize
    }

    /// Linear probe for an occupied slot holding `key`.
    pub fn find(&self, key: &Pubkey) -> (r: Option<usize>)
        requires
            self.wf(),
        ensures
            match r {
                Some(i) => 0 <= i < self.cap() && self.slots[i as int].occupied
                    && self.slots[i as int].key@ == key@,
                None => forall|d: int|
                    0 <= d < self.max_search ==> !(self.slots[#[trigger] probe(
                        self.home_of(key@),
                        d,
                        self.cap(),
                    )].occupied && self.slots[probe(self.home_of(key@), d, self.cap())].key@
                        == key@),
            },
    {
        let home = self.home_ix(key);
        let cap = self.slots.len();
        let mut d: usize = 0;
        while d < self.max_search
            invariant
                self.wf(),
                0 <= d <= self.max_search,
                home == self.home_of(key@),
                home < cap,
                cap == self.slots.len(),
                forall|dd: int|
                    0 <= dd < d ==> !(self.slots[#[trigger] probe(
                        self.home_of(key@),
                        dd,
                        self.cap(),
                    )].occupied && self.slots[probe(self.home_of(key@), dd, self.cap())].key@
                        == key@),
            decreases self.max_search - d,
        {
            let i = probe_ix(home, d, cap);
            let occ = self.slots[i].occupied;
            if occ && self.slots[i].key.key_eq(key) {
                return Some(i);
            }
            d = d + 1;
        }
        None
    }

    /// Linear probe for a free slot in `key`'s window.
    pub fn find_free(&self, key: &Pubkey) -> (r: Option<usize>)
        requires
            self.wf(),
        ensures
            match r {
                Some(i) => 0 <= i < self.cap() && !self.slots[i as int].occupied
                    && self.in_window(key@, i as int) && self.has_free_slot(key@),
                None => !self.has_free_slot(key@),
            },
    {
        let home = self.home_ix(key);
        let cap = self.slots.len();
        let mut d: usize = 0;
        while d < self.max_search
            invariant
                self.wf(),
                0 <= d <= self.max_search,
                home == self.home_of(key@),
                home < cap,
                cap == self.slots.len(),
                forall|dd: int|
                    0 <= dd < d ==> self.slots[#[trigger] probe(
                        self.home_of(key@),
                        dd,
                        self.cap(),
                    )].occupied,
            decreases self.max_search - d,
        {
            let i = probe_ix(home, d, cap);
            if !self.slots[i].occupied {
                proof {
                    reveal(IndexStorage::in_window);
                    reveal(IndexStorage::has_free_slot);
                    assert(i == probe(self.home_of(key@), d as int, self.cap()));
                }
                return Some(i);
            }
            d = d + 1;
        }
        proof {
            reveal(IndexStorage::has_free_slot);
        }
        None
    }

    /// Overwrites slot `i`.
    pub fn set_slot(&mut self, i: usize, slot: IndexSlot)
        requires
            i < old(self).slots.len(),
        ensures
            final(self).slots@ == old(self).slots@.update(i as int, slot),
            final(self).pow == old(self).pow,
            final(self).shard_bits == old(self).shard_bits,
            final(self).max_search == old(self).max_search,
    {
        self.slots[i] = slot;
    }

    /// One rehash attempt: moves every occupied slot into a fresh table of
    /// `2^target` slots, or returns `None` if some key's probe window
    /// overflows in the larger table.
    #[verifier::rlimit(100)]
    pub fn rehash_attempt(&self, target: u8) -> (r: Option<IndexStorage>)
        requires
            self.wf(),
            self.pow < target <= 61,
        ensures
            match r {
                Some(n) => {
                    &&& n.wf()
                    &&& n.pow == target
                    &&& n.shard_bits == self.shard_bits
                    &&& n.max_search == self.max_search
                    &&& forall|i: int|
                        0 <= i < self.cap() && #[trigger] self.slots[i].occupied
                            ==> slot_in_prefix(n, n.cap(), self.slots[i])
                    &&& forall|j: int|
                        0 <= j < n.cap() && #[trigger] n.slots[j].occupied ==> slot_in_prefix(
                            *self,
                            self.cap(),
                            n.slots[j],
                        )
                },
                None => self.occupied_slots().len() >= self.max_search,
            },
    {
        proof {
            lemma_pow2_strictly_increases(self.pow as nat, target as nat);
            lemma_pow2_pos(target as nat);
        }
        let cap64 = pow2_u64(target as u64);
        let empty = IndexSlot {
            occupied: false,
            key: Pubkey::new_from_array([0u8; 32]),
            ref_count: 0,
            class: 0,
            block: 0,
            len: 0,
        };
        let mut nslots: Vec<IndexSlot> = Vec::new();
        while (nslots.len() as u64) < cap64
            invariant
                nslots.len() as u64 <= cap64,
                !empty.occupied,
                forall|j: int| 0 <= j < nslots.len() ==> !(#[trigger] nslots[j].occupied),
            decreases cap64 - nslots.len() as u64,
        {
            nslots.push(empty);
        }
        let mut n = IndexStorage {
            slots: nslots,
            pow: target,
            shard_bits: self.shard_bits,
            max_search: self.max_search,
        };
        let mut i: usize = 0;
        while i < self.slots.len()
            invariant
                self.wf(),
                self.pow < target <= 61,
                0 <= i <= self.slots.len(),
                n.wf(),
                n.pow == target,
                n.shard_bits == self.shard_bits,
                n.max_search == self.max_search,
                forall|ii: int|
                    0 <= ii < i && #[trigger] self.slots[ii].occupied ==> slot_in_prefix(
                        n,
                        n.cap(),
                        self.slots[ii],
                    ),
                forall|jj: int|
                    0 <= jj < n.cap() && #[trigger] n.slots[jj].occupied ==> slot_in_prefix(
                        *self,
                        i as int,
                        n.slots[jj],
                    ),
            decreases self.slots.len() - i,
    {
            let s = self.slots[i];
            if s.occupied {
                match n.find_free(&s.key) {
                    None => {
                        proof {
                            lemma_rehash_full_window(*self, n, i as int, s.key@);
                        }
                        return None;
                    },
                    Some(j) => {
                        let ghost pre = n;
                        n.set_slot(j, s);
                        proof {
                            lemma_rehash_step(*self, pre, n, i as int, j as int);
                        }
                    },
                }
            } else {
                proof {
                    assert forall|jj: int|
                        0 <= jj < n.cap() && #[trigger] n.slots[jj].occupied
                        implies slot_in_prefix(*self, i + 1, n.slots[jj]) by {
                        lemma_slot_in_prefix_widen(*self, i as int, i + 1, n.slots[jj]);
                    }
                }
            }
            i = i + 1;
        }
        Some(n)
    }
}

} // verus!
