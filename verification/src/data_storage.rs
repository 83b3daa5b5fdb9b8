//! The segregated free-list heap of one shard: one region per power-of-two
//! capacity class, scanned from a rotating cursor over a bounded window.

use vstd::prelude::*;
use vstd::arithmetic::power2::pow2;
use vstd::arithmetic::power2::lemma_pow2_pos;
use vstd::arithmetic::power2::lemma_pow2_strictly_increases;
use crate::math::pow2_u64;
use crate::index_storage::probe;
use crate::index_storage::probe_ix;

verus! {

/// One heap block: a used flag and the value list it stores.
pub struct DataBlock<T> {
    pub used: bool,
    pub data: Vec<T>,
}

/// The region of one segregation class.
pub struct DataClass<T> {
    pub blocks: Vec<DataBlock<T>>,
    /// Once the region is allocated, `blocks.len() == 2^pow`.
    pub pow: u8,
    /// Rotating scan cursor.
    pub cursor: usize,
}

/// The data heap of one shard.
pub struct DataStorage<T> {
    pub classes: Vec<DataClass<T>>,
    /// Bound of the free-block scan.
    pub max_search: usize,
    /// Power of two of the first allocation of every class region.
    pub init_pow: u8,
}

impl<T> DataClass<T> {
    /// An unallocated region is empty; an allocated one is a power of two
    /// at least as long as the scan window, with the cursor inside it.
    pub open spec fn wf_class(self, max_search: usize, init_pow: u8) -> bool {
        &&& (self.blocks.len() == 0 ==> self.cursor == 0)
        &&& (self.blocks.len() > 0 ==> {
            &&& self.blocks.len() == pow2(self.pow as nat)
            &&& init_pow <= self.pow <= 61
            &&& self.cursor < self.blocks.len()
            &&& max_search <= self.blocks.len()
        })
    }
}

impl<T> DataStorage<T> {
    pub open spec fn wf(self) -> bool {
        &&& 1 <= self.max_search
        &&& self.init_pow <= 32
        &&& self.max_search <= pow2(self.init_pow as nat)
        &&& forall|c: int|
            0 <= c < self.classes.len() ==> (#[trigger] self.classes[c]).wf_class(
                self.max_search,
                self.init_pow,
            )
    }

    /// Class `c` exists and its scan window from the cursor holds a free
    /// block.
    #[verifier::opaque]
    pub open spec fn free_in_window(self, c: int) -> bool {
        &&& 0 <= c < self.classes.len()
        &&& self.classes[c].blocks.len() > 0
        &&& exists|d: int|
            0 <= d < self.max_search && !self.classes[c].blocks[#[trigger] probe(
                self.classes[c].cursor as int,
                d,
                self.classes[c].blocks.len() as int,
            )].used
    }

    /// Appends empty class regions until class `c` exists.
    pub fn ensure_class(&mut self, c: u8)
        requires
            old(self).wf(),
        ensures
            final(self).wf(),
            final(self).max_search == old(self).max_search,
            final(self).init_pow == old(self).init_pow,
            final(self).classes.len() == if old(self).classes.len() > c as int {
                old(self).classes.len() as int
            } else {
                c as int + 1
            },
            forall|cc: int|
                0 <= cc < old(self).classes.len() ==> final(self).classes[cc] == old(self).classes[cc],
            forall|cc: int|
                old(self).classes.len() <= cc < final(self).classes.len()
                    ==> (#[trigger] final(self).classes[cc]).blocks.len() == 0,
    {
        while self.classes.len() <= c as usize
            invariant
                self.wf(),
                self.max_search == old(self).max_search,
                self.init_pow == old(self).init_pow,
                old(self).classes.len() <= self.classes.len() <= c as int + 1
                    || self.classes.len() == old(self).classes.len(),
                forall|cc: int|
                    0 <= cc < old(self).classes.len() ==> self.classes[cc] == old(self).classes[cc],
                forall|cc: int|
                    old(self).classes.len() <= cc < self.classes.len()
                        ==> (#[trigger] self.classes[cc]).blocks.len() == 0,
            decreases c as int + 1 - self.classes.len(),
        {
            self.classes.push(DataClass { blocks: Vec::new(), pow: 0, cursor: 0 });
        }
    }
}

impl<T: Copy> DataStorage<T> {
    /// Finds a free block of class `c` within the scan window, marks it
    /// used and advances the cursor past it.  On a miss, returns the power
    /// the region must grow to.
    pub fn alloc_block(&mut self, c: u8) -> (r: Result<usize, u8>)
        requires
            old(self).wf(),
            c <= 62,
        ensures
            final(self).wf(),
            final(self).max_search == old(self).max_search,
            final(self).init_pow == old(self).init_pow,
            final(self).classes.len() >= c as int + 1,
            final(self).classes.len() >= old(self).classes.len(),
            match r {
                Ok(i) => {
                    &&& old(self).free_in_window(c as int)
                    &&& c < old(self).classes.len()
                    &&& final(self).classes.len() == old(self).classes.len()
                    &&& 0 <= i < old(self).classes[c as int].blocks.len()
                    &&& !old(self).classes[c as int].blocks[i as int].used
                    &&& final(self).classes[c as int].blocks@ == old(self).classes[c as int].blocks@.update(
                        i as int,
                        DataBlock {
                            used: true,
                            data: old(self).classes[c as int].blocks[i as int].data,
                        },
                    )
                    &&& final(self).classes[c as int].pow == old(self).classes[c as int].pow
                    &&& forall|cc: int|
                        0 <= cc < old(self).classes.len() && cc != c ==> final(self).classes[cc]
                            == old(self).classes[cc]
                },
                Err(t) => {
                    &&& !old(self).free_in_window(c as int)
                    &&& forall|cc: int|
                        0 <= cc < old(self).classes.len() ==> final(self).classes[cc] == old(self).classes[cc]
                    &&& forall|cc: int|
                        old(self).classes.len() <= cc < final(self).classes.len()
                            ==> (#[trigger] final(self).classes[cc]).blocks.len() == 0
                    &&& t >= final(self).init_pow
                    &&& t <= 62
                    &&& pow2(t as nat) > final(self).classes[c as int].blocks.len()
                    &&& (final(self).classes[c as int].blocks.len() == 0 ==> t == final(self).init_pow)
                    &&& (final(self).classes[c as int].blocks.len() > 0 ==> pow2(t as nat) == 2
                        * final(self).classes[c as int].blocks.len())
                },
            },
    {
        self.ensure_class(c);
        let ci = c as usize;
        let len = self.classes[ci].blocks.len();
        if len == 0 {
            proof {
                reveal(DataStorage::free_in_window);
                lemma_pow2_pos(self.init_pow as nat);
            }
            return Err(self.init_pow);
        }
        let cursor = self.classes[ci].cursor;
        let ms = self.max_search;
        let mut d: usize = 0;
        while d < ms
            invariant
                self.wf(),
                self.max_search == old(self).max_search,
                self.init_pow == old(self).init_pow,
                c <= 62,
                ci == c as int,
                ci < old(self).classes.len(),
                self.classes.len() == old(self).classes.len(),
                forall|cc: int|
                    0 <= cc < old(self).classes.len() ==> self.classes[cc] == old(
                        self,
                    ).classes[cc],
                ci < self.classes.len(),
                len == self.classes[ci as int].blocks.len(),
                len > 0,
                ms == self.max_search,
                ms <= len,
                cursor == self.classes[ci as int].cursor,
                cursor < len,
                0 <= d <= ms,
                forall|dd: int|
                    0 <= dd < d ==> self.classes[ci as int].blocks[#[trigger] probe(
                        cursor as int,
                        dd,
                        len as int,
                    )].used,
            decreases ms - d,
        {
            let i = probe_ix(cursor, d, len);
            if !self.classes[ci].blocks[i].used {
                let ghost pre = *self;
                let next = if i + 1 == len {
                    0
                } else {
                    i + 1
                };
                self.classes[ci].blocks[i].used = true;
                self.classes[ci].cursor = next;
                proof {
                    reveal(DataStorage::free_in_window);
                    assert(!old(self).classes[ci as int].blocks[probe(
                        old(self).classes[ci as int].cursor as int,
                        d as int,
                        old(self).classes[ci as int].blocks.len() as int,
                    )].used);
                    assert(self.classes[ci as int].blocks@ == pre.classes[ci as int].blocks@.update(
                        i as int,
                        DataBlock { used: true, data: pre.classes[ci as int].blocks[i as int].data },
                    ));
                    assert forall|cc: int|
                        0 <= cc < self.classes.len() implies (#[trigger] self.classes[cc]).wf_class(
                        self.max_search,
                        self.init_pow,
                    ) by {
                        assert(pre.classes[cc].wf_class(pre.max_search, pre.init_pow));
                    }
                }
                return Ok(i);
            }
            d = d + 1;
        }
        proof {
            reveal(DataStorage::free_in_window);
            lemma_pow2_strictly_increases(
                self.classes[ci as int].pow as nat,
                (self.classes[ci as int].pow + 1) as nat,
            );
            vstd::arithmetic::power2::lemma_pow2_adds(self.classes[ci as int].pow as nat, 1);
            vstd::arithmetic::power2::lemma2_to64();
        }
        Err(self.classes[ci].pow + 1)
    }

    /// Overwrites the value list of block `i` of class `c`.
    pub fn write_block(&mut self, c: u8, i: usize, values: &[T])
        requires
            old(self).wf(),
            0 <= c < old(self).classes.len(),
            i < old(self).classes[c as int].blocks.len(),
        ensures
            final(self).wf(),
            final(self).max_search == old(self).max_search,
            final(self).init_pow == old(self).init_pow,
            final(self).classes.len() == old(self).classes.len(),
            final(self).classes[c as int].blocks@ == old(self).classes[c as int].blocks@.update(
                i as int,
                DataBlock { used: old(self).classes[c as int].blocks[i as int].used, data: final(
                    self).classes[c as int].blocks[i as int].data },
            ),
            final(self).classes[c as int].blocks[i as int].data@ == values@,
            final(self).classes[c as int].blocks[i as int].used == old(self).classes[c as int].blocks[i as int].used,
            final(self).classes[c as int].pow == old(self).classes[c as int].pow,
            final(self).classes[c as int].cursor == old(self).classes[c as int].cursor,
            forall|cc: int|
                0 <= cc < old(self).classes.len() && cc != c ==> final(self).classes[cc] == old(self).classes[cc],
    {
        let mut v: Vec<T> = Vec::new();
        let mut k: usize = 0;
        while k < values.len()
            invariant
                k <= values.len(),
                v@ == values@.subrange(0, k as int),
            decreases values.len() - k,
        {
            let x = values[k];
            v.push(x);
            proof {
                assert(values@.subrange(0, k + 1) =~= values@.subrange(0, k as int).push(
                    values@[k as int],
                ));
            }
            k = k + 1;
        }
        proof {
            assert(values@.subrange(0, values@.len() as int) =~= values@);
        }
        let ci = c as usize;
        let ghost pre = *self;
        self.classes[ci].blocks[i].data = v;
        proof {
            assert forall|cc: int|
                0 <= cc < self.classes.len() implies (#[trigger] self.classes[cc]).wf_class(
                self.max_search,
                self.init_pow,
            ) by {
                assert(pre.classes[cc].wf_class(pre.max_search, pre.init_pow));
            }
        }
    }

    /// Marks block `i` of class `c` free and clears it.
    pub fn free_block(&mut self, c: u8, i: usize)
        requires
            old(self).wf(),
            0 <= c < old(self).classes.len(),
            i < old(self).classes[c as int].blocks.len(),
        ensures
            final(self).wf(),
            final(self).max_search == old(self).max_search,
            final(self).init_pow == old(self).init_pow,
            final(self).classes.len() == old(self).classes.len(),
            final(self).classes[c as int].blocks@ == old(self).classes[c as int].blocks@.update(
                i as int,
                final(self).classes[c as int].blocks[i as int],
            ),
            !final(self).classes[c as int].blocks[i as int].used,
            final(self).classes[c as int].pow == old(self).classes[c as int].pow,
            final(self).classes[c as int].cursor == old(self).classes[c as int].cursor,
            forall|cc: int|
                0 <= cc < old(self).classes.len() && cc != c ==> final(self).classes[cc] == old(self).classes[cc],
    {
        let ci = c as usize;
        let ghost pre = *self;
        self.classes[ci].blocks[i].used = false;
        self.classes[ci].blocks[i].data = Vec::new();
        proof {
            assert forall|cc: int|
                0 <= cc < self.classes.len() implies (#[trigger] self.classes[cc]).wf_class(
                self.max_search,
                self.init_pow,
            ) by {
                assert(pre.classes[cc].wf_class(pre.max_search, pre.init_pow));
            }
        }
    }

    /// Copies out the value list of block `i` of class `c`.
    pub fn read_block(&self, c: u8, i: usize) -> (r: Vec<T>)
        requires
            0 <= c < self.classes.len(),
            i < self.classes[c as int].blocks.len(),
        ensures
            r@ == self.classes[c as int].blocks[i as int].data@,
    {
        let ci = c as usize;
        let mut out: Vec<T> = Vec::new();
        let mut k: usize = 0;
        while k < self.classes[ci].blocks[i].data.len()
            invariant
                ci == c as int,
                ci < self.classes.len(),
                i < self.classes[ci as int].blocks.len(),
                k <= self.classes[ci as int].blocks[i as int].data.len(),
                out@ == self.classes[ci as int].blocks[i as int].data@.subrange(0, k as int),
            decreases self.classes[ci as int].blocks[i as int].data.len() - k,
        {
            let x = self.classes[ci].blocks[i].data[k];
            out.push(x);
            proof {
                let s = self.classes[ci as int].blocks[i as int].data@;
                assert(s.subrange(0, k + 1) =~= s.subrange(0, k as int).push(s[k as int]));
            }
            k = k + 1;
        }
        proof {
            let s = self.classes[ci as int].blocks[i as int].data@;
            assert(s.subrange(0, s.len() as int) =~= s);
        }
        out
    }

    /// Grows the region of class `c` to `2^target` blocks (never below the
    /// initial power, never shrinking).  Growing leaves every existing
    /// block in place and parks the cursor on the first fresh free block,
    /// so a grow that enlarged the region guarantees the next allocation
    /// succeeds.  A request that would not enlarge the region is a no-op.
    pub fn grow_class(&mut self, c: u8, target: u8)
        requires
            old(self).wf(),
            c <= 62,
        ensures
            final(self).wf(),
            final(self).max_search == old(self).max_search,
            final(self).init_pow == old(self).init_pow,
            final(self).classes.len() >= old(self).classes.len(),
            final(self).classes.len() >= c as int + 1,
            forall|cc: int|
                0 <= cc < old(self).classes.len() && cc != c ==> final(self).classes[cc] == old(self).classes[cc],
            forall|cc: int|
                old(self).classes.len() <= cc < final(self).classes.len() && cc != c
                    ==> (#[trigger] final(self).classes[cc]).blocks.len() == 0,
            c < old(self).classes.len() ==> forall|i: int|
                0 <= i < old(self).classes[c as int].blocks.len()
                    ==> final(self).classes[c as int].blocks[i] == old(self).classes[c as int].blocks[i],
            ({
                let t = if target >= old(self).init_pow {
                    target
                } else {
                    old(self).init_pow
                };
                let cur = if c < old(self).classes.len() {
                    old(self).classes[c as int].blocks.len() as int
                } else {
                    0
                };
                if t <= 61 && cur < pow2(t as nat) {
                    final(self).classes[c as int].blocks.len() == pow2(t as nat) && final(self).free_in_window(c as int)
                } else {
                    c < old(self).classes.len() ==> final(self).classes[c as int] == old(self).classes[c as int]
                }
            }),
    {
        self.ensure_class(c);
        let ci = c as usize;
        let t = if target >= self.init_pow {
            target
        } else {
            self.init_pow
        };
        if t > 61 {
            return ;
        }
        let want = pow2_u64(t as u64);
        let cur = self.classes[ci].blocks.len();
        if (cur as u64) >= want {
            return ;
        }
        let ghost pre = *self;
        while (self.classes[ci].blocks.len() as u64) < want
            invariant
                ci == c as int,
                ci < self.classes.len(),
                want == pow2(t as nat),
                self.classes.len() == if old(self).classes.len() > c as int {
                    old(self).classes.len() as int
                } else {
                    c as int + 1
                },
                forall|cc: int|
                    0 <= cc < old(self).classes.len() && cc != ci ==> self.classes[cc] == old(
                        self,
                    ).classes[cc],
                forall|cc: int|
                    old(self).classes.len() <= cc < self.classes.len() && cc != ci
                        ==> (#[trigger] self.classes[cc]).blocks.len() == 0,
                cur == if ci < old(self).classes.len() {
                    old(self).classes[ci as int].blocks.len() as int
                } else {
                    0
                },
                self.classes.len() == pre.classes.len(),
                self.max_search == pre.max_search,
                self.init_pow == pre.init_pow,
                cur == pre.classes[ci as int].blocks.len(),
                cur <= self.classes[ci as int].blocks.len(),
                self.classes[ci as int].blocks.len() as u64 <= want,
                self.classes[ci as int].pow == pre.classes[ci as int].pow,
                self.classes[ci as int].cursor == pre.classes[ci as int].cursor,
                forall|cc: int|
                    0 <= cc < self.classes.len() && cc != ci ==> self.classes[cc]
                        == pre.classes[cc],
                forall|i: int|
                    0 <= i < cur ==> self.classes[ci as int].blocks[i]
                        == pre.classes[ci as int].blocks[i],
                forall|i: int|
                    cur <= i < self.classes[ci as int].blocks.len()
                        ==> !(#[trigger] self.classes[ci as int].blocks[i]).used,
            decreases want - self.classes[ci as int].blocks.len(),
        {
            self.classes[ci].blocks.push(DataBlock { used: false, data: Vec::new() });
        }
        self.classes[ci].pow = t;
        self.classes[ci].cursor = cur;
        proof {
            lemma_pow2_pos(t as nat);
            assert(self.classes[ci as int].blocks.len() == pow2(t as nat));
            if pre.classes[ci as int].blocks.len() > 0 {
                assert(pre.classes[ci as int].wf_class(pre.max_search, pre.init_pow));
            }
            assert(self.max_search <= pow2(self.init_pow as nat));
            if (t as nat) > self.init_pow as nat {
                lemma_pow2_strictly_increases(self.init_pow as nat, t as nat);
            }
            assert forall|cc: int|
                0 <= cc < self.classes.len() implies (#[trigger] self.classes[cc]).wf_class(
                self.max_search,
                self.init_pow,
            ) by {
                if cc != ci {
                    assert(pre.classes[cc].wf_class(pre.max_search, pre.init_pow));
                }
            }
            assert(!self.classes[ci as int].blocks[cur as int].used);
            reveal(DataStorage::free_in_window);
            assert(probe(self.classes[ci as int].cursor as int, 0, self.classes[
                ci as int].blocks.len() as int) == cur as int) by {
                reveal(probe);
                vstd::arithmetic::div_mod::lemma_small_mod(
                    cur as nat,
                    self.classes[ci as int].blocks.len() as nat,
                );
            }
        }
    }
}

} // verus!
