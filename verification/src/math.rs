//! Powers of two, segregation classes and big-endian prefixes.

use vstd::prelude::*;
use vstd::arithmetic::power2::pow2;
use vstd::arithmetic::power2::lemma_pow2_adds;
use vstd::arithmetic::power2::lemma_pow2_pos;
use vstd::arithmetic::power2::lemma_pow2_strictly_increases;
use vstd::arithmetic::power2::lemma2_to64;
use vstd::arithmetic::power2::lemma2_to64_rest;

verus! {

/// `2^e`, computed executably.
pub fn pow2_u64(e: u64) -> (r: u64)
    requires
        e < 64,
    ensures
        r == pow2(e as nat),
        r >= 1,
{
    proof {
        lemma2_to64();
    }
    let mut r: u64 = 1;
    let mut i: u64 = 0;
    while i < e
        invariant
            i <= e,
            e < 64,
            r == pow2(i as nat),
        decreases e - i,
    {
        proof {
            lemma_pow2_adds(i as nat, 1);
            lemma2_to64();
            lemma_pow2_strictly_increases((i + 1) as nat, 64);
            lemma2_to64_rest();
        }
        r = r * 2;
        i = i + 1;
    }
    proof {
        lemma_pow2_pos(e as nat);
    }
    r
}

/// The segregation class of a value-list length: the smallest `c` with
/// `n <= 2^c` (so a class-`c` block, holding `2^c` elements, fits it).
pub open spec fn size_class(n: nat) -> nat
    decreases n,
{
    if n <= 1 {
        0
    } else {
        1 + size_class(((n + 1) / 2) as nat)
    }
}

/// A length always fits in a block of its own class.
pub proof fn lemma_size_class_fits(n: nat)
    ensures
        n <= pow2(size_class(n)),
    decreases n,
{
    if n <= 1 {
        lemma2_to64();
    } else {
        let m = ((n + 1) / 2) as nat;
        lemma_size_class_fits(m);
        lemma_pow2_adds(size_class(m), 1);
        lemma2_to64();
    }
}

/// The class never exceeds the exponent of a power-of-two bound on the
/// length.
pub proof fn lemma_size_class_le(n: nat, e: nat)
    requires
        n <= pow2(e),
    ensures
        size_class(n) <= e,
    decreases n,
{
    if n <= 1 {
    } else {
        let m = ((n + 1) / 2) as nat;
        lemma2_to64();
        if e == 0 {
            assert(false);
        }
        lemma_pow2_adds((e - 1) as nat, 1);
        assert(pow2(e) == pow2((e - 1) as nat) * 2);
        assert(m <= pow2((e - 1) as nat));
        lemma_size_class_le(m, (e - 1) as nat);
    }
}

/// The class is the unique `e` with `2^(e-1) < n <= 2^e` (and `0` for
/// `n <= 1`).
pub proof fn lemma_size_class_unique(n: nat, e: nat)
    requires
        n >= 1,
        n <= pow2(e),
        e > 0 ==> pow2((e - 1) as nat) < n,
    ensures
        size_class(n) == e,
    decreases e,
{
    lemma2_to64();
    if e == 0 {
        assert(n <= 1);
    } else {
        let m = ((n + 1) / 2) as nat;
        lemma_pow2_adds((e - 1) as nat, 1);
        assert(pow2(e) == pow2((e - 1) as nat) * 2);
        assert(n >= 2);
        if e == 1 {
            assert(n == 2);
            assert(m == 1);
            assert(size_class(n) == 1 + size_class(1));
        } else {
            lemma_pow2_adds((e - 2) as nat, 1);
            assert(pow2((e - 1) as nat) == pow2((e - 2) as nat) * 2);
            assert(m <= pow2((e - 1) as nat));
            assert(pow2((e - 2) as nat) < m);
            lemma_size_class_unique(m, (e - 1) as nat);
        }
    }
}

/// Executable form of `size_class`; also returns the class capacity.
pub fn size_class_exec(n: usize) -> (r: (u8, u64))
    requires
        n < 0x4000_0000_0000_0000,
    ensures
        r.0 == size_class(n as nat),
        r.0 <= 62,
        r.1 == pow2(r.0 as nat),
        n <= r.1,
{
    proof {
        lemma2_to64();
        lemma2_to64_rest();
    }
    proof {
        lemma_pow2_pos(0);
    }
    let mut e: u8 = 0;
    let mut c: u64 = 1;
    while c < n as u64
        invariant
            n < 0x4000_0000_0000_0000,
            c == pow2(e as nat),
            c >= 1,
            e > 0 ==> pow2((e - 1) as nat) < n,
            c < n as u64 ==> c < 0x4000_0000_0000_0000,
            e <= 62,
        decreases 62 - e as int,
    {
        proof {
            lemma_pow2_adds(e as nat, 1);
            lemma2_to64();
            if e as nat + 1 < 62 {
                lemma_pow2_strictly_increases((e + 1) as nat, 62);
            }
            lemma2_to64_rest();
            lemma_pow2_pos((e + 1) as nat);
        }
        c = c * 2;
        e = e + 1;
    }
    proof {
        if n >= 1 {
            lemma_size_class_unique(n as nat, e as nat);
        }
    }
    (e, c)
}

/// The big-endian value of the first `n` bytes of a sequence.
pub open spec fn be_val(s: Seq<u8>, n: int) -> nat
    decreases n,
{
    if n <= 0 {
        0
    } else {
        (be_val(s, n - 1) * 256 + s[n - 1]) as nat
    }
}

/// The 64-bit big-endian prefix of a key's bytes.
pub open spec fn be_u64_of(s: Seq<u8>) -> nat {
    be_val(s, 8)
}

/// Reads the first 8 bytes of `input` as a big-endian unsigned integer.
pub fn read_be_u64(input: &[u8]) -> (r: u64)
    requires
        input@.len() >= 8,
    ensures
        r as nat == be_u64_of(input@),
{
    proof {
        lemma2_to64();
    }
    let mut r: u64 = 0;
    let mut i: usize = 0;
    while i < 8
        invariant
            0 <= i <= 8,
            input@.len() >= 8,
            r as nat == be_val(input@, i as int),
            (r as nat) < pow2((8 * i) as nat),
        decreases 8 - i,
    {
        proof {
            lemma_pow2_adds((8 * i) as nat, 8);
            lemma2_to64();
            lemma2_to64_rest();
        }
        r = r * 256 + (input[i] as u64);
        i = i + 1;
    }
    r
}

pub proof fn lemma_be_val_bound(s: Seq<u8>, n: int)
    requires
        0 <= n <= s.len(),
    ensures
        be_val(s, n) < pow2((8 * n) as nat),
    decreases n,
{
    if n <= 0 {
        lemma2_to64();
    } else {
        lemma_be_val_bound(s, n - 1);
        lemma_pow2_adds((8 * (n - 1)) as nat, 8);
        lemma2_to64();
    }
}

} // verus!
