//! The 32-byte key type and its byte-wise ordering.

use vstd::prelude::*;

verus! {

broadcast use vstd::array::group_array_axioms;

/// An opaque 32-byte identifier.  The index only ever reads its bytes.
#[derive(Clone, Copy, PartialEq, Eq, Hash, Debug)]
pub struct Pubkey {
    pub bytes: [u8; 32],
}

impl View for Pubkey {
    type V = Seq<u8>;

    open spec fn view(&self) -> Seq<u8> {
        self.bytes@
    }
}

/// Byte-wise (lexicographic) strict order on key bytes.
pub open spec fn lex_lt(a: Seq<u8>, b: Seq<u8>) -> bool
    decreases a.len(),
{
    if b.len() == 0 {
        false
    } else if a.len() == 0 {
        true
    } else if a[0] < b[0] {
        true
    } else if a[0] > b[0] {
        false
    } else {
        lex_lt(a.drop_first(), b.drop_first())
    }
}

/// Two equal-length sequences that agree on a prefix compare as their
/// suffixes do.
proof fn lemma_lex_skip(a: Seq<u8>, b: Seq<u8>, i: int)
    requires
        a.len() == b.len(),
        0 <= i <= a.len(),
        forall|j: int| 0 <= j < i ==> a[j] == b[j],
    ensures
        lex_lt(a, b) == lex_lt(a.skip(i), b.skip(i)),
    decreases i,
{
    if i > 0 {
        assert(a.len() > 0);
        assert(a[0] == b[0]);
        assert(a.drop_first() =~= a.skip(1));
        assert(b.drop_first() =~= b.skip(1));
        lemma_lex_skip(a.skip(1), b.skip(1), i - 1);
        assert(a.skip(1).skip(i - 1) =~= a.skip(i));
        assert(b.skip(1).skip(i - 1) =~= b.skip(i));
    } else {
        assert(a.skip(0) =~= a);
        assert(b.skip(0) =~= b);
    }
}

impl Pubkey {
    /// Builds a key from its 32 bytes.
    pub fn new_from_array(bytes: [u8; 32]) -> (r: Pubkey)
        ensures
            r@ == bytes@,
    {
        Pubkey { bytes }
    }

    /// The key's bytes, in order.
    pub fn as_bytes(&self) -> (r: &[u8])
        ensures
            r@ == self@,
            r@.len() == 32,
    {
        self.bytes.as_slice()
    }

    /// Byte-wise equality of two keys.
    pub fn key_eq(&self, other: &Pubkey) -> (r: bool)
        ensures
            r == (self@ == other@),
    {
        let mut i: usize = 0;
        while i < 32
            invariant
                0 <= i <= 32,
                forall|j: int| 0 <= j < i ==> self@[j] == other@[j],
            decreases 32 - i,
        {
            if self.bytes[i] != other.bytes[i] {
                assert(self@[i as int] != other@[i as int]);
                return false;
            }
            i = i + 1;
        }
        proof {
            assert(self@ =~= other@);
        }
        true
    }

    /// Byte-wise strict order on two keys.
    pub fn key_lt(&self, other: &Pubkey) -> (r: bool)
        ensures
            r == lex_lt(self@, other@),
    {
        let mut i: usize = 0;
        while i < 32
            invariant
                0 <= i <= 32,
                forall|j: int| 0 <= j < i ==> self@[j] == other@[j],
            decreases 32 - i,
        {
            let x = self.bytes[i];
            let y = other.bytes[i];
            if x != y {
                proof {
                    lemma_lex_skip(self@, other@, i as int);
                    assert(self@.skip(i as int)[0] == self@[i as int]);
                    assert(other@.skip(i as int)[0] == other@[i as int]);
                }
                return x < y;
            }
            i = i + 1;
        }
        proof {
            lemma_lex_skip(self@, other@, 32);
            assert(self@.skip(32).len() == 0);
            assert(other@.skip(32).len() == 0);
        }
        false
    }
}

/// A half-open range of keys: `start` inclusive, `end` exclusive; a missing
/// bound is unbounded on that side.
#[derive(Clone, Copy, Debug)]
pub struct PubkeyRange {
    pub start: Option<Pubkey>,
    pub end: Option<Pubkey>,
}

/// Whether key bytes `k` fall inside an optional half-open range.
pub open spec fn in_key_range(k: Seq<u8>, range: Option<PubkeyRange>) -> bool {
    match range {
        None => true,
        Some(r) => {
            &&& match r.start {
                None => true,
                Some(s) => !lex_lt(k, s@),
            }
            &&& match r.end {
                None => true,
                Some(e) => lex_lt(k, e@),
            }
        },
    }
}

/// Executable test of `in_key_range`.
pub fn key_in_range(key: &Pubkey, range: &Option<PubkeyRange>) -> (r: bool)
    ensures
        r == in_key_range(key@, *range),
{
    match range {
        None => true,
        Some(rg) => {
            let start_ok = match &rg.start {
                None => true,
                Some(s) => !key.key_lt(s),
            };
            let end_ok = match &rg.end {
                None => true,
                Some(e) => key.key_lt(e),
            };
            start_ok && end_ok
        },
    }
}

} // verus!
