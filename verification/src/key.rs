//! Values that a unique pool can deduplicate: equality decided on their
//! view, and a hash that is a function of their view.

use vstd::prelude::*;
use vstd::utf8::*;
use vstd::string::*;

verus! {

/// A value that a [`UniquePool`](crate::pool::UniquePool) can hold.
///
/// Two keys are the same key exactly when their views are equal, and the hash
/// of a key depends on its view alone.
pub trait PoolKey: View + Sized {
    /// The hash of a key with view `v`.
    spec fn hash_view(v: Self::V) -> u64;

    /// Are `self` and `other` the same key?
    fn key_eq(&self, other: &Self) -> (r: bool)
        ensures
            r == (self@ == other@),
    ;

    /// The hash of `self`.
    fn key_hash(&self) -> (r: u64)
        ensures
            r == Self::hash_view(self@),
    ;
}

/// Keys that are the same key hash alike.
pub proof fn lemma_equal_keys_hash_alike<K: PoolKey>(a: &K, b: &K)
    requires
        a@ == b@,
    ensures
        K::hash_view(a@) == K::hash_view(b@),
{
}

/// Starting value of the FNV-1a hash.
pub const FNV_OFFSET: u64 = 0xcbf2_9ce4_8422_2325;

/// Multiplier of the FNV-1a hash.
pub const FNV_PRIME: u64 = 0x0100_0000_01b3;

/// One FNV-1a step: mix in one 64-bit word.
pub open spec fn fnv_step(h: u64, w: u64) -> u64 {
    (h ^ w).wrapping_mul(FNV_PRIME)
}

/// The FNV-1a hash of a sequence of bytes.
pub open spec fn fnv_bytes(b: Seq<u8>) -> u64
    decreases b.len(),
{
    if b.len() == 0 {
        FNV_OFFSET
    } else {
        fnv_step(fnv_bytes(b.drop_last()), b.last() as u64)
    }
}

/// Computes the FNV-1a hash of a byte slice.
pub fn fnv_hash_bytes(b: &[u8]) -> (r: u64)
    ensures
        r == fnv_bytes(b@),
{
    let mut h: u64 = FNV_OFFSET;
    let mut i: usize = 0;
    while i < b.len()
        invariant
            i <= b@.len(),
            h == fnv_bytes(b@.subrange(0, i as int)),
        decreases b@.len() - i,
    {
        assert(b@.subrange(0, i as int + 1).drop_last() =~= b@.subrange(0, i as int));
        h = (h ^ (b[i] as u64)).wrapping_mul(FNV_PRIME);
        i = i + 1;
    }
    assert(b@.subrange(0, i as int) =~= b@);
    h
}

/// Are two byte slices equal?
pub fn bytes_eq(a: &[u8], b: &[u8]) -> (r: bool)
    ensures
        r == (a@ == b@),
{
    if a.len() != b.len() {
        return false;
    }
    let mut i: usize = 0;
    while i < a.len()
        invariant
            a@.len() == b@.len(),
            i <= a@.len(),
            forall|j: int| 0 <= j < i ==> a@[j] == b@[j],
        decreases a@.len() - i,
    {
        if a[i] != b[i] {
            return false;
        }
        i = i + 1;
    }
    assert(a@ =~= b@);
    true
}

impl PoolKey for String {
    open spec fn hash_view(v: Seq<char>) -> u64 {
        fnv_bytes(encode_utf8(v))
    }

    fn key_eq(&self, other: &Self) -> (r: bool) {
        *self == *other
    }

    fn key_hash(&self) -> (r: u64) {
        fnv_hash_bytes(self.as_str().as_bytes())
    }
}

impl<'a> PoolKey for &'a str {
    open spec fn hash_view(v: Seq<char>) -> u64 {
        fnv_bytes(encode_utf8(v))
    }

    fn key_eq(&self, other: &Self) -> (r: bool) {
        let r = bytes_eq(self.as_bytes(), other.as_bytes());
        proof {
            encode_utf8_decode_utf8(self@);
            encode_utf8_decode_utf8(other@);
        }
        r
    }

    fn key_hash(&self) -> (r: u64) {
        fnv_hash_bytes(self.as_bytes())
    }
}

} // verus!
