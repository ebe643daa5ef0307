//! Sets of small natural numbers, held in `bit_set::BitSet`.
//!
//! The outside set is held in a private field of a struct; its contents are
//! named, and each method that the library calls has a wrapper
//! whose contract states, over that name, what the method does.

use crate::key::{fnv_step, PoolKey, FNV_OFFSET, FNV_PRIME};
use bit_set::BitSet;
use vstd::prelude::*;

verus! {

/// A set of small natural numbers, held in a `bit_set::BitSet`.
#[verifier::external_body]
#[derive(Debug, PartialEq, Eq)]
pub struct Bits {
    set: BitSet,
}

/// The numbers that a bit set holds.
pub uninterp spec fn bits_of(s: Bits) -> Set<usize>;

/// `BitSet::new`: an empty set.
#[verifier::external_body]
pub(crate) fn bitset_new() -> (r: Bits)
    ensures
        bits_of(r) == Set::<usize>::empty(),
{
    Bits { set: BitSet::new() }
}

/// `BitSet::insert`: adds `value`; true when it was not held before.
#[verifier::external_body]
pub(crate) fn bitset_insert(s: &mut Bits, value: usize) -> (r: bool)
    requires
        value < usize::MAX,
    ensures
        bits_of(*final(s)) == bits_of(*old(s)).insert(value),
        r == !bits_of(*old(s)).contains(value),
{
    s.set.insert(value)
}

/// `BitSet::union_with`: adds every number of `other`.
#[verifier::external_body]
pub(crate) fn bitset_union_with(s: &mut Bits, other: &Bits)
    ensures
        bits_of(*final(s)) == bits_of(*old(s)).union(bits_of(*other)),
{
    s.set.union_with(&other.set)
}

/// `BitSet::difference_with`: removes every number of `other`.
#[verifier::external_body]
pub(crate) fn bitset_difference_with(s: &mut Bits, other: &Bits)
    ensures
        bits_of(*final(s)) == bits_of(*old(s)).difference(bits_of(*other)),
{
    s.set.difference_with(&other.set)
}

/// `BitSet::is_empty`: whether the set holds no number.
#[verifier::external_body]
pub(crate) fn bitset_is_empty(s: &Bits) -> (r: bool)
    ensures
        r == (bits_of(*s) == Set::<usize>::empty()),
{
    s.set.is_empty()
}

/// `<BitSet as Clone>::clone`: a set holding the same numbers.
#[verifier::external_body]
pub(crate) fn bitset_clone(s: &Bits) -> (r: Bits)
    ensures
        bits_of(r) == bits_of(*s),
{
    Bits { set: s.set.clone() }
}

/// `BitSet::iter`: the numbers of the set, in increasing order.
#[verifier::external_body]
pub(crate) fn bitset_elements(s: &Bits) -> (r: Vec<usize>)
    ensures
        r@.to_set() == bits_of(*s),
        forall|i: int, j: int| 0 <= i < j < r@.len() ==> r@[i] < r@[j],
{
    s.set.iter().collect()
}

/// `BitSet::from_bytes`: the numbers `i` whose bit is set in `bytes`, the
/// most significant bit of each byte first.
#[verifier::external_body]
fn bitset_from_bytes(bytes: &[u8]) -> (r: Bits)
    requires
        bytes@.len() * 8 <= usize::MAX,
    ensures
        bits_of(r) == bits_from_bytes(bytes@),
{
    Bits { set: BitSet::from_bytes(bytes) }
}

/// The numbers whose bit is set in `bytes`, eight to a byte, the most
/// significant bit of each byte first.
pub open spec fn bits_from_bytes(bytes: Seq<u8>) -> Set<usize> {
    Set::new(|i: usize| i < bytes.len() * 8 && (bytes[(i / 8) as int] >> ((7 - i % 8) as u8)) & 1u8 == 1u8)
}

impl View for Bits {
    type V = Set<usize>;

    open spec fn view(&self) -> Set<usize> {
        bits_of(*self)
    }
}

impl Clone for Bits {
    fn clone(&self) -> (r: Self)
        ensures
            r@ == self@,
    {
        bitset_clone(self)
    }
}

impl Bits {
    /// The set of the numbers whose bit is set in `bytes`, eight to a byte,
    /// the most significant bit of each byte first.
    pub fn from_bytes(bytes: &[u8]) -> (r: Self)
        requires
            bytes@.len() * 8 <= usize::MAX,
        ensures
            r@ == bits_from_bytes(bytes@),
    {
        bitset_from_bytes(bytes)
    }
}

/// `q` holds its numbers in increasing order.
pub open spec fn increasing(q: Seq<usize>) -> bool {
    forall|i: int, j: int| 0 <= i < j < q.len() ==> q[i] < q[j]
}

/// The numbers of a finite set in increasing order.
pub open spec fn sorted_elems(s: Set<usize>) -> Seq<usize> {
    choose|q: Seq<usize>| increasing(q) && q.to_set() == s
}

/// Two increasing sequences of the same numbers are the same sequence.
pub proof fn lemma_increasing_unique(a: Seq<usize>, b: Seq<usize>)
    requires
        increasing(a),
        increasing(b),
        a.to_set() == b.to_set(),
    ensures
        a == b,
    decreases a.len() + b.len(),
{
    if a.len() == 0 || b.len() == 0 {
        if a.len() > 0 {
            assert(a.to_set().contains(a[0]));
            assert(b.to_set().contains(a[0]));
        }
        if b.len() > 0 {
            assert(b.to_set().contains(b[0]));
            assert(a.to_set().contains(b[0]));
        }
        assert(a =~= b);
    } else {
        let x = a.last();
        let y = b.last();
        assert(a.to_set().contains(x));
        assert(b.to_set().contains(y));
        assert(b.contains(x));
        assert(a.contains(y));
        let ix = choose|i: int| 0 <= i < b.len() && b[i] == x;
        let iy = choose|i: int| 0 <= i < a.len() && a[i] == y;
        assert(x <= y);
        assert(y <= x);
        let a1 = a.drop_last();
        let b1 = b.drop_last();
        assert forall|v: usize| a1.to_set().contains(v) == b1.to_set().contains(v) by {
            if a1.contains(v) {
                let i = choose|i: int| 0 <= i < a1.len() && a1[i] == v;
                assert(a[i] == v && v < x);
                assert(a.contains(v));
                assert(b.to_set().contains(v));
                let k = choose|k: int| 0 <= k < b.len() && b[k] == v;
                assert(k < b.len() - 1);
                assert(b1[k] == v);
            }
            if b1.contains(v) {
                let i = choose|i: int| 0 <= i < b1.len() && b1[i] == v;
                assert(b[i] == v && v < y);
                assert(b.contains(v));
                assert(a.to_set().contains(v));
                let k = choose|k: int| 0 <= k < a.len() && a[k] == v;
                assert(k < a.len() - 1);
                assert(a1[k] == v);
            }
        }
        assert(a1.to_set() =~= b1.to_set());
        lemma_increasing_unique(a1, b1);
        assert(a =~= a1.push(x));
        assert(b =~= b1.push(y));
    }
}

/// The FNV-1a hash of a sequence of numbers, one 64-bit word each.
pub open spec fn fnv_words(q: Seq<usize>) -> u64
    decreases q.len(),
{
    if q.len() == 0 {
        FNV_OFFSET
    } else {
        fnv_step(fnv_words(q.drop_last()), q.last() as u64)
    }
}

impl PoolKey for Bits {
    open spec fn hash_view(v: Set<usize>) -> u64 {
        fnv_words(sorted_elems(v))
    }

    fn key_eq(&self, other: &Self) -> (r: bool) {
        let a = bitset_elements(self);
        let b = bitset_elements(other);
        if a.len() != b.len() {
            proof {
                if self@ == other@ {
                    lemma_increasing_unique(a@, b@);
                }
            }
            return false;
        }
        let mut i: usize = 0;
        while i < a.len()
            invariant
                a@.len() == b@.len(),
                i <= a@.len(),
                forall|j: int| 0 <= j < i ==> a@[j] == b@[j],
                increasing(a@),
                increasing(b@),
                a@.to_set() == self@,
                b@.to_set() == other@,
            decreases a@.len() - i,
        {
            if a[i] != b[i] {
                proof {
                    if self@ == other@ {
                        lemma_increasing_unique(a@, b@);
                    }
                }
                return false;
            }
            i = i + 1;
        }
        proof {
            assert(a@ =~= b@);
        }
        true
    }

    fn key_hash(&self) -> (r: u64) {
        let e = bitset_elements(self);
        proof {
            let q = sorted_elems(self@);
            assert(increasing(q) && q.to_set() == self@);
            lemma_increasing_unique(e@, q);
        }
        let mut h: u64 = FNV_OFFSET;
        let mut i: usize = 0;
        while i < e.len()
            invariant
                i <= e@.len(),
                h == fnv_words(e@.subrange(0, i as int)),
            decreases e@.len() - i,
        {
            assert(e@.subrange(0, i as int + 1).drop_last() =~= e@.subrange(0, i as int));
            h = (h ^ (e[i] as u64)).wrapping_mul(FNV_PRIME);
            i = i + 1;
        }
        assert(e@.subrange(0, i as int) =~= e@);
        h
    }
}

} // verus!
