//! The hash index of a unique pool: an open-addressing table with Robin Hood
//! displacement, mapping the hash of each pooled element to its position.
//!
//! Each filled slot records an element's position, its hash and its probe
//! count (steps from the home slot plus one, saturated to a byte). Slots are
//! never emptied, so every element's probe sequence is filled up to its slot.

use crate::probe::{
    home_slot, is_table_capacity, lemma_cap_log, lemma_home, lemma_log_bracket, lemma_probe_walk_bound,
    lemma_probe_zero, lemma_wrapping_step, probe_code, probe_pos, stride_of,
};
use vstd::prelude::*;
use vstd::set_lib::*;

verus! {

/// The integer positions `0..n`.
pub open spec fn positions_below(n: int) -> Set<int> {
    Set::new(|k: int| 0 <= k < n)
}

/// Base-2 logarithm of a positive `usize`, rounded down.
fn usize_ilog2(x: usize) -> (r: u32)
    requires
        x > 0,
    ensures
        vstd::arithmetic::power2::pow2(r as nat) <= x,
        x < vstd::arithmetic::power2::pow2(r as nat + 1),
{
    let mut r: u32 = 0;
    let mut y: usize = x;
    proof {
        vstd::arithmetic::power2::lemma2_to64();
    }
    while y > 1
        invariant
            1 <= y <= x,
            r <= 64,
            vstd::arithmetic::power2::pow2(r as nat) * y <= x,
            x < vstd::arithmetic::power2::pow2(r as nat) * (y + 1),
        decreases y,
    {
        let ghost p = vstd::arithmetic::power2::pow2(r as nat);
        let ghost y0 = y;
        proof {
            vstd::arithmetic::power2::lemma_pow2_unfold(r as nat + 1);
            vstd::arithmetic::power2::lemma_pow2_pos(r as nat);
        }
        y = y / 2;
        proof {
            assert(p * 2 * y <= p * y0) by (nonlinear_arith)
                requires
                    y == y0 / 2,
                    p > 0,
            ;
            assert(p * (y0 + 1) <= p * 2 * (y + 1)) by (nonlinear_arith)
                requires
                    y == y0 / 2,
                    p > 0,
            ;
            assert(p * 2 <= p * 2 * y) by (nonlinear_arith)
                requires
                    y >= 1,
                    p > 0,
            ;
            vstd::arithmetic::power2::lemma2_to64();
            if r >= 63 {
                if r > 63 {
                    vstd::arithmetic::power2::lemma_pow2_strictly_increases(64, r as nat);
                }
                assert(p >= 0x8000000000000000);
                assert(false);
            }
        }
        r = r + 1;
    }
    proof {
        let p = vstd::arithmetic::power2::pow2(r as nat);
        vstd::arithmetic::power2::lemma_pow2_unfold(r as nat + 1);
        assert(x < p * 2) by (nonlinear_arith)
            requires
                y == 1,
                x < p * (y + 1),
        ;
    }
    r
}

/// A filled slot as handed out when the index is rebuilt.
pub(crate) struct UniquePoolIndexEntry {
    /// element position
    pub(crate) ind: u32,
    /// element hash
    pub(crate) hash: u64,
}

/// The hash index of a unique pool. The three vectors have the same length,
/// the capacity; entries at the same position correspond.
pub(crate) struct UniquePoolIndex {
    /// position of the element in the pool
    indices: Vec<u32>,
    /// hash of the element
    hashes: Vec<u64>,
    /// probe count of the entry; 0 for an empty slot
    probes: Vec<u8>,
    /// largest probe count in the index
    max_probe: u8,
    /// number of steps from its home slot of the entry in each slot
    dist: Ghost<Seq<nat>>,
    /// the slot of each element held
    slot_of: Ghost<Map<int, int>>,
}

impl UniquePoolIndex {
    /// The number of slots.
    pub(crate) closed spec fn cap(&self) -> nat {
        self.indices@.len()
    }

    /// Slot `s` holds an entry.
    pub(crate) closed spec fn filled(&self, s: int) -> bool {
        0 <= s < self.indices@.len() && self.probes@[s] > 0
    }

    /// The filled slots.
    pub(crate) closed spec fn filled_slots(&self) -> Set<int> {
        Set::new(|s: int| self.filled(s))
    }

    /// The element recorded in slot `s`.
    pub(crate) closed spec fn elem_at(&self, s: int) -> int {
        self.indices@[s] as int
    }

    /// The slot of element `e`.
    pub(crate) closed spec fn slot(&self, e: int) -> int {
        self.slot_of@[e]
    }

    /// The number of steps from its home slot to the slot of element `e`.
    pub(crate) closed spec fn dist_of(&self, e: int) -> nat {
        self.dist@[self.slot_of@[e]]
    }

    /// The entry in filled slot `s` is consistent with the element hashes `hs`
    /// and the set `present` of elements held.
    closed spec fn entry_ok(&self, hs: Seq<u64>, present: Set<int>, s: int) -> bool {
        let h = self.hashes@[s];
        let d = self.dist@[s];
        let e = self.indices@[s] as int;
        &&& 0 <= e < hs.len()
        &&& present.contains(e)
        &&& hs[e] == h
        &&& d < self.cap()
        &&& probe_pos(h, self.cap(), d as int) == s
        &&& self.probes@[s] == probe_code(d)
        &&& self.probes@[s] <= self.max_probe
        &&& forall|j: int| 0 <= j < d ==> self.filled(#[trigger] probe_pos(h, self.cap(), j))
        &&& self.slot_of@.dom().contains(e)
        &&& self.slot_of@[e] == s
    }

    /// The index holds exactly the elements `present`, whose hashes are given by `hs`.
    pub(crate) closed spec fn wf(&self, hs: Seq<u64>, present: Set<int>) -> bool {
        &&& self.hashes@.len() == self.cap()
        &&& self.probes@.len() == self.cap()
        &&& self.dist@.len() == self.cap()
        &&& self.cap() == 0 || is_table_capacity(self.cap())
        &&& forall|s: int| #[trigger] self.filled(s) ==> self.entry_ok(hs, present, s)
        &&& self.slot_of@.dom() == present
        &&& forall|k: int|
            present.contains(k) ==> #[trigger] self.filled(self.slot_of@[k]) && self.indices@[self.slot_of@[k]]
                == k
        &&& present.finite()
        &&& self.filled_slots().finite()
        &&& self.filled_slots().len() == present.len()
    }

    /// The weight of slot `j` in the displacement sum: its distance if filled.
    closed spec fn weight(&self, j: int) -> int {
        if self.filled(j) {
            self.dist@[j] as int
        } else {
            0
        }
    }

    /// The sum of the distances of the entries in slots `0..k`.
    closed spec fn dist_sum(&self, k: int) -> int
        decreases k,
    {
        if k <= 0 {
            0
        } else {
            self.dist_sum(k - 1) + self.weight(k - 1)
        }
    }

    proof fn lemma_dist_sum_update(&self, other: &Self, i: int, k: int)
        requires
            0 <= i,
            forall|j: int| 0 <= j < k && j != i ==> self.weight(j) == other.weight(j),
        ensures
            k > i ==> other.dist_sum(k) == self.dist_sum(k) - self.weight(i) + other.weight(i),
            k <= i ==> other.dist_sum(k) == self.dist_sum(k),
        decreases k,
    {
        if k > 0 {
            self.lemma_dist_sum_update(other, i, k - 1);
        }
    }

    proof fn lemma_dist_sum_bound(&self, hs: Seq<u64>, present: Set<int>, k: int)
        requires
            self.wf(hs, present),
            0 <= k <= self.cap(),
        ensures
            0 <= self.dist_sum(k) <= k * self.cap(),
        decreases k,
    {
        if k > 0 {
            self.lemma_dist_sum_bound(hs, present, k - 1);
            if self.filled(k - 1) {
                assert(self.entry_ok(hs, present, k - 1));
            }
            assert((k - 1) * self.cap() + self.cap() == k * self.cap()) by (nonlinear_arith);
        }
    }

    /// The filled slots lie below the capacity.
    proof fn lemma_filled_finite(&self)
        ensures
            self.filled_slots().finite(),
            self.filled_slots().len() <= self.cap(),
    {
        lemma_int_range(0, self.cap() as int);
        assert(self.filled_slots().subset_of(set_int_range(0, self.cap() as int)));
        lemma_len_subset(self.filled_slots(), set_int_range(0, self.cap() as int));
    }

    /// Every element held sits at the end of its filled probe walk.
    pub(crate) proof fn lemma_elem(&self, hs: Seq<u64>, present: Set<int>, e: int)
        requires
            self.wf(hs, present),
            present.contains(e),
        ensures
            self.cap() > 0,
            self.filled(self.slot(e)),
            self.elem_at(self.slot(e)) == e,
            0 <= e < hs.len(),
            0 <= self.dist_of(e) < self.cap(),
            probe_pos(hs[e], self.cap(), self.dist_of(e) as int) == self.slot(e),
    {
        assert(self.filled(self.slot_of@[e]));
        assert(self.entry_ok(hs, present, self.slot_of@[e]));
    }

    /// A filled probe walk is shorter than the number of elements held.
    pub(crate) proof fn lemma_walk(&self, hs: Seq<u64>, present: Set<int>, h: u64, k: int)
        requires
            self.wf(hs, present),
            self.cap() > 0,
            present.len() < self.cap(),
            0 <= k,
            forall|j: int| 0 <= j <= k ==> self.filled(#[trigger] probe_pos(h, self.cap(), j)),
        ensures
            k + 1 <= present.len(),
    {
        assert forall|j: int| 0 <= j <= k implies self.filled_slots().contains(
            #[trigger] probe_pos(h, self.cap(), j),
        ) by {
            assert(self.filled(probe_pos(h, self.cap(), j)));
        }
        lemma_probe_walk_bound(h, self.cap(), k, self.filled_slots());
    }

    /// Creates a new, empty index.
    pub(crate) fn new() -> (r: Self)
        ensures
            r.cap() == 0,
            forall|hs: Seq<u64>| r.wf(hs, Set::empty()),
    {
        let r = UniquePoolIndex {
            indices: Vec::new(),
            hashes: Vec::new(),
            probes: Vec::new(),
            max_probe: 0,
            dist: Ghost(Seq::empty()),
            slot_of: Ghost(Map::empty()),
        };
        proof {
            assert(r.filled_slots() =~= Set::empty());
        }
        r
    }

    /// Creates a new, empty index with the given capacity, a power of two.
    pub(crate) fn with_capacity(cap: usize) -> (r: Self)
        requires
            is_table_capacity(cap as nat),
        ensures
            r.cap() == cap,
            forall|hs: Seq<u64>| r.wf(hs, Set::empty()),
    {
        let mut ret = UniquePoolIndex {
            indices: Vec::with_capacity(cap),
            hashes: Vec::with_capacity(cap),
            probes: Vec::with_capacity(cap),
            max_probe: 0,
            dist: Ghost(Seq::new(cap as nat, |i: int| 0nat)),
            slot_of: Ghost(Map::empty()),
        };
        ret.indices.resize(cap, 0);
        ret.hashes.resize(cap, 0);
        ret.probes.resize(cap, 0);
        proof {
            assert forall|s: int| 0 <= s < cap implies ret.probes@[s] == 0 by {
                assert(cloned::<u8>(0u8, ret.probes@[s]));
            }
            assert(ret.filled_slots() =~= Set::empty());
        }
        ret
    }

    /// Is the index without slots?
    pub(crate) fn is_empty(&self) -> (r: bool)
        ensures
            r == (self.cap() == 0),
    {
        self.indices.is_empty()
    }

    /// The number of slots.
    pub(crate) fn capacity(&self) -> (r: usize)
        ensures
            r == self.cap(),
    {
        self.indices.len()
    }

    /// Splits a hash into its home slot and its odd stride.
    pub(crate) fn split_hash(&self, h: u64) -> (r: (usize, usize))
        requires
            is_table_capacity(self.cap()),
        ensures
            r.0 == home_slot(h, self.cap()),
            r.0 == probe_pos(h, self.cap(), 0),
            r.0 < self.cap(),
            r.1 == stride_of(h, self.cap()),
    {
        let cap = self.capacity();
        proof {
            lemma_cap_log(cap as nat);
            lemma_home(h, cap as nat);
            lemma_probe_zero(h, cap as nat);
        }
        // all zeros followed by all ones for power-of-two size
        let low_mask = cap - 1;
        // same, reversed
        let high_mask = !low_mask;
        let hu = h as usize;
        // valid index into the hashes/probes vector
        let index = hu & low_mask;
        let lg = usize_ilog2(cap);
        proof {
            lemma_log_bracket(cap as nat, lg as nat);
        }
        // stride into the hashes/probes vector (odd number)
        let stride = ((hu & high_mask) >> (lg - 1)) | 0x1;
        (index, stride)
    }

    /// Advances a probe position by a stride and counts the probe.
    pub(crate) fn next_index(&self, i: &mut usize, stride: usize, probe: &mut u8)
        requires
            is_table_capacity(self.cap()),
        ensures
            *final(i) as int == (*old(i) as int + stride as int) % (self.cap() as int),
            *final(probe) == (if *old(probe) < 255 { (*old(probe) + 1) as u8 } else { 255u8 }),
    {
        proof {
            lemma_wrapping_step(*i, stride, self.cap());
            lemma_cap_log(self.cap());
        }
        // add the stride, mask off bits above power-of-two size
        *i = i.wrapping_add(stride) & self.capacity().wrapping_sub(1);
        *probe = probe.saturating_add(1);
    }

    /// Sets the entry of slot `i`.
    fn set_hash_entry(&mut self, i: usize, ind: u32, h: u64, probe: u8)
        requires
            i < old(self).cap(),
            old(self).hashes@.len() == old(self).cap(),
            old(self).probes@.len() == old(self).cap(),
        ensures
            final(self).indices@ == old(self).indices@.update(i as int, ind),
            final(self).hashes@ == old(self).hashes@.update(i as int, h),
            final(self).probes@ == old(self).probes@.update(i as int, probe),
            final(self).max_probe == (if old(self).max_probe < probe { probe } else { old(self).max_probe }),
            final(self).dist == old(self).dist,
            final(self).slot_of == old(self).slot_of,
    {
        self.indices.set(i, ind);
        self.hashes.set(i, h);
        self.probes.set(i, probe);
        if self.max_probe < probe {
            self.max_probe = probe;
        }
    }

    /// Looks up a hash, starting at position `i` with probe count `probe`.
    /// Returns the first slot at or after that point of the walk whose hash
    /// matches, or `None` when the walk ends without a match.
    pub(crate) fn find(
        &self,
        h: u64,
        i: usize,
        probe: &mut u8,
        Ghost(hs): Ghost<Seq<u64>>,
        Ghost(present): Ghost<Set<int>>,
        Ghost(k): Ghost<int>,
    ) -> (r: Option<usize>)
        requires
            self.wf(hs, present),
            present.len() < self.cap() || self.cap() == 0,
            0 <= k,
            self.cap() > 0 ==> i == probe_pos(h, self.cap(), k),
            *old(probe) == probe_code(k as nat),
            forall|j: int| 0 <= j < k ==> self.filled(#[trigger] probe_pos(h, self.cap(), j)),
        ensures
            match r {
                Some(j) => exists|k2: int|
                    {
                        &&& k <= k2
                        &&& j == probe_pos(h, self.cap(), k2)
                        &&& *final(probe) == probe_code(k2 as nat)
                        &&& self.filled(j as int)
                        &&& present.contains(self.elem_at(j as int))
                        &&& hs[self.elem_at(j as int)] == h
                        &&& self.dist_of(self.elem_at(j as int)) == k2
                        &&& forall|t: int| 0 <= t <= k2 ==> self.filled(#[trigger] probe_pos(h, self.cap(), t))
                        &&& forall|e: int|
                            present.contains(e) && hs[e] == h ==> !(k <= #[trigger] self.dist_of(e) < k2)
                    },
                None => forall|e: int| present.contains(e) && hs[e] == h ==> #[trigger] self.dist_of(e) < k,
            },
    {
        // Not present if empty
        if self.is_empty() {
            proof {
                self.lemma_filled_finite();
                assert(present.len() == 0);
                assert forall|e: int| present.contains(e) implies false by {
                    vstd::set::axiom_set_contains_len(present, e);
                }
            }
            return None;
        }
        let ghost cap = self.cap();
        let mut i = i;
        let ghost mut kk = k;
        // search through, not exceeding maximum probe count
        let (_, stride) = self.split_hash(h);
        proof {
            if k > 0 {
                self.lemma_walk(hs, present, h, k - 1);
            }
        }
        while *probe <= self.max_probe && self.probes[i] > 0
            invariant
                self.wf(hs, present),
                cap == self.cap(),
                is_table_capacity(cap),
                present.len() < cap,
                stride == stride_of(h, cap),
                0 <= k <= kk <= present.len(),
                i == probe_pos(h, cap, kk),
                *probe == probe_code(kk as nat),
                forall|j: int| 0 <= j < kk ==> self.filled(#[trigger] probe_pos(h, cap, j)),
                forall|e: int| present.contains(e) && hs[e] == h ==> !(k <= #[trigger] self.dist_of(e) < kk),
            decreases cap - kk,
        {
            proof {
                crate::probe::lemma_probe_step(h, cap, kk);
                assert(self.filled(probe_pos(h, cap, kk)));
                self.lemma_walk(hs, present, h, kk);
            }
            if self.hashes[i] == h {
                proof {
                    assert(self.filled(i as int));
                    assert(self.entry_ok(hs, present, i as int));
                    let e = self.elem_at(i as int);
                    let d = self.dist@[i as int];
                    if d != kk {
                        crate::probe::lemma_probes_distinct(h, cap, d as int, kk);
                    }
                    assert(self.slot_of@[e] == i);
                }
                return Some(i);
            }
            proof {
                assert forall|e: int| present.contains(e) && hs[e] == h implies !(k <= #[trigger] self.dist_of(e)
                    < kk + 1) by {
                    self.lemma_elem(hs, present, e);
                    if self.dist_of(e) == kk {
                        assert(self.hashes@[i as int] == hs[e]) by {
                            assert(self.entry_ok(hs, present, self.slot_of@[e]));
                        }
                    }
                }
            }
            self.next_index(&mut i, stride, probe);
            proof {
                kk = kk + 1;
            }
        }
        proof {
            assert forall|e: int| present.contains(e) && hs[e] == h implies #[trigger] self.dist_of(e) < k by {
                self.lemma_elem(hs, present, e);
                let s = self.slot_of@[e];
                assert(self.entry_ok(hs, present, s));
                if self.dist_of(e) >= k {
                    if self.dist_of(e) == kk {
                        assert(s == i);
                    } else {
                        assert(self.filled(probe_pos(h, cap, kk)));
                    }
                }
            }
        }
        // not found
        None
    }

    /// Inserts a new element `ind` with hash `h`, which must not be held yet,
    /// into an index with room for it. Entries closer to their home slot
    /// than the element being placed give way and move further along their walk.
    #[verifier::spinoff_prover]
    #[verifier::rlimit(50)]
    pub(crate) fn insert(&mut self, h: u64, ind: u32, Ghost(hs): Ghost<Seq<u64>>, Ghost(present): Ghost<Set<int>>)
        requires
            old(self).wf(hs, present),
            old(self).cap() > 0,
            0 <= ind < hs.len(),
            hs[ind as int] == h,
            !present.contains(ind as int),
            present.len() < old(self).cap(),
        ensures
            final(self).wf(hs, present.insert(ind as int)),
            final(self).cap() == old(self).cap(),
    {
        let ghost cap = self.cap();
        let ghost target = present.insert(ind as int);
        let ghost mut placed = present;
        let ghost mut d: nat = 0;
        let mut h = h;
        let mut ind = ind;
        // current hash-entry index and stride
        let (mut i, mut stride) = self.split_hash(h);
        // count of probes
        let mut probe: u8 = 1;
        proof {
            self.lemma_dist_sum_bound(hs, placed, cap as int);
        }
        // search for location where insert can end
        loop
            invariant
                self.cap() == cap,
                cap > 0,
                is_table_capacity(cap),
                self.wf(hs, placed),
                !placed.contains(ind as int),
                placed.insert(ind as int) == target,
                placed.len() == present.len(),
                present.len() < cap,
                0 <= ind < hs.len(),
                hs[ind as int] == h,
                d < cap,
                i == probe_pos(h, cap, d as int),
                stride == stride_of(h, cap),
                probe == probe_code(d),
                forall|j: int| 0 <= j < d ==> self.filled(#[trigger] probe_pos(h, cap, j)),
                0 <= self.dist_sum(cap as int) <= cap * cap,
            ensures
                self.cap() == cap,
                self.wf(hs, placed),
                !placed.contains(ind as int),
                placed.insert(ind as int) == target,
                0 <= ind < hs.len(),
                hs[ind as int] == h,
                d < cap,
                i == probe_pos(h, cap, d as int),
                probe == probe_code(d),
                forall|j: int| 0 <= j < d ==> self.filled(#[trigger] probe_pos(h, cap, j)),
                !self.filled(i as int),
            decreases cap * cap + cap - (self.dist_sum(cap as int) + d),
        {
            let ghost phi0 = self.dist_sum(cap as int) + d;
            // search for "wealthy" tenant to evict
            while self.probes[i] > probe
                invariant
                    self.dist_sum(cap as int) + d >= phi0,
                    self.cap() == cap,
                    cap > 0,
                    is_table_capacity(cap),
                    self.wf(hs, placed),
                    placed.len() == present.len(),
                    present.len() < cap,
                    d < cap,
                    i == probe_pos(h, cap, d as int),
                    stride == stride_of(h, cap),
                    probe == probe_code(d),
                    forall|j: int| 0 <= j < d ==> self.filled(#[trigger] probe_pos(h, cap, j)),
                    0 <= self.dist_sum(cap as int) <= cap * cap,
                decreases cap * cap + cap - (self.dist_sum(cap as int) + d),
            {
                proof {
                    crate::probe::lemma_probe_step(h, cap, d as int);
                    assert(self.filled(probe_pos(h, cap, d as int)));
                    self.lemma_walk(hs, placed, h, d as int);
                }
                self.next_index(&mut i, stride, &mut probe);
                proof {
                    d = d + 1;
                }
            }
            proof {
                crate::probe::lemma_probe_step(h, cap, d as int);
            }
            // found empty location
            if self.probes[i] == 0 {
                break;
            }
            // otherwise evict "wealthy" tenant and continue loop
            let (h2, ind2, probe2) = (self.hashes[i], self.indices[i], self.probes[i]);
            let (_, stride2) = self.split_hash(h2);
            let ghost old_self = *self;
            let ghost d2 = self.dist@[i as int];
            proof {
                assert(self.filled(i as int));
                assert(self.entry_ok(hs, placed, i as int));
            }
            self.set_hash_entry(i, ind, h, probe);
            self.dist = Ghost(self.dist@.update(i as int, d));
            self.slot_of = Ghost(self.slot_of@.remove(ind2 as int).insert(ind as int, i as int));
            let ghost new_placed = placed.remove(ind2 as int).insert(ind as int);
            proof {
                assert(old_self.filled_slots() =~= self.filled_slots());
                assert forall|s: int| #[trigger] self.filled(s) implies self.entry_ok(hs, new_placed, s) by {
                    assert(old_self.filled(s));
                    assert(old_self.entry_ok(hs, placed, s));
                    if s != i {
                        assert forall|j: int| 0 <= j < self.dist@[s] implies self.filled(
                            #[trigger] probe_pos(self.hashes@[s], cap, j),
                        ) by {
                            assert(old_self.filled(probe_pos(old_self.hashes@[s], cap, j)));
                        }
                    } else {
                        assert forall|j: int| 0 <= j < d implies self.filled(#[trigger] probe_pos(h, cap, j)) by {
                            assert(old_self.filled(probe_pos(h, cap, j)));
                        }
                    }
                }
                assert(self.slot_of@.dom() =~= new_placed);
                assert forall|k: int| new_placed.contains(k) implies #[trigger] self.filled(self.slot_of@[k])
                    && self.indices@[self.slot_of@[k]] == k by {
                    if k != ind {
                        assert(old_self.filled(old_self.slot_of@[k]));
                    }
                }
                assert(new_placed.len() == placed.len());
                assert forall|j: int| 0 <= j < cap && j != i implies old_self.weight(j) == self.weight(j) by {}
                old_self.lemma_dist_sum_update(self, i as int, cap as int);
                assert(self.dist_sum(cap as int) == old_self.dist_sum(cap as int) - d2 + d);
                placed = new_placed;
                self.lemma_dist_sum_bound(hs, placed, cap as int);
                assert(new_placed.remove(ind2 as int).insert(ind2 as int) =~= new_placed.insert(ind2 as int));
                assert(placed.insert(ind2 as int) =~= target);
                // the evicted tenant continues along its own walk
                crate::probe::lemma_probe_step(h2, cap, d2 as int);
                assert(self.filled(probe_pos(h2, cap, d2 as int)));
                assert forall|j: int| 0 <= j <= d2 implies self.filled(#[trigger] probe_pos(h2, cap, j)) by {
                    if j < d2 {
                        assert(old_self.filled(probe_pos(h2, cap, j)));
                    }
                }
                self.lemma_walk(hs, placed, h2, d2 as int);
                d = d2;
            }
            h = h2;
            ind = ind2;
            probe = probe2;
            stride = stride2;
            self.next_index(&mut i, stride, &mut probe);
            proof {
                d = d + 1;
            }
        }
        // insert new element in empty slot
        let ghost old_self = *self;
        self.set_hash_entry(i, ind, h, probe);
        self.dist = Ghost(self.dist@.update(i as int, d));
        self.slot_of = Ghost(self.slot_of@.insert(ind as int, i as int));
        proof {
            let new_placed = placed.insert(ind as int);
            assert(self.filled_slots() =~= old_self.filled_slots().insert(i as int));
            assert forall|s: int| #[trigger] self.filled(s) implies self.entry_ok(hs, new_placed, s) by {
                if s != i {
                    assert(old_self.filled(s));
                    assert(old_self.entry_ok(hs, placed, s));
                    assert(self.indices@[s] != ind);
                    assert forall|j: int| 0 <= j < self.dist@[s] implies self.filled(
                        #[trigger] probe_pos(self.hashes@[s], cap, j),
                    ) by {
                        assert(old_self.filled(probe_pos(old_self.hashes@[s], cap, j)));
                    }
                } else {
                    assert forall|j: int| 0 <= j < d implies self.filled(#[trigger] probe_pos(h, cap, j)) by {
                        assert(old_self.filled(probe_pos(h, cap, j)));
                    }
                }
            }
            assert(self.slot_of@.dom() =~= new_placed);
            assert forall|k: int| new_placed.contains(k) implies #[trigger] self.filled(self.slot_of@[k])
                && self.indices@[self.slot_of@[k]] == k by {
                if k != ind {
                    assert(old_self.filled(old_self.slot_of@[k]));
                }
            }
            self.lemma_filled_finite();
        }
    }

    /// The hash recorded in slot `s`.
    pub(crate) closed spec fn hash_at(&self, s: int) -> u64 {
        self.hashes@[s]
    }

    /// What a filled slot records.
    pub(crate) proof fn lemma_filled(&self, hs: Seq<u64>, present: Set<int>, s: int)
        requires
            self.wf(hs, present),
            self.filled(s),
        ensures
            0 <= s < self.cap(),
            present.contains(self.elem_at(s)),
            0 <= self.elem_at(s) < hs.len(),
            hs[self.elem_at(s)] == self.hash_at(s),
            self.slot(self.elem_at(s)) == s,
    {
        assert(self.entry_ok(hs, present, s));
    }

    /// Every held element lies below the number held, when they are the first ones.
    pub(crate) proof fn lemma_held(&self, hs: Seq<u64>, n: int)
        requires
            self.wf(hs, positions_below(n)),
            0 <= n,
        ensures
            n <= self.cap(),
            self.cap() == 0 ==> n == 0,
            self.cap() > 0 ==> is_table_capacity(self.cap()),
    {
        self.lemma_filled_finite();
        lemma_int_range(0, n);
        assert(positions_below(n) =~= set_int_range(0, n));
    }

    /// The element recorded in slot `j`.
    pub(crate) fn ind_at(&self, j: usize, Ghost(hs): Ghost<Seq<u64>>, Ghost(present): Ghost<Set<int>>) -> (r: u32)
        requires
            self.wf(hs, present),
            j < self.cap(),
        ensures
            r as int == self.elem_at(j as int),
    {
        self.indices[j]
    }

    /// The entry of slot `j`, if it is filled.
    pub(crate) fn entry(
        &self,
        j: usize,
        Ghost(hs): Ghost<Seq<u64>>,
        Ghost(present): Ghost<Set<int>>,
    ) -> (r: Option<UniquePoolIndexEntry>)
        requires
            self.wf(hs, present),
            j < self.cap(),
        ensures
            r is Some <==> self.filled(j as int),
            r matches Some(en) ==> en.ind as int == self.elem_at(j as int) && en.hash == self.hash_at(j as int),
    {
        if self.probes[j] > 0 {
            Some(UniquePoolIndexEntry { ind: self.indices[j], hash: self.hashes[j] })
        } else {
            None
        }
    }

    /// Walking the slots of the index meets each element that it holds
    /// exactly once: every filled slot holds an element of `present`, no two
    /// filled slots hold the same element, and every element of `present`
    /// sits in a filled slot.
    pub(crate) proof fn lemma_slots_hold_each_once(&self, hs: Seq<u64>, present: Set<int>)
        requires
            self.wf(hs, present),
        ensures
            forall|s: int| #[trigger] self.filled(s) ==> present.contains(self.elem_at(s)),
            forall|s1: int, s2: int|
                #[trigger] self.filled(s1) && #[trigger] self.filled(s2) && self.elem_at(s1) == self.elem_at(s2) ==> s1 == s2,
            forall|e: int| #[trigger] present.contains(e) ==> self.filled(self.slot(e)) && self.elem_at(self.slot(e)) == e,
    {
        assert forall|s1: int, s2: int|
            #[trigger] self.filled(s1) && #[trigger] self.filled(s2) && self.elem_at(s1) == self.elem_at(s2) implies s1 == s2 by {
            assert(self.entry_ok(hs, present, s1));
            assert(self.entry_ok(hs, present, s2));
        }
        assert forall|s: int| #[trigger] self.filled(s) implies present.contains(self.elem_at(s)) by {
            assert(self.entry_ok(hs, present, s));
        }
    }

    /// The index stays consistent when the hashes of elements it does not hold change.
    pub(crate) proof fn lemma_extend_hashes(&self, hs: Seq<u64>, hs2: Seq<u64>, present: Set<int>)
        requires
            self.wf(hs, present),
            hs.len() <= hs2.len(),
            forall|e: int| 0 <= e < hs.len() ==> hs2[e] == hs[e],
        ensures
            self.wf(hs2, present),
    {
        assert forall|s: int| #[trigger] self.filled(s) implies self.entry_ok(hs2, present, s) by {
            assert(self.entry_ok(hs, present, s));
            let e = self.indices@[s] as int;
            assert(hs2[e] == hs[e]);
        }
        assert forall|k: int| present.contains(k) implies #[trigger] self.filled(self.slot_of@[k])
            && self.indices@[self.slot_of@[k]] == k by {}
        assert(self.hashes@.len() == self.cap());
        assert(self.probes@.len() == self.cap());
        assert(self.dist@.len() == self.cap());
        assert(self.cap() == 0 || is_table_capacity(self.cap()));
        assert(self.slot_of@.dom() == present);
        assert(present.finite());
        assert(self.filled_slots().finite());
        assert(self.filled_slots().len() == present.len());
    }
}

} // verus!
