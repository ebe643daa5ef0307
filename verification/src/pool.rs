//! Append-only pools of values, addressed by typed indices.

use crate::index::{positions_below, UniquePoolIndex};
use crate::key::PoolKey;
use crate::probe::{is_table_capacity, probe_code, probe_pos};
use std::marker::PhantomData;
use vstd::arithmetic::power2::pow2;
use vstd::prelude::*;
use vstd::std_specs::cmp::PartialEqSpecImpl;

verus! {

/// An index into a [`Pool`] or a [`UniquePool`] of `Element`s.
#[derive(Debug)]
pub struct Ind<Element> {
    i: u32,
    marker: PhantomData<Element>,
}

impl<Element> View for Ind<Element> {
    type V = nat;

    /// The position that the index designates.
    closed spec fn view(&self) -> nat {
        self.i as nat
    }
}

impl<Element> Ind<Element> {
    /// Makes the index of position `i`, which must fit in 32 bits.
    pub fn of(i: usize) -> (r: Self)
        requires
            i <= u32::MAX,
        ensures
            r@ == i,
    {
        Ind { i: i as u32, marker: PhantomData }
    }

    /// The position that the index designates, as a `usize`.
    pub fn to_usize(&self) -> (r: usize)
        ensures
            r == self@,
    {
        self.i as usize
    }

    /// An index designates a position that fits in 32 bits.
    pub proof fn lemma_bounded(a: Self)
        ensures
            a@ <= u32::MAX,
    {
    }
}

impl<Element> Clone for Ind<Element> {
    fn clone(&self) -> (r: Self)
        ensures
            r == *self,
    {
        Ind { i: self.i, marker: PhantomData }
    }
}

impl<Element> Copy for Ind<Element> {
}

impl<Element> PartialEq for Ind<Element> {
    fn eq(&self, other: &Self) -> (r: bool) {
        self.i == other.i
    }
}

impl<Element> PartialEqSpecImpl for Ind<Element> {
    open spec fn obeys_eq_spec() -> bool {
        true
    }

    open spec fn eq_spec(&self, other: &Self) -> bool {
        self@ == other@
    }
}

impl<Element> Eq for Ind<Element> {
}

/// An indexed append-only collection.
#[derive(Debug)]
pub struct Pool<Element> {
    items: Vec<Element>,
}

impl<Element> View for Pool<Element> {
    type V = Seq<Element>;

    closed spec fn view(&self) -> Seq<Element> {
        self.items@
    }
}

impl<Element> Pool<Element> {
    /// Sets up a new, empty pool.
    pub fn new() -> (r: Self)
        ensures
            r@ == Seq::<Element>::empty(),
    {
        Pool { items: Vec::new() }
    }

    /// The number of elements in the pool.
    pub fn len(&self) -> (r: usize)
        ensures
            r == self@.len(),
    {
        self.items.len()
    }

    /// Adds a new element at the end of the pool and returns its index.
    pub fn insert(&mut self, e: Element) -> (r: Ind<Element>)
        requires
            old(self)@.len() <= u32::MAX,
        ensures
            final(self)@ == old(self)@.push(e),
            r@ == old(self)@.len(),
    {
        self.items.push(e);
        Ind::of(self.items.len() - 1)
    }

    /// The element at index `i`.
    pub fn get(&self, i: Ind<Element>) -> (r: &Element)
        requires
            i@ < self@.len(),
        ensures
            *r == self@[i@ as int],
    {
        &self.items[i.to_usize()]
    }

    /// Replaces the element at index `i`.
    pub fn set(&mut self, i: Ind<Element>, e: Element)
        requires
            i@ < old(self)@.len(),
        ensures
            final(self)@ == old(self)@.update(i@ as int, e),
    {
        self.items.set(i.to_usize(), e);
    }
}


/// The most elements a hash index of capacity `cap` may hold: nine tenths of
/// the capacity, as `0.9` is rounded to single precision (`15099494 / 2^24`),
/// rounded down.
pub open spec fn max_load(cap: nat) -> nat {
    cap * 15099494 / 16777216
}

/// Computes [`max_load`].
fn load_limit(cap: usize) -> (r: usize)
    ensures
        r == max_load(cap as nat),
{
    let c = cap as u64;
    let q = c / 16777216;
    let rem = c % 16777216;
    let r = q * 15099494 + rem * 15099494 / 16777216;
    proof {
        assert(c == q * 16777216 + rem);
        assert(rem * 15099494 / 16777216 < 15099494) by (nonlinear_arith)
            requires
                rem < 16777216,
        ;
        assert((c * 15099494) == (q * 15099494) * 16777216 + rem * 15099494) by (nonlinear_arith)
            requires
                c == q * 16777216 + rem,
        ;
        let y = rem * 15099494;
        vstd::arithmetic::div_mod::lemma_fundamental_div_mod(y as int, 16777216);
        vstd::arithmetic::div_mod::lemma_div_multiples_vanish_fancy(
            q * 15099494 + y / 16777216,
            y % 16777216,
            16777216,
        );
        assert(r <= c) by (nonlinear_arith)
            requires
                r == q * 15099494 + rem * 15099494 / 16777216,
                c == q * 16777216 + rem,
                rem * 15099494 / 16777216 <= rem,
        ;
    }
    r as usize
}

/// The hash of a key.
fn hash<Key: PoolKey>(key: &Key) -> (r: u64)
    ensures
        r == Key::hash_view(key@),
{
    key.key_hash()
}

/// A deduplicated append-only collection.
/// Uses a hash table to ensure uniqueness of pool contents.
pub struct UniquePool<Element> {
    /// element pool; owning storage for contained elements
    items: Vec<Element>,
    /// index into element pool of hash-table entry
    index: UniquePoolIndex,
}

impl<Element: PoolKey> View for UniquePool<Element> {
    type V = Seq<Element::V>;

    /// The views of the elements, in insertion order.
    closed spec fn view(&self) -> Seq<Element::V> {
        self.items@.map_values(|e: Element| e@)
    }
}

/// The keys of a pool after key `v` is inserted: unchanged if the key is
/// held, else with the key added at the end.
pub open spec fn pool_add<V>(s: Seq<V>, v: V) -> Seq<V> {
    if s.contains(v) {
        s
    } else {
        s.push(v)
    }
}

/// The index that inserting key `k` gives: where it stands if held, else the
/// next free index.
pub open spec fn key_index<V>(s: Seq<V>, k: V) -> nat {
    if s.contains(k) {
        (choose|i: int| 0 <= i < s.len() && s[i] == k) as nat
    } else {
        s.len()
    }
}

/// The keys of a pool after inserting the keys `ks`, one after another, into
/// an empty pool.
pub open spec fn with_keys<V>(ks: Seq<V>) -> Seq<V>
    decreases ks.len(),
{
    if ks.len() == 0 {
        Seq::empty()
    } else {
        pool_add(with_keys(ks.drop_last()), ks.last())
    }
}

/// A run of inserts into an empty pool keeps each distinct key exactly once:
/// no key twice, every key inserted, and nothing else.
pub proof fn lemma_with_keys_distinct<V>(ks: Seq<V>)
    ensures
        with_keys(ks).no_duplicates(),
        with_keys(ks).to_set() == ks.to_set(),
        with_keys(ks).len() == ks.to_set().len(),
    decreases ks.len(),
{
    let w = with_keys(ks);
    if ks.len() == 0 {
        assert(ks.to_set() =~= Set::<V>::empty());
        assert(w.to_set() =~= Set::<V>::empty());
    } else {
        let rest = ks.drop_last();
        let k = ks.last();
        lemma_with_keys_distinct(rest);
        let wr = with_keys(rest);
        assert(ks =~= rest.push(k));
        assert forall|v: V| ks.to_set().contains(v) == rest.to_set().insert(k).contains(v) by {
            if ks.contains(v) {
                let i = choose|i: int| 0 <= i < ks.len() && ks[i] == v;
                if i < ks.len() - 1 {
                    assert(rest[i] == v);
                }
            }
            if rest.contains(v) {
                let i = choose|i: int| 0 <= i < rest.len() && rest[i] == v;
                assert(ks[i] == v);
            }
        }
        assert(ks.to_set() =~= rest.to_set().insert(k));
        if wr.contains(k) {
            assert(wr.to_set().contains(k));
            assert(ks.to_set() =~= rest.to_set());
        } else {
            assert(w == wr.push(k));
            assert forall|i: int, j: int| 0 <= i < w.len() && 0 <= j < w.len() && i != j implies w[i] != w[j] by {
                if i < wr.len() && j < wr.len() {
                } else if i == wr.len() {
                    assert(wr[j] == w[j]);
                } else {
                    assert(wr[i] == w[i]);
                }
            }
            assert forall|v: V| w.to_set().contains(v) == wr.to_set().insert(k).contains(v) by {
                if w.contains(v) {
                    let i = choose|i: int| 0 <= i < w.len() && w[i] == v;
                    if i < wr.len() {
                        assert(wr[i] == v);
                    }
                }
                if wr.contains(v) {
                    let i = choose|i: int| 0 <= i < wr.len() && wr[i] == v;
                    assert(w[i] == v);
                }
                if v == k {
                    assert(w[wr.len() as int] == k);
                }
            }
            assert(w.to_set() =~= wr.to_set().insert(k));
            assert(!rest.to_set().contains(k));
        }
        w.unique_seq_to_set();
    }
}

/// Inserting a key a second time gives the index of the first insert and
/// leaves the keys as they were.
pub proof fn lemma_insert_again<V>(s: Seq<V>, k: V)
    requires
        s.no_duplicates(),
    ensures
        pool_add(pool_add(s, k), k) == pool_add(s, k),
        key_index(pool_add(s, k), k) == key_index(s, k),
{
    let s1 = pool_add(s, k);
    if !s.contains(k) {
        assert(s1[s.len() as int] == k);
        assert(s1.contains(k));
        let i = key_index(s1, k) as int;
        assert(0 <= i < s1.len() && s1[i] == k);
        if i < s.len() {
            assert(s[i] == k);
        }
    }
}

impl<Element: PoolKey> UniquePool<Element> {
    /// The hashes of the elements, in insertion order.
    closed spec fn item_hashes(&self) -> Seq<u64> {
        Seq::new(self.items@.len(), |k: int| Element::hash_view(self.items@[k]@))
    }

    /// The pool's internal invariant: no two elements are the same key, and the
    /// hash index holds every element within its load limit.
    pub closed spec fn wf(&self) -> bool {
        &&& self.index.wf(self.item_hashes(), positions_below(self.items@.len() as int))
        &&& self.items@.len() <= u32::MAX + 1
        &&& self.items@.len() <= max_load(self.index.cap())
        &&& forall|i: int, j: int|
            0 <= i < j < self.items@.len() ==> self.items@[i]@ != self.items@[j]@
    }

    /// No two elements of a pool are the same key.
    pub proof fn lemma_unique(&self)
        requires
            self.wf(),
        ensures
            forall|i: int, j: int| 0 <= i < self@.len() && 0 <= j < self@.len() && i != j ==> self@[i] != self@[j],
    {
        assert forall|i: int, j: int| 0 <= i < self@.len() && 0 <= j < self@.len() && i != j implies self@[i]
            != self@[j] by {
            if i < j {
                assert(self.items@[i]@ != self.items@[j]@);
            } else {
                assert(self.items@[j]@ != self.items@[i]@);
            }
        }
    }

    /// A key stands at one index only: inserting a key that is already held
    /// gives back the one index where it stands.
    pub proof fn lemma_one_index(&self, i: int, j: int)
        requires
            self.wf(),
            0 <= i < self@.len(),
            0 <= j < self@.len(),
            self@[i] == self@[j],
        ensures
            i == j,
    {
        self.lemma_unique();
    }

    /// A pool holds as many elements as distinct keys.
    pub proof fn lemma_len_distinct(&self)
        requires
            self.wf(),
        ensures
            self@.to_set().len() == self@.len(),
    {
        self.lemma_unique();
        assert(self@.no_duplicates());
        self@.unique_seq_to_set();
    }

    /// Creates a new pool.
    /// Pool is initialized empty
    pub fn new() -> (r: Self)
        ensures
            r.wf(),
            r@ == Seq::<Element::V>::empty(),
    {
        let r = UniquePool { items: Vec::new(), index: UniquePoolIndex::new() };
        proof {
            assert(positions_below(0) =~= Set::empty());
            assert(r@ =~= Seq::<Element::V>::empty());
        }
        r
    }

    /// Checks if pool is empty
    pub fn is_empty(&self) -> (r: bool)
        ensures
            r == (self@.len() == 0),
    {
        self.items.is_empty()
    }

    /// Gets the number of elements in the pool
    pub fn len(&self) -> (r: usize)
        ensures
            r == self@.len(),
    {
        self.items.len()
    }

    /// The element at index `i`.
    pub fn get(&self, i: Ind<Element>) -> (r: &Element)
        requires
            i@ < self@.len(),
        ensures
            r@ == self@[i@ as int],
    {
        &self.items[i.to_usize()]
    }

    /// Gets a reference to the element key at hash entry `i`
    fn key_at_hash_entry(&self, i: usize) -> (r: &Element)
        requires
            self.wf(),
            self.index.filled(i as int),
        ensures
            *r == self.items@[self.index.elem_at(i as int)],
    {
        proof {
            self.index.lemma_filled(self.item_hashes(), positions_below(self.items@.len() as int), i as int);
        }
        let e = self.index.ind_at(i, Ghost(self.item_hashes()), Ghost(positions_below(self.items@.len() as int)));
        &self.items[e as usize]
    }

    /// Expand current pool capacity if necessary, so that one more element fits.
    fn expand_capacity_if_needed(&mut self)
        requires
            old(self).wf(),
            old(self).items@.len() < usize::MAX / 4,
        ensures
            final(self).items == old(self).items,
            final(self).index.wf(final(self).item_hashes(), positions_below(final(self).items@.len() as int)),
            final(self).items@.len() + 1 <= max_load(final(self).index.cap()),
            final(self).index.cap() > 0,
            is_table_capacity(final(self).index.cap()),
            old(self).items@.len() + 1 <= max_load(old(self).index.cap()) ==> final(self).index == old(self).index,
            old(self).items@.len() + 1 > max_load(old(self).index.cap()) ==> final(self).index.cap() == (if old(self).index.cap() == 0 {
                8
            } else {
                2 * old(self).index.cap()
            }),
    {
        let ghost hs = self.item_hashes();
        let ghost n = self.items@.len() as int;
        let ghost present = positions_below(n);
        proof {
            self.index.lemma_held(hs, n);
            lemma_present_len(n);
        }
        // return early if no need to expand
        let old_cap = self.index.capacity();
        if self.len() + 1 <= load_limit(old_cap) {
            proof {
                if old_cap == 0 {
                    assert(max_load(0) == 0);
                }
            }
            return;
        }
        // set up new index and re-hash
        proof {
            lemma_room_to_double(old_cap as nat, n as nat);
        }
        let new_cap = if old_cap == 0 {
            8
        } else {
            old_cap << 1
        };
        proof {
            if old_cap == 0 {
                vstd::arithmetic::power2::lemma2_to64();
                assert(pow2(3) == 8);
                assert(is_table_capacity(8));
            } else {
                crate::probe::lemma_cap_log(old_cap as nat);
                assert(old_cap * 2 <= usize::MAX) by {
                    crate::probe::lemma_cap_log(2 * old_cap as nat);
                }
                assert((old_cap << 1usize) == (old_cap * 2) as usize) by (bit_vector);
            }
            lemma_load_doubles(old_cap as nat, new_cap as nat, n as nat);
        }
        let mut new_index = UniquePoolIndex::with_capacity(new_cap);
        let mut j: usize = 0;
        let ghost mut placed: Set<int> = Set::empty();
        proof {
            assert forall|e: int| present.contains(e) implies self.index.slot(e) >= 0 by {
                self.index.lemma_elem(hs, present, e);
                self.index.lemma_filled(hs, present, self.index.slot(e));
            }
            assert(placed =~= Set::new(|e: int| present.contains(e) && self.index.slot(e) < j));
        }
        while j < old_cap
            invariant
                self.wf(),
                hs == self.item_hashes(),
                present == positions_below(n),
                n == self.items@.len(),
                present.finite(),
                present.len() == n,
                old_cap == self.index.cap(),
                new_index.cap() == new_cap,
                n < new_cap,
                j <= old_cap,
                new_index.wf(hs, placed),
                placed == Set::new(|e: int| present.contains(e) && self.index.slot(e) < j),
            decreases old_cap - j,
        {
            let ghost before = placed;
            if let Some(entry) = self.index.entry(j, Ghost(hs), Ghost(present)) {
                proof {
                    self.index.lemma_filled(hs, present, j as int);
                    vstd::set_lib::lemma_len_subset(placed, present);
                }
                new_index.insert(entry.hash, entry.ind, Ghost(hs), Ghost(placed));
                proof {
                    placed = placed.insert(entry.ind as int);
                }
            }
            proof {
                self.index.lemma_slots_hold_each_once(hs, present);
                assert forall|e: int| present.contains(e) && self.index.slot(e) == j implies self.index.filled(
                    j as int,
                ) && self.index.elem_at(j as int) == e by {
                    assert(present.contains(e));
                }
                assert(placed =~= Set::new(|e: int| present.contains(e) && self.index.slot(e) < j + 1));
            }
            j += 1;
        }
        proof {
            assert forall|e: int| present.contains(e) implies self.index.slot(e) < old_cap by {
                self.index.lemma_elem(hs, present, e);
            }
            assert(placed =~= present);
        }
        self.index = new_index;
    }

    /// Inserts a new element.
    /// Returns the new index, or the previous index if already present.
    pub fn insert(&mut self, key: Element) -> (r: Ind<Element>)
        requires
            old(self).wf(),
            old(self)@.contains(key@) || (old(self)@.len() <= u32::MAX && old(self)@.len() < usize::MAX / 4),
        ensures
            final(self).wf(),
            old(self)@.contains(key@) ==> final(self)@ == old(self)@ && r@ < old(self)@.len() && old(self)@[r@ as int]
                == key@,
            !old(self)@.contains(key@) ==> final(self)@ == old(self)@.push(key@) && r@ == old(self)@.len(),
            final(self)@ == pool_add(old(self)@, key@),
            r@ == key_index(old(self)@, key@),
    {
        proof {
            if old(self)@.contains(key@) {
                let j = choose|j: int| 0 <= j < old(self)@.len() && old(self)@[j] == key@;
                let i = key_index(old(self)@, key@) as int;
                assert(0 <= i < old(self)@.len() && old(self)@[i] == key@);
            }
        }
        let h = hash(&key);
        // already present, return
        if let Some(ind) = self.find_with_hash(&key, h) {
            proof {
                let i = key_index(old(self)@, key@) as int;
                old(self).lemma_one_index(ind@ as int, i);
            }
            return ind;
        }
        // needs to be inserted
        self.expand_capacity_if_needed();
        let ghost old_items = self.items@;
        let ghost hs = self.item_hashes();
        let ghost n = self.items@.len() as int;
        let ind = Ind::<Element>::of(self.items.len());
        self.items.push(key);
        proof {
            lemma_present_len(n);
            lemma_max_load_below(self.index.cap());
            self.index.lemma_extend_hashes(hs, self.item_hashes(), positions_below(n));
            assert(positions_below(n).insert(n) =~= positions_below(n + 1));
        }
        self.index.insert(h, ind.i, Ghost(self.item_hashes()), Ghost(positions_below(n)));
        proof {
            assert(self@ =~= old(self)@.push(key@));
            assert forall|i: int, j: int| 0 <= i < j < self.items@.len() implies self.items@[i]@
                != self.items@[j]@ by {
                if j == n {
                    assert(old(self)@[i] == self.items@[i]@);
                }
            }
        }
        ind
    }

    /// Finds an already-hashed element
    fn find_with_hash(&self, key: &Element, h: u64) -> (r: Option<Ind<Element>>)
        requires
            self.wf(),
            h == Element::hash_view(key@),
        ensures
            match r {
                Some(i) => i@ < self@.len() && self@[i@ as int] == key@,
                None => !self@.contains(key@),
            },
    {
        let ghost hs = self.item_hashes();
        let ghost present = positions_below(self.items@.len() as int);
        proof {
            self.index.lemma_held(hs, self.items@.len() as int);
            lemma_present_len(self.items@.len() as int);
        }
        // break early on empty
        if self.is_empty() {
            return None;
        }
        let ghost cap = self.index.cap();
        proof {
            lemma_max_load_below(cap);
        }
        // starting index for search
        let (mut i, stride) = self.index.split_hash(h);
        // probe count
        let mut probe: u8 = 1;
        let ghost mut k: int = 0;
        // search for hash matches
        loop
            invariant
                self.wf(),
                hs == self.item_hashes(),
                present == positions_below(self.items@.len() as int),
                present.len() == self.items@.len(),
                cap == self.index.cap(),
                is_table_capacity(cap),
                present.len() < cap,
                h == Element::hash_view(key@),
                stride == crate::probe::stride_of(h, cap),
                0 <= k <= present.len(),
                i == probe_pos(h, cap, k),
                probe == probe_code(k as nat),
                forall|j: int| 0 <= j < k ==> self.index.filled(#[trigger] probe_pos(h, cap, j)),
                forall|e: int|
                    present.contains(e) && hs[e] == h && #[trigger] self.index.dist_of(e) < k ==> self.items@[e]@
                        != key@,
            decreases cap - k,
        {
            match self.index.find(h, i, &mut probe, Ghost(hs), Ghost(present), Ghost(k)) {
                Some(j) => {
                    let ghost k2 = choose|k2: int|
                        {
                            &&& k <= k2
                            &&& j == probe_pos(h, cap, k2)
                            &&& probe == probe_code(k2 as nat)
                            &&& self.index.filled(j as int)
                            &&& present.contains(self.index.elem_at(j as int))
                            &&& hs[self.index.elem_at(j as int)] == h
                            &&& self.index.dist_of(self.index.elem_at(j as int)) == k2
                            &&& forall|t: int|
                                0 <= t <= k2 ==> self.index.filled(#[trigger] probe_pos(h, cap, t))
                            &&& forall|e: int|
                                present.contains(e) && hs[e] == h ==> !(k <= #[trigger] self.index.dist_of(e) < k2)
                        };
                    // found if keys equal
                    if key.key_eq(self.key_at_hash_entry(j)) {
                        let e = self.index.ind_at(j, Ghost(hs), Ghost(present));
                        proof {
                            assert(self@[e as int] == self.items@[e as int]@);
                        }
                        return Some(Ind::of(e as usize));
                    }
                    // keep searching if not
                    proof {
                        assert forall|e: int|
                            present.contains(e) && hs[e] == h && #[trigger] self.index.dist_of(e) < k2
                                + 1 implies self.items@[e]@ != key@ by {
                            if self.index.dist_of(e) == k2 {
                                self.index.lemma_elem(hs, present, e);
                            }
                        }
                        crate::probe::lemma_probe_step(h, cap, k2);
                        self.index.lemma_walk(hs, present, h, k2);
                    }
                    i = j;
                    self.index.next_index(&mut i, stride, &mut probe);
                    proof {
                        k = k2 + 1;
                    }
                },
                None => {
                    proof {
                        assert forall|x: int| 0 <= x < self@.len() implies self@[x] != key@ by {
                            assert(present.contains(x));
                            if self.items@[x]@ == key@ {
                                assert(hs[x] == h);
                                assert(self.index.dist_of(x) < k);
                            }
                        }
                    }
                    // nothing found
                    return None;
                },
            }
        }
    }
}

/// There are `n` positions below `n`.
proof fn lemma_present_len(n: int)
    requires
        0 <= n,
    ensures
        positions_below(n).finite(),
        positions_below(n).len() == n,
{
    vstd::set_lib::lemma_int_range(0, n);
    assert(positions_below(n) =~= vstd::set_lib::set_int_range(0, n));
}

/// The load limit of a table is below its capacity.
proof fn lemma_max_load_below(cap: nat)
    requires
        cap > 0,
    ensures
        max_load(cap) < cap,
{
    assert(cap * 15099494 / 16777216 < cap) by (nonlinear_arith)
        requires
            cap > 0,
    ;
}


/// A table that must grow before holding `n + 1` elements can double without overflow.
proof fn lemma_room_to_double(cap: nat, n: nat)
    requires
        cap == 0 || is_table_capacity(cap),
        n + 1 > max_load(cap),
        n < usize::MAX / 4,
    ensures
        cap == 0 || is_table_capacity(2 * cap),
{
    if cap > 0 {
        crate::probe::lemma_cap_log(cap);
        let m = crate::probe::cap_log(cap);
        let big = usize::MAX + 1;
        crate::probe::lemma_pow2_bits(usize::BITS as nat);
        vstd::arithmetic::power2::lemma2_to64();
        assert(pow2(usize::BITS as nat) == big);
        vstd::arithmetic::div_mod::lemma_fundamental_div_mod((cap * 15099494) as int, 16777216);
        assert(cap * 15099494 < (n + 1) * 16777216);
        assert(4 * (n + 1) <= big);
        assert(2 * cap < big) by (nonlinear_arith)
            requires
                cap * 15099494 < (n + 1) * 16777216,
                4 * (n + 1) <= big,
        ;
        vstd::arithmetic::power2::lemma_pow2_unfold(m + 1);
        if m + 1 >= usize::BITS {
            if m + 1 > usize::BITS {
                vstd::arithmetic::power2::lemma_pow2_strictly_increases(usize::BITS as nat, m + 1);
            }
        }
        assert(1 <= m + 1 < usize::BITS && pow2(m + 1) == 2 * cap);
    }
}

/// Growing a table that held `n` elements within its load limit leaves room for one more.
proof fn lemma_load_doubles(cap: nat, new_cap: nat, n: nat)
    requires
        cap == 0 ==> new_cap == 8 && n == 0,
        cap > 0 ==> new_cap == 2 * cap && n <= max_load(cap) && cap >= 2,
        n + 1 > max_load(cap),
    ensures
        n + 1 <= max_load(new_cap),
        n < new_cap,
{
    if cap > 0 {
        assert(cap * 15099494 / 16777216 >= 1) by (nonlinear_arith)
            requires
                cap >= 2,
        ;
        assert(2 * (cap * 15099494 / 16777216) <= (2 * cap) * 15099494 / 16777216) by (nonlinear_arith);
        lemma_max_load_below(new_cap);
    } else {
        assert(8nat * 15099494 / 16777216 == 7);
    }
}

} // verus!
