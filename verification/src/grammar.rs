//! A RegexLR grammar.
//! Includes supporting data structures for expressions, productions, and alternations.

use crate::bitset::{bits_of, bitset_elements, bitset_insert, bitset_new, bitset_union_with, Bits};
use crate::key::{fnv_step, PoolKey, FNV_OFFSET, FNV_PRIME};
use crate::pool::{pool_add, Ind, Pool, UniquePool};
use vstd::prelude::*;
use vstd::std_specs::cmp::PartialEqSpecImpl;
use vstd::std_specs::slice::into_iter_elts;

pub mod examples;

verus! {

/// A choice of RegexLR expressions: a set of production indices.
#[derive(Debug)]
pub struct Alternation {
    /// Productions in alternation
    prods: Bits,
}

impl View for Alternation {
    type V = Set<usize>;

    /// The indices of the productions of the alternation.
    closed spec fn view(&self) -> Set<usize> {
        bits_of(self.prods)
    }
}

impl Alternation {
    /// Create a new, empty alternation
    fn new() -> (r: Self)
        ensures
            r@ == Set::<usize>::empty(),
    {
        Alternation { prods: bitset_new() }
    }

    /// Create a single-production alternation
    fn of(i: Ind<Production>) -> (r: Self)
        requires
            i@ < usize::MAX,
        ensures
            r@ == Set::<usize>::empty().insert(i@ as usize),
    {
        let mut alt = Self::new();
        alt.insert(i);
        alt
    }

    /// Add an alternate to the alternation
    fn insert(&mut self, i: Ind<Production>)
        requires
            i@ < usize::MAX,
        ensures
            final(self)@ == old(self)@.insert(i@ as usize),
    {
        bitset_insert(&mut self.prods, i.to_usize());
    }

    /// Copy an alternation into this one
    fn union_with(&mut self, that: &Alternation)
        ensures
            final(self)@ == old(self)@.union(that@),
    {
        bitset_union_with(&mut self.prods, &that.prods);
    }

    /// Get the production indices
    pub fn production_inds(&self) -> (r: &Bits)
        ensures
            bits_of(*r) == self@,
    {
        &self.prods
    }

    /// The production indices, in increasing order.
    pub fn productions(&self) -> (r: Vec<usize>)
        ensures
            r@.to_set() == self@,
            forall|i: int, j: int| 0 <= i < j < r@.len() ==> r@[i] < r@[j],
    {
        bitset_elements(&self.prods)
    }
}

/// A (possibly empty) slot for an alternation
#[derive(Debug)]
pub struct Slot<E>(Option<E>);

impl<E: View> View for Slot<E> {
    type V = Option<E::V>;

    closed spec fn view(&self) -> Option<E::V> {
        match self.0 {
            Some(e) => Some(e@),
            None => None,
        }
    }
}

impl<E: View> Slot<E> {
    /// a new, empty alternation slot
    fn empty() -> (r: Self)
        ensures
            r@ == Option::<E::V>::None,
    {
        Slot(None)
    }

    /// an alternation slot containing a value
    fn of(item: E) -> (r: Self)
        ensures
            r@ == Some(item@),
    {
        Slot(Some(item))
    }

    /// The value in the slot, if any.
    pub fn get(&self) -> (r: &Option<E>)
        ensures
            r is Some <==> self@ is Some,
            r matches Some(e) ==> self@ == Some(e@),
    {
        &self.0
    }
}

/// The view of a single RegexLR expression in a production.
pub ghost enum AtomV {
    Literal(nat),
    Capture(nat),
    End,
    Fail,
}

/// A single RegexLR expression
#[derive(Clone, Copy, Debug)]
pub enum Atom {
    /// A literal string
    Literal(Ind<String>),
    /// A capture group
    Capture(Ind<Slot<Alternation>>),
    /// End-of-input
    End,
    /// Failure
    Fail,
}

impl View for Atom {
    type V = AtomV;

    open spec fn view(&self) -> AtomV {
        match self {
            Atom::Literal(i) => AtomV::Literal(i@),
            Atom::Capture(i) => AtomV::Capture(i@),
            Atom::End => AtomV::End,
            Atom::Fail => AtomV::Fail,
        }
    }
}

/// Are two atoms the same?
fn atom_eq(a: &Atom, b: &Atom) -> (r: bool)
    ensures
        r == (a@ == b@),
{
    match (a, b) {
        (Atom::Literal(i), Atom::Literal(j)) => i.to_usize() == j.to_usize(),
        (Atom::Capture(i), Atom::Capture(j)) => i.to_usize() == j.to_usize(),
        (Atom::End, Atom::End) => true,
        (Atom::Fail, Atom::Fail) => true,
        _ => false,
    }
}

/// The word that an atom contributes to the hash of a production.
pub open spec fn atom_code(a: AtomV) -> u64 {
    match a {
        AtomV::Literal(i) => (4 * i) as u64,
        AtomV::Capture(i) => (4 * i + 1) as u64,
        AtomV::End => 2,
        AtomV::Fail => 3,
    }
}

/// The hash of a sequence of atoms.
pub open spec fn atoms_hash(s: Seq<AtomV>) -> u64
    decreases s.len(),
{
    if s.len() == 0 {
        FNV_OFFSET
    } else {
        fnv_step(atoms_hash(s.drop_last()), atom_code(s.last()))
    }
}

/// Computes [`atom_code`].
fn atom_code_of(a: &Atom) -> (r: u64)
    ensures
        r == atom_code(a@),
{
    match a {
        Atom::Literal(i) => {
            proof {
                Ind::<String>::lemma_bounded(*i);
            }
            4 * (i.to_usize() as u64)
        },
        Atom::Capture(i) => {
            proof {
                Ind::<Slot<Alternation>>::lemma_bounded(*i);
            }
            4 * (i.to_usize() as u64) + 1
        },
        Atom::End => 2,
        Atom::Fail => 3,
    }
}

/// A sequence of RegexLR expressions
#[derive(Debug)]
pub struct Production {
    /// expressions in production
    atoms: Vec<Atom>,
}

impl View for Production {
    type V = Seq<AtomV>;

    closed spec fn view(&self) -> Seq<AtomV> {
        self.atoms@.map_values(|a: Atom| a@)
    }
}

impl PoolKey for Production {
    open spec fn hash_view(v: Seq<AtomV>) -> u64 {
        atoms_hash(v)
    }

    fn key_eq(&self, other: &Self) -> (r: bool) {
        if self.atoms.len() != other.atoms.len() {
            assert(self@.len() != other@.len());
            return false;
        }
        let mut i: usize = 0;
        while i < self.atoms.len()
            invariant
                self.atoms@.len() == other.atoms@.len(),
                i <= self.atoms@.len(),
                forall|j: int| 0 <= j < i ==> self.atoms@[j]@ == other.atoms@[j]@,
            decreases self.atoms@.len() - i,
        {
            if !atom_eq(&self.atoms[i], &other.atoms[i]) {
                assert(self@[i as int] != other@[i as int]);
                return false;
            }
            i = i + 1;
        }
        assert(self@ =~= other@);
        true
    }

    fn key_hash(&self) -> (r: u64) {
        let mut h: u64 = FNV_OFFSET;
        let mut i: usize = 0;
        while i < self.atoms.len()
            invariant
                i <= self.atoms@.len(),
                h == atoms_hash(self@.subrange(0, i as int)),
            decreases self.atoms@.len() - i,
        {
            assert(self@.subrange(0, i as int + 1).drop_last() =~= self@.subrange(0, i as int));
            h = (h ^ atom_code_of(&self.atoms[i])).wrapping_mul(FNV_PRIME);
            i = i + 1;
        }
        assert(self@.subrange(0, i as int) =~= self@);
        h
    }
}

impl Production {
    /// Create a new, empty production
    fn new() -> (r: Self)
        ensures
            r@ == Seq::<AtomV>::empty(),
    {
        Production { atoms: Vec::new() }
    }

    /// Create a new production for a single atom
    fn of(atom: Atom) -> (r: Self)
        ensures
            r@ == seq![atom@],
    {
        let r = Production { atoms: vec![atom] };
        assert(r@ =~= seq![atom@]);
        r
    }

    /// Create a new production from a list of atoms
    fn of_all(atoms: Vec<Atom>) -> (r: Self)
        ensures
            r@ == atoms@.map_values(|a: Atom| a@),
    {
        Production { atoms }
    }

    /// Copy this production with an added atom
    fn with(&self, atom: Atom) -> (r: Self)
        ensures
            r@ == self@.push(atom@),
    {
        let mut atoms = copy_atoms(&self.atoms);
        atoms.push(atom);
        let r = Production { atoms };
        assert(r@ =~= self@.push(atom@));
        r
    }

    /// Add an atom to this production
    fn push(&mut self, atom: Atom)
        ensures
            final(self)@ == old(self)@.push(atom@),
    {
        self.atoms.push(atom);
        assert(self@ =~= old(self)@.push(atom@));
    }

    /// Copy a production to this production
    fn append(&mut self, that: &Production)
        ensures
            final(self)@ == old(self)@ + that@,
    {
        let mut copy = copy_atoms(&that.atoms);
        self.atoms.append(&mut copy);
        assert(self@ =~= old(self)@ + that@);
    }

    /// Is this production empty?
    pub fn is_empty(&self) -> (r: bool)
        ensures
            r == (self@.len() == 0),
    {
        self.atoms.is_empty()
    }

    /// The number of atoms.
    pub fn len(&self) -> (r: usize)
        ensures
            r == self@.len(),
    {
        self.atoms.len()
    }

    /// The atom at position `i`.
    pub fn atom(&self, i: usize) -> (r: Atom)
        requires
            i < self@.len(),
        ensures
            r@ == self@[i as int],
    {
        self.atoms[i]
    }

    /// Borrowing iterator
    pub fn iter(&self) -> (r: std::slice::Iter<'_, Atom>)
        ensures
            into_iter_elts(r).map_values(|a: Atom| a@) == self@,
    {
        let r = self.atoms.as_slice().iter();
        proof {
            assert(into_iter_elts(r) == self.atoms@);
        }
        r
    }
}

/// Copies a list of atoms.
fn copy_atoms(v: &Vec<Atom>) -> (r: Vec<Atom>)
    ensures
        r@.map_values(|a: Atom| a@) == v@.map_values(|a: Atom| a@),
{
    let mut r: Vec<Atom> = Vec::new();
    let mut i: usize = 0;
    while i < v.len()
        invariant
            i <= v@.len(),
            r@.len() == i,
            forall|j: int| 0 <= j < i ==> r@[j]@ == v@[j]@,
        decreases v@.len() - i,
    {
        r.push(v[i]);
        i = i + 1;
    }
    assert(r@.map_values(|a: Atom| a@) =~= v@.map_values(|a: Atom| a@));
    r
}


/// The view of an arbitrary RegexLR expression.
pub ghost enum ExprV {
    Choice(nat),
    Sequence(nat),
    Literal(nat),
    Empty,
    Fail,
}

/// An arbitrary RegexLR expression
#[derive(Clone, Copy)]
pub enum Expr {
    /// Choice between expressions
    Choice(Ind<Slot<Alternation>>),
    /// Sequence of expressions
    Sequence(Ind<Production>),
    /// Literal string
    Literal(Ind<String>),
    /// Always matches
    Empty,
    /// Never matches
    Fail,
}

impl View for Expr {
    type V = ExprV;

    open spec fn view(&self) -> ExprV {
        match self {
            Expr::Choice(i) => ExprV::Choice(i@),
            Expr::Sequence(i) => ExprV::Sequence(i@),
            Expr::Literal(i) => ExprV::Literal(i@),
            Expr::Empty => ExprV::Empty,
            Expr::Fail => ExprV::Fail,
        }
    }
}

impl PartialEq for Expr {
    fn eq(&self, other: &Self) -> (r: bool) {
        expr_eq(self, other)
    }
}

impl PartialEqSpecImpl for Expr {
    open spec fn obeys_eq_spec() -> bool {
        true
    }

    open spec fn eq_spec(&self, other: &Self) -> bool {
        self@ == other@
    }
}

impl Eq for Expr {
}

/// Are two expressions the same?
pub fn expr_eq(a: &Expr, b: &Expr) -> (r: bool)
    ensures
        r == (a@ == b@),
{
    match (a, b) {
        (Expr::Choice(i), Expr::Choice(j)) => i.to_usize() == j.to_usize(),
        (Expr::Sequence(i), Expr::Sequence(j)) => i.to_usize() == j.to_usize(),
        (Expr::Literal(i), Expr::Literal(j)) => i.to_usize() == j.to_usize(),
        (Expr::Empty, Expr::Empty) => true,
        (Expr::Fail, Expr::Fail) => true,
        _ => false,
    }
}

/// The views of a list of expressions.
pub open spec fn views(es: Seq<Expr>) -> Seq<ExprV> {
    es.map_values(|e: Expr| e@)
}

/// A list of expressions with every occurrence of `x` left out.
pub open spec fn without(es: Seq<ExprV>, x: ExprV) -> Seq<ExprV>
    decreases es.len(),
{
    if es.len() == 0 {
        es
    } else if es.last() == x {
        without(es.drop_last(), x)
    } else {
        without(es.drop_last(), x).push(es.last())
    }
}

/// Leaves every expression equal to `unwanted` out of a list.
fn retain_exprs(exprs: Vec<Expr>, unwanted: Expr) -> (r: Vec<Expr>)
    ensures
        views(r@) == without(views(exprs@), unwanted@),
{
    let mut r: Vec<Expr> = Vec::new();
    let mut i: usize = 0;
    while i < exprs.len()
        invariant
            i <= exprs@.len(),
            views(r@) == without(views(exprs@).subrange(0, i as int), unwanted@),
        decreases exprs@.len() - i,
    {
        assert(views(exprs@).subrange(0, i as int + 1).drop_last() =~= views(exprs@).subrange(0, i as int));
        if !expr_eq(&exprs[i], &unwanted) {
            r.push(exprs[i]);
            assert(views(r@) =~= without(views(exprs@).subrange(0, i as int), unwanted@).push(exprs@[i as int]@));
        }
        i = i + 1;
    }
    assert(views(exprs@).subrange(0, i as int) =~= views(exprs@));
    r
}

/// Building a sequence of `exprs` adds no production: the production it
/// makes, if any, is already held.
pub open spec fn seq_pooled(prods: Seq<Seq<AtomV>>, exprs: Seq<ExprV>) -> bool {
    match seq_atoms(prods, without(exprs, ExprV::Empty)) {
        Some(body) => prods.contains(body),
        None => true,
    }
}

/// The atoms of a sequence do not change when productions are added after
/// those that it names.
pub proof fn lemma_seq_atoms_grow(prods: Seq<Seq<AtomV>>, more: Seq<Seq<AtomV>>, es: Seq<ExprV>)
    requires
        prods.len() <= more.len(),
        forall|p: int| 0 <= p < prods.len() ==> more[p] == prods[p],
        forall|k: int| 0 <= k < es.len() ==> (#[trigger] es[k] matches ExprV::Sequence(p) ==> p < prods.len()),
    ensures
        seq_atoms(more, es) == seq_atoms(prods, es),
    decreases es.len(),
{
    if es.len() > 0 {
        assert forall|k: int| 0 <= k < es.drop_last().len() implies (#[trigger] es.drop_last()[k] matches ExprV::Sequence(
            p,
        ) ==> p < prods.len()) by {
            assert(es.drop_last()[k] == es[k]);
        }
        lemma_seq_atoms_grow(prods, more, es.drop_last());
        assert(es.last() == es[es.len() - 1]);
    }
}

/// Building a sequence a second time, after building it once, makes the
/// same production, which is then held: the second build adds nothing.
pub proof fn lemma_seq_again(prods: Seq<Seq<AtomV>>, es: Seq<ExprV>, body: Seq<AtomV>)
    requires
        forall|k: int| 0 <= k < es.len() ==> (#[trigger] es[k] matches ExprV::Sequence(p) ==> p < prods.len()),
        seq_atoms(prods, without(es, ExprV::Empty)) == Some(body),
    ensures
        seq_atoms(pool_add(prods, body), without(es, ExprV::Empty)) == Some(body),
        pool_add(prods, body).contains(body),
        seq_pooled(pool_add(prods, body), es),
        pool_add(pool_add(prods, body), body) == pool_add(prods, body),
{
    let fs = without(es, ExprV::Empty);
    let more = pool_add(prods, body);
    lemma_without(es, ExprV::Empty);
    assert forall|k: int| 0 <= k < fs.len() implies (#[trigger] fs[k] matches ExprV::Sequence(p) ==> p < prods.len()) by {
        assert(es.contains(fs[k]));
        let j = choose|j: int| 0 <= j < es.len() && es[j] == fs[k];
        assert(es[j] == fs[k]);
    }
    assert forall|p: int| 0 <= p < prods.len() implies more[p] == prods[p] by {}
    lemma_seq_atoms_grow(prods, more, fs);
    lemma_pool_add_again(prods, body);
}

/// The position of `v` in `s`.
pub open spec fn pos_of<V>(s: Seq<V>, v: V) -> int {
    choose|i: int| 0 <= i < s.len() && s[i] == v
}

/// The position of `v` in a sequence without duplicates is where it stands.
pub proof fn lemma_pos_of<V>(s: Seq<V>, v: V, i: int)
    requires
        0 <= i < s.len(),
        s[i] == v,
        forall|a: int, b: int| 0 <= a < s.len() && 0 <= b < s.len() && a != b ==> s[a] != s[b],
    ensures
        pos_of(s, v) == i,
{
}

/// Adding a value that was just added changes nothing, and finds it at the
/// same position: building the same literal or the same production twice
/// gives the same index and the same grammar.
pub proof fn lemma_pool_add_again<V>(s: Seq<V>, v: V)
    ensures
        pool_add(pool_add(s, v), v) == pool_add(s, v),
        0 <= pos_of(pool_add(s, v), v) < pool_add(s, v).len(),
        pool_add(s, v)[pos_of(pool_add(s, v), v)] == v,
{
    let s1 = pool_add(s, v);
    if !s.contains(v) {
        assert(s1[s.len() as int] == v);
    }
    assert(s1.contains(v));
}

/// One step of turning expressions into an alternation: the productions
/// (which may gain a production) and the set of production indices so far.
pub open spec fn alt_step(
    prods: Seq<Seq<AtomV>>,
    alts: Seq<Option<Set<usize>>>,
    empty: nat,
    acc: Set<usize>,
    e: ExprV,
) -> (Seq<Seq<AtomV>>, Set<usize>) {
    match e {
        ExprV::Choice(a) => match alts[a as int] {
            Some(inner) => (prods, acc.union(inner)),
            None => {
                let p2 = pool_add(prods, seq![AtomV::Capture(a)]);
                (p2, acc.insert(pos_of(p2, seq![AtomV::Capture(a)]) as usize))
            },
        },
        ExprV::Sequence(p) => (prods, acc.insert(p as usize)),
        ExprV::Literal(l) => {
            let p2 = pool_add(prods, seq![AtomV::Literal(l)]);
            (p2, acc.insert(pos_of(p2, seq![AtomV::Literal(l)]) as usize))
        },
        ExprV::Empty => (prods, acc.insert(empty as usize)),
        ExprV::Fail => (prods, acc),
    }
}

/// The productions and the alternation that a list of expressions turns into.
pub open spec fn alt_fold(
    prods: Seq<Seq<AtomV>>,
    alts: Seq<Option<Set<usize>>>,
    empty: nat,
    es: Seq<ExprV>,
) -> (Seq<Seq<AtomV>>, Set<usize>)
    decreases es.len(),
{
    if es.len() == 0 {
        (prods, Set::empty())
    } else {
        let (p, acc) = alt_fold(prods, alts, empty, es.drop_last());
        alt_step(p, alts, empty, acc, es.last())
    }
}

/// The atoms of the sequence of a list of expressions, or `None` if one of them fails.
pub open spec fn seq_atoms(prods: Seq<Seq<AtomV>>, es: Seq<ExprV>) -> Option<Seq<AtomV>>
    decreases es.len(),
{
    if es.len() == 0 {
        Some(Seq::empty())
    } else {
        match seq_atoms(prods, es.drop_last()) {
            None => None,
            Some(body) => match es.last() {
                ExprV::Choice(a) => Some(body.push(AtomV::Capture(a))),
                ExprV::Sequence(p) => Some(body + prods[p as int]),
                ExprV::Literal(l) => Some(body.push(AtomV::Literal(l))),
                ExprV::Empty => Some(body),
                ExprV::Fail => None,
            },
        }
    }
}

/// The start production built from an expression.
pub open spec fn start_body(prods: Seq<Seq<AtomV>>, e: ExprV) -> Seq<AtomV> {
    match e {
        ExprV::Choice(a) => seq![AtomV::Capture(a), AtomV::End],
        ExprV::Sequence(p) => prods[p as int].push(AtomV::End),
        ExprV::Literal(l) => seq![AtomV::Literal(l), AtomV::End],
        ExprV::Empty => seq![AtomV::End],
        ExprV::Fail => seq![AtomV::Fail],
    }
}

/// The index bound to `name` among nonterminals, if any.
pub open spec fn nt_lookup(nts: Seq<(Seq<char>, nat)>, name: Seq<char>) -> Option<nat> {
    if exists|i: int| 0 <= i < nts.len() && nts[i].0 == name {
        Some(nts[choose|i: int| 0 <= i < nts.len() && nts[i].0 == name].1)
    } else {
        None
    }
}

/// What survives leaving out `x`: elements of the list other than `x`, no more of them.
pub proof fn lemma_without(es: Seq<ExprV>, x: ExprV)
    ensures
        without(es, x).len() <= es.len(),
        forall|k: int| 0 <= k < without(es, x).len() ==> es.contains(#[trigger] without(es, x)[k]),
        forall|k: int| 0 <= k < without(es, x).len() ==> #[trigger] without(es, x)[k] != x,
    decreases es.len(),
{
    if es.len() > 0 {
        lemma_without(es.drop_last(), x);
        let w = without(es.drop_last(), x);
        assert forall|k: int| 0 <= k < without(es, x).len() implies es.contains(#[trigger] without(es, x)[k]) by {
            if k < w.len() {
                assert(es.drop_last().contains(w[k]));
                let j = choose|j: int| 0 <= j < es.drop_last().len() && es.drop_last()[j] == w[k];
                assert(es[j] == w[k]);
            } else {
                assert(es[es.len() - 1] == es.last());
            }
        }
    }
}

/// Once a prefix of a sequence fails, the whole sequence fails.
pub proof fn lemma_seq_atoms_fails(prods: Seq<Seq<AtomV>>, es: Seq<ExprV>, k: int)
    requires
        0 <= k <= es.len(),
        seq_atoms(prods, es.subrange(0, k)) is None,
    ensures
        seq_atoms(prods, es) is None,
    decreases es.len() - k,
{
    if k < es.len() {
        assert(es.subrange(0, k + 1).drop_last() =~= es.subrange(0, k));
        lemma_seq_atoms_fails(prods, es, k + 1);
    } else {
        assert(es.subrange(0, k) =~= es);
    }
}

/// No atom of the body is the end-of-input atom.
pub open spec fn end_free(b: Seq<AtomV>) -> bool {
    forall|k: int| 0 <= k < b.len() ==> #[trigger] b[k] != AtomV::End
}

/// The shape of a start production: it ends with the end-of-input atom, or
/// with the failure atom, and no end-of-input atom comes before.
pub open spec fn start_shape(b: Seq<AtomV>) -> bool {
    &&& b.len() > 0
    &&& end_free(b.drop_last())
    &&& (b.last() == AtomV::End || b.last() == AtomV::Fail)
}

/// A pool of `n` elements has room for `k` more.
pub open spec fn room_for(n: nat, k: nat) -> bool {
    n + k <= u32::MAX && n + k < usize::MAX / 4
}

/// A RegexLR grammar
pub struct Grammar {
    /// nonterminal index
    /// maps to top-level alternation of nonterminal
    nonterminals: Vec<(String, Ind<Slot<Alternation>>)>,
    /// alternation pool
    alternations: Pool<Slot<Alternation>>,
    /// production pool
    productions: UniquePool<Production>,
    /// start production
    start_prod: Slot<Ind<Production>>,
    /// empty production
    empty_prod: Ind<Production>,
    /// string pool
    strings: UniquePool<String>,
}

impl Grammar {
    /// The literal strings.
    pub closed spec fn strs(&self) -> Seq<Seq<char>> {
        self.strings@
    }

    /// The productions.
    pub closed spec fn prods(&self) -> Seq<Seq<AtomV>> {
        self.productions@
    }

    /// The alternations; `None` for one that is called but not defined yet.
    pub closed spec fn alts(&self) -> Seq<Option<Set<usize>>> {
        self.alternations@.map_values(|s: Slot<Alternation>| s@)
    }

    /// The nonterminals, by name, with the index of their alternation.
    pub closed spec fn nts(&self) -> Seq<(Seq<char>, nat)> {
        self.nonterminals@.map_values(|p: (String, Ind<Slot<Alternation>>)| (p.0@, p.1@))
    }

    /// The start production, if set.
    pub closed spec fn start_view(&self) -> Option<nat> {
        self.start_prod@
    }

    /// The index of the empty production.
    pub closed spec fn empty_view(&self) -> nat {
        self.empty_prod@
    }

    /// An atom refers to strings and alternations of the grammar.
    pub open spec fn atom_ok(&self, a: AtomV) -> bool {
        match a {
            AtomV::Literal(l) => l < self.strs().len(),
            AtomV::Capture(c) => c < self.alts().len(),
            _ => true,
        }
    }

    /// An expression refers to strings, productions and alternations of the grammar.
    pub open spec fn expr_ok(&self, e: ExprV) -> bool {
        match e {
            ExprV::Choice(a) => a < self.alts().len(),
            ExprV::Sequence(p) => p < self.prods().len() && end_free(self.prods()[p as int]),
            ExprV::Literal(l) => l < self.strs().len(),
            _ => true,
        }
    }

    /// A set of production indices that an alternation may hold: finitely
    /// many productions of the grammar, none with an end-of-input atom.
    pub open spec fn alt_ok(&self, set: Set<usize>) -> bool {
        &&& set.finite()
        &&& forall|q: usize| #[trigger] set.contains(q) ==> q < self.prods().len() && end_free(self.prods()[q as int])
    }

    /// The grammar is consistent: every index it holds refers to an element
    /// of its pools, distinct rule names name distinct alternations, no
    /// production of an alternation holds an end-of-input atom, and the start
    /// production has the shape of one.
    pub open spec fn wf(&self) -> bool {
        &&& self.pools_wf()
        &&& forall|p: int, k: int|
            0 <= p < self.prods().len() && 0 <= k < self.prods()[p].len() ==> self.atom_ok(
                #[trigger] self.prods()[p][k],
            )
        &&& forall|a: int|
            0 <= a < self.alts().len() && #[trigger] self.alts()[a] is Some ==> self.alt_ok(self.alts()[a]->0)
        &&& self.empty_view() < self.prods().len()
        &&& self.prods()[self.empty_view() as int] == Seq::<AtomV>::empty()
        &&& self.start_view() matches Some(p) ==> p < self.prods().len() && start_shape(self.prods()[p as int])
        &&& forall|i: int| 0 <= i < self.nts().len() ==> #[trigger] self.nts()[i].1 < self.alts().len()
        &&& forall|i: int, j: int|
            0 <= i < self.nts().len() && 0 <= j < self.nts().len() && i != j ==> #[trigger] self.nts()[i].0
                != #[trigger] self.nts()[j].0
        &&& forall|i: int, j: int|
            0 <= i < self.nts().len() && 0 <= j < self.nts().len() && i != j ==> #[trigger] self.nts()[i].1
                != #[trigger] self.nts()[j].1
        &&& self.prods().len() <= usize::MAX / 4
        &&& self.prods().len() <= u32::MAX + 1
        &&& self.alts().len() <= u32::MAX + 1
    }

    /// The pools are consistent and deduplicated.
    pub closed spec fn pools_wf(&self) -> bool {
        &&& self.productions.wf()
        &&& self.strings.wf()
    }

    /// No two productions, and no two strings, of a consistent grammar are the same.
    pub proof fn lemma_unique(&self)
        requires
            self.pools_wf(),
        ensures
            forall|a: int, b: int|
                0 <= a < self.prods().len() && 0 <= b < self.prods().len() && a != b ==> self.prods()[a]
                    != self.prods()[b],
            forall|a: int, b: int|
                0 <= a < self.strs().len() && 0 <= b < self.strs().len() && a != b ==> self.strs()[a]
                    != self.strs()[b],
    {
        self.productions.lemma_unique();
        self.strings.lemma_unique();
    }

    /// Create a new, empty builder.
    /// Start rule is a reserved but un-assigned production
    pub fn new() -> (r: Self)
        ensures
            r.wf(),
            r.strs() == Seq::<Seq<char>>::empty(),
            r.prods() == seq![Seq::<AtomV>::empty()],
            r.alts() == Seq::<Option<Set<usize>>>::empty(),
            r.nts() == Seq::<(Seq<char>, nat)>::empty(),
            r.start_view() is None,
            r.empty_view() == 0,
    {
        let nonterminals = Vec::new();
        let alternations = Pool::new();
        let mut productions = UniquePool::new();
        let start_prod = Slot::empty();
        let empty_prod = productions.insert(Production::new());
        let strings = UniquePool::new();
        let g = Grammar { nonterminals, alternations, productions, start_prod, empty_prod, strings };
        proof {
            assert(g.prods() =~= seq![Seq::<AtomV>::empty()]);
            assert(g.alts() =~= Seq::<Option<Set<usize>>>::empty());
            assert(g.nts() =~= Seq::<(Seq<char>, nat)>::empty());
        }
        g
    }

    /// Get the index of the start production
    pub fn start_production(&self) -> (r: Option<Ind<Production>>)
        ensures
            r is Some <==> self.start_view() is Some,
            r matches Some(i) ==> self.start_view() == Some(i@),
    {
        // fail early if missing production
        self.start_prod.0
    }

    /// The number of nonterminals.
    pub fn nonterminal_count(&self) -> (r: usize)
        ensures
            r == self.nts().len(),
    {
        self.nonterminals.len()
    }

    /// The name of the `k`-th nonterminal and the index of its alternation.
    pub fn nonterminal(&self, k: usize) -> (r: (&str, Ind<Slot<Alternation>>))
        requires
            k < self.nts().len(),
        ensures
            r.0@ == self.nts()[k as int].0,
            r.1@ == self.nts()[k as int].1,
    {
        let entry = &self.nonterminals[k];
        (entry.0.as_str(), entry.1)
    }

    /// The number of literal strings.
    pub fn string_count(&self) -> (r: usize)
        ensures
            r == self.strs().len(),
    {
        self.strings.len()
    }

    /// The index of the empty production.
    pub fn empty_production(&self) -> (r: Ind<Production>)
        ensures
            r@ == self.empty_view(),
    {
        self.empty_prod
    }

    /// The number of alternations.
    pub fn alternation_count(&self) -> (r: usize)
        ensures
            r == self.alts().len(),
    {
        self.alternations.len()
    }

    /// The number of productions.
    pub fn production_count(&self) -> (r: usize)
        ensures
            r == self.prods().len(),
    {
        self.productions.len()
    }

    /// The alternation at index `i`; `None` if it is called but not defined.
    pub fn alternation(&self, i: Ind<Slot<Alternation>>) -> (r: &Option<Alternation>)
        requires
            i@ < self.alts().len(),
        ensures
            r is Some <==> self.alts()[i@ as int] is Some,
            r matches Some(a) ==> self.alts()[i@ as int] == Some(a@),
    {
        self.alternations.get(i).get()
    }

    /// The production at index `i`.
    pub fn production(&self, i: Ind<Production>) -> (r: &Production)
        requires
            i@ < self.prods().len(),
        ensures
            r@ == self.prods()[i@ as int],
    {
        self.productions.get(i)
    }

    /// The literal string at index `i`.
    pub fn string(&self, i: Ind<String>) -> (r: &String)
        requires
            i@ < self.strs().len(),
        ensures
            r@ == self.strs()[i@ as int],
    {
        self.strings.get(i)
    }

    /// Build the start rule from the given expression
    pub fn start(&mut self, expr: Expr)
        requires
            old(self).wf(),
            old(self).expr_ok(expr@),
            room_for(old(self).prods().len(), 1),
        ensures
            final(self).wf(),
            final(self).prods() == pool_add(old(self).prods(), start_body(old(self).prods(), expr@)),
            final(self).start_view() == Some(
                pos_of(final(self).prods(), start_body(old(self).prods(), expr@)) as nat,
            ),
            final(self).strs() == old(self).strs(),
            final(self).alts() == old(self).alts(),
            final(self).nts() == old(self).nts(),
            final(self).empty_view() == old(self).empty_view(),
    {
        let prod = match expr {
            Expr::Choice(alt) => Production::of_all(vec![Atom::Capture(alt), Atom::End]),
            Expr::Sequence(prod) => self.productions.get(prod).with(Atom::End),
            Expr::Literal(lit) => Production::of_all(vec![Atom::Literal(lit), Atom::End]),
            Expr::Empty => Production::of(Atom::End),
            Expr::Fail => Production::of(Atom::Fail),
        };
        proof {
            assert(prod@ =~= start_body(old(self).prods(), expr@));
        }
        let ind = self.productions.insert(prod);
        self.start_prod = Slot::of(ind);
        proof {
            assert(self.nts() == old(self).nts());
            assert(self.alts() == old(self).alts());
            self.lemma_unique();
            lemma_pos_of(self.prods(), prod@, ind@ as int);
            let body = start_body(old(self).prods(), expr@);
            assert(start_shape(body)) by {
                if let ExprV::Sequence(q) = expr@ {
                    assert(body.drop_last() =~= old(self).prods()[q as int]);
                }
            }
            assert forall|p: int, k: int|
                old(self).prods().len() <= p < self.prods().len() && 0 <= k < self.prods()[p].len() implies self.atom_ok(
                #[trigger] self.prods()[p][k],
            ) by {
                assert(self.prods()[p] == body);
                if let ExprV::Sequence(q) = expr@ {
                    if k < old(self).prods()[q as int].len() {
                        assert(old(self).atom_ok(old(self).prods()[q as int][k]));
                    }
                }
            }
            self.lemma_wf_from(old(self), -1, Set::empty());
        }
    }

    /// A grammar stays consistent when its productions only grow with
    /// consistent ones, its alternations only gain undefined ones, save one
    /// (`k`) that is set to a consistent `set`, and its start production, if
    /// it changes, has the shape of a start production.
    proof fn lemma_wf_from(&self, old: &Self, k: int, set: Set<usize>)
        requires
            old.wf(),
            self.pools_wf(),
            old.prods().len() <= self.prods().len() <= usize::MAX / 4,
            self.prods().len() <= u32::MAX + 1,
            forall|p: int| 0 <= p < old.prods().len() ==> self.prods()[p] == old.prods()[p],
            forall|p: int, q: int|
                old.prods().len() <= p < self.prods().len() && 0 <= q < self.prods()[p].len() ==> self.atom_ok(
                    #[trigger] self.prods()[p][q],
                ),
            self.strs() == old.strs(),
            old.alts().len() <= self.alts().len() <= u32::MAX + 1,
            forall|a: int|
                0 <= a < self.alts().len() && a != k ==> if a < old.alts().len() {
                    #[trigger] self.alts()[a] == old.alts()[a]
                } else {
                    self.alts()[a] is None
                },
            0 <= k < self.alts().len() ==> self.alts()[k] == Some(set) && self.alt_ok(set),
            self.nts() == old.nts(),
            self.empty_view() == old.empty_view(),
            self.start_view() == old.start_view() || (self.start_view() matches Some(p) && p < self.prods().len()
                && start_shape(self.prods()[p as int])),
        ensures
            self.wf(),
    {
        assert forall|p: int, q: int|
            0 <= p < self.prods().len() && 0 <= q < self.prods()[p].len() implies self.atom_ok(
            #[trigger] self.prods()[p][q],
        ) by {
            if p < old.prods().len() {
                assert(old.atom_ok(old.prods()[p][q]));
            }
        }
        assert forall|a: int| 0 <= a < self.alts().len() && #[trigger] self.alts()[a] is Some implies self.alt_ok(
            self.alts()[a]->0,
        ) by {
            if a != k {
                assert(old.alts()[a] is Some);
                old.lemma_alt_ok_grows(self, old.alts()[a]->0);
            }
        }
        assert forall|i: int| 0 <= i < self.nts().len() implies #[trigger] self.nts()[i].1 < self.alts().len() by {
            assert(old.nts()[i].1 < old.alts().len());
        }
        if self.start_view() == old.start_view() {
            if let Some(p) = self.start_view() {
                assert(start_shape(old.prods()[p as int]));
            }
        }
    }

    /// A consistent alternation stays consistent as the productions grow.
    proof fn lemma_alt_ok_grows(&self, new: &Self, set: Set<usize>)
        requires
            self.alt_ok(set),
            self.prods().len() <= new.prods().len(),
            forall|p: int| 0 <= p < self.prods().len() ==> new.prods()[p] == self.prods()[p],
        ensures
            new.alt_ok(set),
    {
        assert forall|q: usize| #[trigger] set.contains(q) implies q < new.prods().len() && end_free(
            new.prods()[q as int],
        ) by {
            assert(new.prods()[q as int] == self.prods()[q as int]);
        }
    }

    /// Grammar facts that do not change when only the productions grow.
    proof fn lemma_prods_grow(&self, old: &Self)
        requires
            old.wf(),
            self.pools_wf(),
            old.prods().len() <= self.prods().len() <= usize::MAX / 4,
            self.prods().len() <= u32::MAX + 1,
            forall|p: int| 0 <= p < old.prods().len() ==> self.prods()[p] == old.prods()[p],
            forall|p: int, k: int|
                old.prods().len() <= p < self.prods().len() && 0 <= k < self.prods()[p].len() ==> self.atom_ok(
                    #[trigger] self.prods()[p][k],
                ),
            self.strs() == old.strs(),
            self.alts() == old.alts(),
            self.nts() == old.nts(),
            self.start_view() == old.start_view(),
            self.empty_view() == old.empty_view(),
        ensures
            self.wf(),
    {
        self.lemma_wf_from(old, -1, Set::empty());
    }

    /// Converts a list of expressions into an alternation
    fn alternation_of(&mut self, exprs: Vec<Expr>) -> (r: Alternation)
        requires
            old(self).wf(),
            forall|k: int| 0 <= k < exprs@.len() ==> old(self).expr_ok(#[trigger] exprs@[k]@),
            room_for(old(self).prods().len(), exprs@.len()),
        ensures
            final(self).wf(),
            (final(self).prods(), r@) == alt_fold(
                old(self).prods(),
                old(self).alts(),
                old(self).empty_view(),
                views(exprs@),
            ),
            old(self).prods().len() <= final(self).prods().len() <= old(self).prods().len() + exprs@.len(),
            forall|p: int| 0 <= p < old(self).prods().len() ==> final(self).prods()[p] == old(self).prods()[p],
            final(self).alt_ok(r@),
            final(self).strs() == old(self).strs(),
            final(self).alts() == old(self).alts(),
            final(self).nts() == old(self).nts(),
            final(self).start_view() == old(self).start_view(),
            final(self).empty_view() == old(self).empty_view(),
    {
        let ghost es = views(exprs@);
        let mut alternation = Alternation::new();
        let mut i: usize = 0;
        proof {
            assert(es.subrange(0, 0) =~= Seq::<ExprV>::empty());
        }
        while i < exprs.len()
            invariant
                self.wf(),
                es == views(exprs@),
                i <= exprs@.len(),
                forall|k: int| 0 <= k < exprs@.len() ==> old(self).expr_ok(#[trigger] exprs@[k]@),
                room_for(old(self).prods().len(), exprs@.len()),
                (self.prods(), alternation@) == alt_fold(
                    old(self).prods(),
                    old(self).alts(),
                    old(self).empty_view(),
                    es.subrange(0, i as int),
                ),
                old(self).prods().len() <= self.prods().len() <= old(self).prods().len() + i,
                forall|p: int| 0 <= p < old(self).prods().len() ==> self.prods()[p] == old(self).prods()[p],
                self.alt_ok(alternation@),
                self.strs() == old(self).strs(),
                self.alts() == old(self).alts(),
                self.nts() == old(self).nts(),
                self.start_view() == old(self).start_view(),
                self.empty_view() == old(self).empty_view(),
            decreases exprs@.len() - i,
        {
            proof {
                assert(es.subrange(0, i as int + 1).drop_last() =~= es.subrange(0, i as int));
                assert(es.subrange(0, i as int + 1).last() == exprs@[i as int]@);
                assert(old(self).expr_ok(exprs@[i as int]@));
            }
            let ghost before = *self;
            let expr = exprs[i];
            match expr {
                Expr::Choice(alt) => {
                    if let Some(inner_alt) = self.alternation(alt) {
                        // union in already-defined alternations
                        alternation.union_with(inner_alt);
                        proof {
                            assert(self.alts()[alt@ as int] is Some);
                            assert(self.alt_ok(inner_alt@));
                            assert(alternation@.finite());
                        }
                    } else {
                        // make new production for undefined alternations
                        let prod = Production::of(Atom::Capture(alt));
                        let pi = self.productions.insert(prod);
                        proof {
                            self.lemma_unique();
                            lemma_pos_of(self.prods(), prod@, pi@ as int);
                            assert(self.alts() == before.alts());
                            assert(self.nts() == before.nts());
                            self.lemma_prods_grow(&before);
                            before.lemma_alt_ok_grows(self, alternation@);
                            assert(end_free(self.prods()[pi@ as int]));
                        }
                        alternation.insert(pi);
                    }
                },
                Expr::Sequence(prod) => {
                    alternation.insert(prod);
                },
                Expr::Literal(lit) => {
                    let prod = Production::of(Atom::Literal(lit));
                    let pi = self.productions.insert(prod);
                    proof {
                        self.lemma_unique();
                        lemma_pos_of(self.prods(), prod@, pi@ as int);
                        assert(self.alts() == before.alts());
                        assert(self.nts() == before.nts());
                        self.lemma_prods_grow(&before);
                        before.lemma_alt_ok_grows(self, alternation@);
                        assert(end_free(self.prods()[pi@ as int]));
                    }
                    alternation.insert(pi);
                },
                Expr::Empty => {
                    alternation.insert(self.empty_prod);
                },
                Expr::Fail => {  /* do nothing */
                },
            }
            i = i + 1;
        }
        proof {
            assert(es.subrange(0, i as int) =~= es);
        }
        alternation
    }

    /// The alternation bound to `name` once it is looked up or set up.
    pub open spec fn rule_index(&self, name: Seq<char>) -> nat {
        match nt_lookup(self.nts(), name) {
            Some(i) => i,
            None => self.alts().len(),
        }
    }

    /// Distinct rule names name distinct alternations.
    pub proof fn lemma_rules_distinct(&self, n1: Seq<char>, n2: Seq<char>)
        requires
            self.wf(),
            n1 != n2,
            nt_lookup(self.nts(), n1) is Some,
            nt_lookup(self.nts(), n2) is Some,
        ensures
            self.rule_index(n1) != self.rule_index(n2),
    {
        let i = choose|i: int| 0 <= i < self.nts().len() && self.nts()[i].0 == n1;
        let j = choose|i: int| 0 <= i < self.nts().len() && self.nts()[i].0 == n2;
        assert(i != j);
        assert(self.nts()[i].1 != self.nts()[j].1);
    }

    /// Sets up a new rule with the given name, returning its index
    fn begin_rule(&mut self, name: &str) -> (r: Ind<Slot<Alternation>>)
        requires
            old(self).wf(),
            nt_lookup(old(self).nts(), name@) is Some || old(self).alts().len() <= u32::MAX,
        ensures
            final(self).wf(),
            r@ == old(self).rule_index(name@),
            nt_lookup(old(self).nts(), name@) is Some ==> final(self).alts() == old(self).alts() && final(self).nts() == old(self).nts(),
            nt_lookup(old(self).nts(), name@) is None ==> final(self).alts() == old(self).alts().push(None)
                && final(self).nts() == old(self).nts().push((name@, old(self).alts().len())),
            final(self).prods() == old(self).prods(),
            final(self).strs() == old(self).strs(),
            final(self).start_view() == old(self).start_view(),
            final(self).empty_view() == old(self).empty_view(),
    {
        let mut k: usize = 0;
        while k < self.nonterminals.len()
            invariant
                self.wf(),
                k <= self.nts().len(),
                self.nts().len() == self.nonterminals@.len(),
                forall|j: int| 0 <= j < k ==> self.nts()[j].0 != name@,
            decreases self.nonterminals@.len() - k,
        {
            let entry = &self.nonterminals[k];
            let known: &str = entry.0.as_str();
            if known.key_eq(&name) {
                proof {
                    assert(self.nts()[k as int].0 == name@);
                    let c = choose|i: int| 0 <= i < self.nts().len() && self.nts()[i].0 == name@;
                    assert(c == k);
                }
                return entry.1;
            }
            k = k + 1;
        }
        proof {
            assert(nt_lookup(old(self).nts(), name@) is None);
        }
        let i = self.alternations.insert(Slot::empty());
        self.nonterminals.push((name.to_owned(), i));
        proof {
            assert(self.nts() =~= old(self).nts().push((name@, old(self).alts().len())));
            assert(self.alts() =~= old(self).alts().push(None));
            assert forall|p: int, q: int|
                0 <= p < self.prods().len() && 0 <= q < self.prods()[p].len() implies self.atom_ok(
                #[trigger] self.prods()[p][q],
            ) by {
                assert(old(self).atom_ok(old(self).prods()[p][q]));
            }
            assert forall|a: int| 0 <= a < self.alts().len() && #[trigger] self.alts()[a] is Some implies self.alts()[a]->0.finite()
                && forall|q: usize| self.alts()[a]->0.contains(q) ==> q < self.prods().len() by {
                assert(old(self).alts()[a] is Some);
            }
        }
        i
    }

    /// Completes a rule with an expression
    fn finish_rule(&mut self, i: Ind<Slot<Alternation>>, exprs: Vec<Expr>)
        requires
            old(self).wf(),
            i@ < old(self).alts().len(),
            forall|k: int| 0 <= k < exprs@.len() ==> old(self).expr_ok(#[trigger] exprs@[k]@),
            room_for(old(self).prods().len(), exprs@.len()),
        ensures
            final(self).wf(),
            final(self).prods().len() <= old(self).prods().len() + exprs@.len(),
            ({
                let (p2, set) = alt_fold(old(self).prods(), old(self).alts(), old(self).empty_view(), views(exprs@));
                &&& final(self).prods() == p2
                &&& final(self).alts() == old(self).alts().update(i@ as int, Some(set))
            }),
            final(self).strs() == old(self).strs(),
            final(self).nts() == old(self).nts(),
            final(self).start_view() == old(self).start_view(),
            final(self).empty_view() == old(self).empty_view(),
    {
        let alternation = self.alternation_of(exprs);
        let ghost before = *self;
        self.alternations.set(i, Slot::of(alternation));
        proof {
            assert(self.alts() =~= before.alts().update(i@ as int, Some(alternation@)));
            assert forall|p: int, q: int|
                0 <= p < self.prods().len() && 0 <= q < self.prods()[p].len() implies self.atom_ok(
                #[trigger] self.prods()[p][q],
            ) by {
                assert(before.atom_ok(before.prods()[p][q]));
            }
            assert forall|a: int| 0 <= a < self.alts().len() && #[trigger] self.alts()[a] is Some implies self.alts()[a]->0.finite()
                && forall|q: usize| self.alts()[a]->0.contains(q) ==> q < self.prods().len() by {
                if a != i@ {
                    assert(before.alts()[a] is Some);
                }
            }
        }
    }

    /// Build a new non-terminal from the given expression
    pub fn rule(&mut self, name: &str, exprs: Vec<Expr>)
        requires
            old(self).wf(),
            old(self).alts().len() <= u32::MAX,
            forall|k: int| 0 <= k < exprs@.len() ==> old(self).expr_ok(#[trigger] exprs@[k]@),
            room_for(old(self).prods().len(), exprs@.len()),
        ensures
            final(self).wf(),
            final(self).prods().len() <= old(self).prods().len() + exprs@.len(),
            ({
                let i = old(self).rule_index(name@);
                let alts1 = if nt_lookup(old(self).nts(), name@) is Some {
                    old(self).alts()
                } else {
                    old(self).alts().push(None)
                };
                let (p2, set) = alt_fold(old(self).prods(), alts1, old(self).empty_view(), views(exprs@));
                &&& final(self).prods() == p2
                &&& final(self).alts() == alts1.update(i as int, Some(set))
                &&& final(self).nts() == if nt_lookup(old(self).nts(), name@) is Some {
                    old(self).nts()
                } else {
                    old(self).nts().push((name@, i))
                }
            }),
            final(self).strs() == old(self).strs(),
            final(self).start_view() == old(self).start_view(),
            final(self).empty_view() == old(self).empty_view(),
    {
        let i = self.begin_rule(name);
        proof {
            assert forall|k: int| 0 <= k < exprs@.len() implies self.expr_ok(#[trigger] exprs@[k]@) by {
                assert(old(self).expr_ok(exprs@[k]@));
            }
        }
        self.finish_rule(i, exprs)
    }

    /// Creates a call to a nonterminal
    pub fn call(&mut self, name: &str) -> (r: Expr)
        requires
            old(self).wf(),
            nt_lookup(old(self).nts(), name@) is Some || old(self).alts().len() <= u32::MAX,
        ensures
            final(self).wf(),
            final(self).expr_ok(r@),
            r@ == ExprV::Choice(old(self).rule_index(name@)),
            nt_lookup(old(self).nts(), name@) is Some ==> final(self).alts() == old(self).alts() && final(self).nts() == old(self).nts(),
            nt_lookup(old(self).nts(), name@) is None ==> final(self).alts() == old(self).alts().push(None)
                && final(self).nts() == old(self).nts().push((name@, old(self).alts().len())),
            nt_lookup(final(self).nts(), name@) is Some,
            final(self).rule_index(name@) == old(self).rule_index(name@),
            final(self).prods() == old(self).prods(),
            final(self).strs() == old(self).strs(),
            final(self).start_view() == old(self).start_view(),
            final(self).empty_view() == old(self).empty_view(),
    {
        let r = Expr::Choice(self.begin_rule(name));
        proof {
            if nt_lookup(old(self).nts(), name@) is None {
                let n = old(self).nts().len() as int;
                assert(self.nts()[n].0 == name@);
                let c = choose|i: int| 0 <= i < self.nts().len() && self.nts()[i].0 == name@;
                if c != n {
                    assert(self.nts()[c].0 != self.nts()[n].0);
                }
            }
        }
        r
    }

    /// Creates an alternation of expressions
    pub fn alt(&mut self, exprs: Vec<Expr>) -> (r: Expr)
        requires
            old(self).wf(),
            old(self).alts().len() <= u32::MAX,
            forall|k: int| 0 <= k < exprs@.len() ==> old(self).expr_ok(#[trigger] exprs@[k]@),
            room_for(old(self).prods().len(), exprs@.len()),
        ensures
            final(self).wf(),
            final(self).prods().len() <= old(self).prods().len() + exprs@.len(),
            final(self).expr_ok(r@),
            ({
                let fs = without(views(exprs@), ExprV::Fail);
                &&& fs.len() == 0 ==> r@ == ExprV::Fail && final(self).alts() == old(self).alts() && final(self).prods() == old(self).prods()
                &&& fs.len() == 1 ==> r@ == fs[0] && final(self).alts() == old(self).alts() && final(self).prods() == old(self).prods()
                &&& fs.len() >= 2 ==> {
                    let (p2, set) = alt_fold(old(self).prods(), old(self).alts(), old(self).empty_view(), fs);
                    &&& final(self).prods() == p2
                    &&& final(self).alts() == old(self).alts().push(Some(set))
                    &&& r@ == ExprV::Choice(old(self).alts().len())
                }
            }),
            final(self).strs() == old(self).strs(),
            final(self).nts() == old(self).nts(),
            final(self).start_view() == old(self).start_view(),
            final(self).empty_view() == old(self).empty_view(),
    {
        let ghost orig = views(exprs@);
        proof {
            assert forall|j: int| 0 <= j < orig.len() implies self.expr_ok(#[trigger] orig[j]) by {
                assert(self.expr_ok(exprs@[j]@));
            }
        }
        // filter out failure values from alternation
        let exprs = retain_exprs(exprs, Expr::Fail);
        proof {
            lemma_without(orig, ExprV::Fail);
        }
        // failure for empty alternation
        if exprs.len() == 0 {
            return Expr::Fail;
        }
        // single expression for single value
        if exprs.len() == 1 {
            proof {
                assert(views(exprs@)[0] == exprs@[0]@);
                assert(orig.contains(views(exprs@)[0]));
                let j = choose|j: int| 0 <= j < orig.len() && orig[j] == views(exprs@)[0];
                assert(self.expr_ok(orig[j]));
            }
            return exprs[0];
        }
        proof {
            assert forall|k: int| 0 <= k < exprs@.len() implies self.expr_ok(#[trigger] exprs@[k]@) by {
                assert(views(exprs@)[k] == exprs@[k]@);
                assert(orig.contains(views(exprs@)[k]));
                let j = choose|j: int| 0 <= j < orig.len() && orig[j] == views(exprs@)[k];
                assert(self.expr_ok(orig[j]));
            }
        }
        // transform alternation of expressions into new alternation expression
        let alternation = self.alternation_of(exprs);
        let ghost before = *self;
        let ind = self.alternations.insert(Slot::of(alternation));
        proof {
            assert(self.alts() =~= before.alts().push(Some(alternation@)));
            assert forall|p: int, q: int|
                0 <= p < self.prods().len() && 0 <= q < self.prods()[p].len() implies self.atom_ok(
                #[trigger] self.prods()[p][q],
            ) by {
                assert(before.atom_ok(before.prods()[p][q]));
            }
            assert forall|a: int| 0 <= a < self.alts().len() && #[trigger] self.alts()[a] is Some implies self.alts()[a]->0.finite()
                && forall|q: usize| self.alts()[a]->0.contains(q) ==> q < self.prods().len() by {
                if a < before.alts().len() {
                    assert(before.alts()[a] is Some);
                }
            }
        }
        Expr::Choice(ind)
    }

    /// Creates a sequence of expressions
    pub fn seq(&mut self, exprs: Vec<Expr>) -> (r: Expr)
        requires
            old(self).wf(),
            forall|k: int| 0 <= k < exprs@.len() ==> old(self).expr_ok(#[trigger] exprs@[k]@),
            room_for(old(self).prods().len(), 1) || seq_pooled(old(self).prods(), views(exprs@)),
        ensures
            final(self).wf(),
            final(self).expr_ok(r@),
            ({
                let fs = without(views(exprs@), ExprV::Empty);
                &&& fs.len() == 0 ==> r@ == ExprV::Empty && final(self).prods() == old(self).prods()
                &&& fs.len() == 1 ==> r@ == fs[0] && final(self).prods() == old(self).prods()
                &&& fs.len() >= 2 ==> match seq_atoms(old(self).prods(), fs) {
                    None => r@ == ExprV::Fail && final(self).prods() == old(self).prods(),
                    Some(body) => final(self).prods() == pool_add(old(self).prods(), body) && r@
                        == ExprV::Sequence(pos_of(final(self).prods(), body) as nat),
                }
            }),
            final(self).strs() == old(self).strs(),
            final(self).alts() == old(self).alts(),
            final(self).nts() == old(self).nts(),
            final(self).start_view() == old(self).start_view(),
            final(self).empty_view() == old(self).empty_view(),
    {
        let ghost orig = views(exprs@);
        proof {
            assert forall|j: int| 0 <= j < orig.len() implies self.expr_ok(#[trigger] orig[j]) by {
                assert(self.expr_ok(exprs@[j]@));
            }
        }
        // filter out empty values from sequence
        let exprs = retain_exprs(exprs, Expr::Empty);
        let ghost fs = views(exprs@);
        proof {
            lemma_without(orig, ExprV::Empty);
        }
        // empty for empty sequence
        if exprs.len() == 0 {
            return Expr::Empty;
        }
        // single expression for single value
        if exprs.len() == 1 {
            return exprs[0];
        }
        proof {
            assert forall|k: int| 0 <= k < exprs@.len() implies self.expr_ok(#[trigger] exprs@[k]@) && exprs@[k]@
                != ExprV::Empty by {
                assert(fs[k] == exprs@[k]@);
                assert(orig.contains(fs[k]));
                let j = choose|j: int| 0 <= j < orig.len() && orig[j] == fs[k];
                assert(self.expr_ok(orig[j]));
            }
            assert(fs.subrange(0, 0) =~= Seq::<ExprV>::empty());
        }
        // transform sequence of expressions into new Sequence expression
        let mut production = Production::new();
        // any failure in a sequence causes the whole sequence to fail
        let mut failed = false;
        let mut i: usize = 0;
        while i < exprs.len() && !failed
            invariant
                self == old(self),
                self.wf(),
                fs == views(exprs@),
                i <= exprs@.len(),
                forall|k: int| 0 <= k < exprs@.len() ==> self.expr_ok(#[trigger] exprs@[k]@) && exprs@[k]@
                    != ExprV::Empty,
                !failed ==> seq_atoms(self.prods(), fs.subrange(0, i as int)) == Some(production@),
                failed ==> seq_atoms(self.prods(), fs) is None,
                forall|k: int| 0 <= k < production@.len() ==> self.atom_ok(#[trigger] production@[k]),
                end_free(production@),
            decreases exprs@.len() - i,
        {
            proof {
                assert(fs.subrange(0, i as int + 1).drop_last() =~= fs.subrange(0, i as int));
                assert(fs.subrange(0, i as int + 1).last() == exprs@[i as int]@);
                assert(self.expr_ok(exprs@[i as int]@));
            }
            let ghost before = production@;
            match exprs[i] {
                Expr::Choice(alt) => {
                    production.push(Atom::Capture(alt));
                },
                Expr::Sequence(prod) => {
                    production.append(self.productions.get(prod));
                    proof {
                        assert forall|k: int| 0 <= k < production@.len() implies #[trigger] production@[k]
                            != AtomV::End by {
                            if k >= before.len() {
                                assert(production@[k] == self.prods()[prod@ as int][k - before.len()]);
                            }
                        }
                        assert forall|k: int| 0 <= k < production@.len() implies self.atom_ok(
                            #[trigger] production@[k],
                        ) by {
                            if k >= before.len() {
                                assert(production@[k] == self.prods()[prod@ as int][k - before.len()]);
                            }
                        }
                    }
                },
                Expr::Literal(lit) => {
                    production.push(Atom::Literal(lit));
                },
                Expr::Empty => {
                    // empty expressions were filtered out earlier
                    proof {
                        assert(false);
                    }
                },
                Expr::Fail => {
                    proof {
                        lemma_seq_atoms_fails(self.prods(), fs, i as int + 1);
                    }
                    failed = true;
                },
            }
            i = i + 1;
        }
        if failed {
            return Expr::Fail;
        }
        proof {
            assert(fs.subrange(0, i as int) =~= fs);
        }
        let ghost before = *self;
        let ind = self.productions.insert(production);
        proof {
            self.lemma_unique();
            lemma_pos_of(self.prods(), production@, ind@ as int);
            assert(self.alts() == before.alts());
            assert(self.nts() == before.nts());
            self.lemma_prods_grow(&before);
        }
        Expr::Sequence(ind)
    }

    /// Creates a literal string.
    /// Returns [Expr::Empty] for empty string.
    pub fn lit(&mut self, s: &str) -> (r: Expr)
        requires
            old(self).wf(),
            room_for(old(self).strs().len(), 1),
        ensures
            final(self).wf(),
            final(self).expr_ok(r@),
            s@.len() == 0 ==> r@ == ExprV::Empty && final(self).strs() == old(self).strs(),
            s@.len() > 0 ==> final(self).strs() == pool_add(old(self).strs(), s@) && r@ == ExprV::Literal(
                pos_of(final(self).strs(), s@) as nat,
            ),
            final(self).prods() == old(self).prods(),
            final(self).alts() == old(self).alts(),
            final(self).nts() == old(self).nts(),
            final(self).start_view() == old(self).start_view(),
            final(self).empty_view() == old(self).empty_view(),
    {
        let t = s.to_owned();
        if t.as_str().is_empty() {
            Expr::Empty
        } else {
            let ghost before = *self;
            let ind = self.strings.insert(t);
            proof {
                self.lemma_unique();
                lemma_pos_of(self.strs(), s@, ind@ as int);
                assert(self.alts() == before.alts());
                assert(self.nts() == before.nts());
                assert(self.prods() == before.prods());
                assert forall|p: int, q: int|
                    0 <= p < self.prods().len() && 0 <= q < self.prods()[p].len() implies self.atom_ok(
                    #[trigger] self.prods()[p][q],
                ) by {
                    assert(before.atom_ok(before.prods()[p][q]));
                }
            }
            Expr::Literal(ind)
        }
    }
}

} // verus!
