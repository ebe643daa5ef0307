//! A matcher for RegexLR expressions.
//!
//! This uses a Packrat algorithm, modified to keep multiple possible prefix
//! matches for RegexLR's unordered-choice semantics. It uses the memoization
//! approach of Warth, Douglass & Millstein to grow the matches of a rule that
//! captures itself before consuming input (direct left recursion) until they
//! stop changing. Left recursion through other rules is not followed to the
//! end: the inner rule's result is settled while the outer one still grows,
//! so such a grammar can miss matches.
//!
//! On failure, the position reported is the furthest point that the failing
//! attempts reach (see [`crate::failure`]).

use crate::bitset::{
    bits_of, bitset_clone, bitset_difference_with, bitset_elements, bitset_insert, bitset_is_empty,
    bitset_new, bitset_union_with, Bits,
};
use crate::error::Error;
use crate::failure::{
    alt_fails, atom_fails, atom_fails_in, failing_after, lemma_alt_fails_from_prod, lemma_alt_fails_here, lemma_alt_fails_split,
    lemma_atom_fails_no_match, lemma_literal_fails_once, lemma_prod_fails_at, lemma_prod_fails_split,
    literal_fails_at, prod_fails, stuck,
};
use crate::grammar::{end_free, start_shape, Alternation, Atom, AtomV, Grammar, Production, Slot};
use crate::language::{
    accepts, alt_matches, atom_in, atom_matches, consumes, known_after, known_with, lemma_alt_of_prod,
    lemma_alt_ordered, lemma_alt_split, lemma_atom_only, lemma_capture, lemma_empty_prod,
    lemma_empty_prod_only, lemma_end, lemma_least_ends, lemma_literal, lemma_prod_extend,
    lemma_prod_in_empty, lemma_prod_in_extend, lemma_prod_in_ordered, lemma_prod_in_prefix,
    lemma_prod_in_sound, lemma_prod_in_split, lemma_prod_ordered, lemma_prod_prefix, lemma_prod_split,
    lit_bytes, ordered, prod_in, prod_matches, splits_in,
};
use crate::pool::Ind;
use std::collections::HashMap;
use vstd::prelude::*;
use vstd::set_lib::lemma_len_subset;
use vstd::utf8::encode_utf8;

verus! {

broadcast use vstd::std_specs::hash::group_hash_axioms;

/// A success result for matching
#[derive(Clone, Debug)]
enum Match {
    /// Short-circuit on successful match of entire input
    Done,
    /// Match a prefix of the entire input, ending at the contained indices.
    /// Indices will be non-empty.
    Prefix(Bits),
    /// `Prefix`, but with incomplete information due to unresolved left-recursion.
    /// Indices may be empty.
    Incomplete(Bits),
}

impl Match {
    /// Creates a partial match at the given index
    fn at(i: usize) -> (r: Self)
        requires
            i < usize::MAX,
        ensures
            r matches Match::Prefix(b) && bits_of(b) == Set::<usize>::empty().insert(i),
    {
        let mut set = bitset_new();
        bitset_insert(&mut set, i);
        Match::Prefix(set)
    }

    /// Creates a new incomplete result
    fn incomplete() -> (r: Self)
        ensures
            r matches Match::Incomplete(b) && bits_of(b) == Set::<usize>::empty(),
    {
        Match::Incomplete(bitset_new())
    }
}

/// What an intermediate parse result says: the end positions of the
/// matches found, or the position and errors of a failure.
ghost enum Outcome {
    Done,
    Prefix(Set<usize>),
    Incomplete(Set<usize>),
    Failed(nat, Seq<Error>),
}

/// What an intermediate parse result says.
spec fn outcome(r: Result<Match, ParseFailure>) -> Outcome {
    match r {
        Ok(Match::Done) => Outcome::Done,
        Ok(Match::Prefix(b)) => Outcome::Prefix(bits_of(b)),
        Ok(Match::Incomplete(b)) => Outcome::Incomplete(bits_of(b)),
        Err(f) => Outcome::Failed(f.pos(), f.errs()),
    }
}

/// Failure result.
/// Couples index of farthest match with vector of failures
#[derive(Clone, Debug)]
pub struct ParseFailure(usize, Vec<Error>);

impl ParseFailure {
    /// The position of the failure.
    pub closed spec fn pos(&self) -> nat {
        self.0 as nat
    }

    /// The errors at the position of the failure.
    pub closed spec fn errs(&self) -> Seq<Error> {
        self.1@
    }

    /// Create a new empty failure list at the given index
    pub fn new(start: usize) -> (r: Self)
        ensures
            r.pos() == start,
            r.errs() == Seq::<Error>::empty(),
    {
        ParseFailure(start, Vec::new())
    }

    /// Create a new single failure at the given index
    pub fn at(start: usize, err: Error) -> (r: Self)
        ensures
            r.pos() == start,
            r.errs() == seq![err],
    {
        let r = ParseFailure(start, vec![err]);
        assert(r.errs() =~= seq![err]);
        r
    }

    /// Create a new [Error::InputDoesNotMatch] failure at the given index
    pub fn no_match_at(start: usize) -> (r: Self)
        ensures
            r.pos() == start,
            r.errs() == seq![Error::InputDoesNotMatch { location: start }],
    {
        Self::at(start, Error::InputDoesNotMatch { location: start })
    }

    /// Update the failure list with a new set of failures
    /// Does nothing if new set is earlier, replaces if later, appends if equal position
    pub fn append(&mut self, other: Self)
        ensures
            other.pos() < old(self).pos() ==> final(self).pos() == old(self).pos() && final(self).errs()
                == old(self).errs(),
            other.pos() > old(self).pos() ==> final(self).pos() == other.pos() && final(self).errs()
                == other.errs(),
            other.pos() == old(self).pos() ==> final(self).pos() == old(self).pos() && final(self).errs()
                == old(self).errs() + other.errs(),
    {
        let mut other = other;
        if other.0 < self.0 {
            // do nothing
        } else if other.0 > self.0 {
            // new latest errors
            self.0 = other.0;
            self.1 = other.1;
        } else {
            // add to existing set of latest errors
            self.1.append(&mut other.1);
        }
    }

    /// The position of the failure.
    pub fn position(&self) -> (r: usize)
        ensures
            r == self.pos(),
    {
        self.0
    }

    /// The errors at the position of the failure.
    pub fn errors(&self) -> (r: &[Error])
        ensures
            r@ == self.errs(),
    {
        self.1.as_slice()
    }

    /// A copy of the failure.
    fn copy(&self) -> (r: Self)
        ensures
            r.pos() == self.pos(),
            r.errs() == self.errs(),
    {
        let mut errs: Vec<Error> = Vec::new();
        let mut k: usize = 0;
        while k < self.1.len()
            invariant
                k <= self.1@.len(),
                errs@ == self.1@.subrange(0, k as int),
            decreases self.1@.len() - k,
        {
            errs.push(self.1[k]);
            k = k + 1;
            assert(errs@ =~= self.1@.subrange(0, k as int));
        }
        assert(errs@ =~= self.1@);
        ParseFailure(self.0, errs)
    }
}

/// A copy of an intermediate parse result.
fn copy_result(r: &Result<Match, ParseFailure>) -> (c: Result<Match, ParseFailure>)
    ensures
        outcome(c) == outcome(*r),
{
    match r {
        Ok(Match::Done) => Ok(Match::Done),
        Ok(Match::Prefix(b)) => Ok(Match::Prefix(bitset_clone(b))),
        Ok(Match::Incomplete(b)) => Ok(Match::Incomplete(bitset_clone(b))),
        Err(f) => Err(f.copy()),
    }
}

/// An error that matching can give at position `pos`: a mismatch there, or
/// a call of an alternation that is not defined.
pub open spec fn error_ok(g: &Grammar, pos: nat, e: Error) -> bool {
    match e {
        Error::InputDoesNotMatch { location } => location == pos,
        Error::MissingStart => false,
        Error::MissingRule { ind } => ind@ < g.alts().len() && g.alts()[ind@ as int] is None,
    }
}

/// Every error of a failure at `pos` is one that matching can give there.
pub open spec fn failure_ok(g: &Grammar, pos: nat, errs: Seq<Error>) -> bool {
    forall|k: int| 0 <= k < errs.len() ==> error_ok(g, pos, #[trigger] errs[k])
}

/// A failure of matching from `i`: at least one error, each one that matching
/// can give, at a position from `i` to the end of the input.
pub open spec fn failed_ok(g: &Grammar, t: Seq<u8>, i: int, pos: nat, errs: Seq<Error>) -> bool {
    &&& failure_ok(g, pos, errs)
    &&& errs.len() > 0
    &&& i <= pos <= t.len()
}

/// The failures gathered so far from `i`: errors that matching can give, at a
/// position from `i` to the end of the input, and some error past `i`.
spec fn gathered_ok(g: &Grammar, t: Seq<u8>, i: int, pos: nat, errs: Seq<Error>) -> bool {
    &&& failure_ok(g, pos, errs)
    &&& i <= pos <= t.len()
    &&& (errs.len() > 0 || pos == i)
}

/// The input is short enough that every position that matching computes fits in a `usize`.
pub open spec fn fits(g: &Grammar, t: Seq<u8>) -> bool {
    &&& t.len() < usize::MAX
    &&& forall|l: nat| l < g.strs().len() ==> t.len() + (#[trigger] lit_bytes(g, l)).len() < usize::MAX
}

/// Every end is within the input, and alternation `a` matches from `i` to it.
spec fn alt_ends_ok(g: &Grammar, t: Seq<u8>, a: nat, i: int, ends: Set<usize>) -> bool {
    forall|j: usize| #[trigger] ends.contains(j) ==> j <= t.len() && alt_matches(g, t, a, i, j as int)
}

/// Every end is within the input, and `body` matches from `i` to it.
spec fn prod_ends_ok(g: &Grammar, t: Seq<u8>, body: Seq<AtomV>, i: int, ends: Set<usize>) -> bool {
    forall|j: usize| #[trigger] ends.contains(j) ==> j <= t.len() && prod_matches(g, t, body, i, j as int)
}

/// Every end is within the input, and atom `x` matches from `i` to it.
spec fn atom_ends_ok(g: &Grammar, t: Seq<u8>, x: AtomV, i: int, ends: Set<usize>) -> bool {
    forall|j: usize| #[trigger] ends.contains(j) ==> j <= t.len() && atom_matches(g, t, x, i, j as int)
}

/// What a result of alternation `a` at `i` may say.
spec fn alt_out_ok(g: &Grammar, t: Seq<u8>, a: nat, i: int, o: Outcome) -> bool {
    &&& match o {
        Outcome::Done => false,
        Outcome::Prefix(ends) => ends != Set::<usize>::empty() && alt_ends_ok(g, t, a, i, ends),
        Outcome::Incomplete(ends) => alt_ends_ok(g, t, a, i, ends),
        Outcome::Failed(pos, errs) => failed_ok(g, t, i, pos, errs),
    }
    &&& g.alts()[a as int] is None ==> o == Outcome::Incomplete(Set::<usize>::empty()) || missing_rule(a, i, o)
}

/// A failure at `i` with the one error that alternation `a` is not defined.
spec fn missing_rule(a: nat, i: int, o: Outcome) -> bool {
    &&& o matches Outcome::Failed(pos, errs)
    &&& pos == i
    &&& errs.len() == 1
    &&& errs[0] matches Error::MissingRule { ind }
    &&& ind@ == a
}

/// What a result of the production `body` at `i` may say: a whole-input
/// match is only found at an end-of-input atom that the atoms before it
/// reach at the end of the input.
spec fn prod_out_ok(g: &Grammar, t: Seq<u8>, body: Seq<AtomV>, i: int, o: Outcome) -> bool {
    match o {
        Outcome::Done => exists|k: int|
            0 <= k < body.len() && #[trigger] body[k] == AtomV::End && prod_matches(
                g,
                t,
                body.subrange(0, k),
                i,
                t.len() as int,
            ),
        Outcome::Prefix(ends) => ends != Set::<usize>::empty() && prod_ends_ok(g, t, body, i, ends),
        Outcome::Incomplete(ends) => prod_ends_ok(g, t, body, i, ends),
        Outcome::Failed(pos, errs) => failed_ok(g, t, i, pos, errs),
    }
}

/// What a result of atom `x` at `i` may say.
spec fn atom_out_ok(g: &Grammar, t: Seq<u8>, x: AtomV, i: int, o: Outcome) -> bool {
    match o {
        Outcome::Done => x == AtomV::End && i == t.len(),
        Outcome::Prefix(ends) => ends != Set::<usize>::empty() && atom_ends_ok(g, t, x, i, ends),
        Outcome::Incomplete(ends) => atom_ends_ok(g, t, x, i, ends),
        Outcome::Failed(pos, errs) => failed_ok(g, t, i, pos, errs),
    }
}

/// No atom of `body` before position `x` consumes input.
pub open spec fn unconsumed(g: &Grammar, body: Seq<AtomV>, x: int) -> bool {
    forall|y: int| 0 <= y < x ==> !consumes(g, #[trigger] body[y])
}

/// Every capture that `body` can reach before consuming input is of
/// alternation `b` itself or of an alternation of rank below `b`'s.
pub open spec fn captures_below(g: &Grammar, rank: spec_fn(nat) -> nat, body: Seq<AtomV>, b: nat) -> bool {
    forall|x: int|
        0 <= x < body.len() && unconsumed(g, body, x) ==> match #[trigger] body[x] {
            AtomV::Capture(c) => c == b || rank(c) < rank(b),
            _ => true,
        }
}

/// `rank` falls at every capture of another alternation that a production
/// of an alternation can reach before it consumes input.
pub open spec fn ranked(g: &Grammar, rank: spec_fn(nat) -> nat) -> bool {
    forall|a: int, p: usize|
        0 <= a < g.alts().len() && g.alts()[a] is Some && #[trigger] g.alts()[a]->0.contains(p) ==> captures_below(
            g,
            rank,
            g.prods()[p as int],
            a as nat,
        )
}

/// Any left recursion of the grammar is direct: no alternation can reach a
/// capture of itself through others without consuming input, though it may
/// capture itself before consuming input.
pub open spec fn only_direct_left_recursion(g: &Grammar) -> bool {
    exists|rank: spec_fn(nat) -> nat| ranked(g, rank)
}

/// A result of alternation `a` at `i` holds every end to which the alternation matches.
spec fn alt_complete(g: &Grammar, t: Seq<u8>, a: nat, i: int, o: Outcome) -> bool {
    forall|j: int| #[trigger] alt_matches(g, t, a, i, j) ==> (o matches Outcome::Prefix(ends) && ends.contains(j as usize))
}

/// A result of `body` at `i` is a whole-input match or holds every end to which `body` matches.
spec fn prod_complete(g: &Grammar, t: Seq<u8>, body: Seq<AtomV>, i: int, o: Outcome) -> bool {
    forall|j: int|
        #[trigger] prod_matches(g, t, body, i, j) ==> (o is Done || (o matches Outcome::Prefix(ends) && ends.contains(
            j as usize,
        )))
}

/// A result of atom `x` at `i` is a whole-input match or holds every end to which `x` matches.
spec fn atom_complete(g: &Grammar, t: Seq<u8>, x: AtomV, i: int, o: Outcome) -> bool {
    forall|j: int|
        #[trigger] atom_matches(g, t, x, i, j) ==> (o is Done || (o matches Outcome::Prefix(ends) && ends.contains(
            j as usize,
        )))
}

/// A result of `body` at `i` is a whole-input match or holds every end to
/// which `body` matches with the alternation matches `known`.
spec fn prod_complete_in(g: &Grammar, t: Seq<u8>, known: Set<(nat, int, int)>, body: Seq<AtomV>, i: int, o: Outcome) -> bool {
    forall|j: int|
        #[trigger] prod_in(g, t, known, body, i, j) ==> (o is Done || (o matches Outcome::Prefix(ends) && ends.contains(
            j as usize,
        )) || (o matches Outcome::Incomplete(ends) && ends.contains(j as usize)))
}

/// A result of atom `x` at `i` is a whole-input match or holds every end to
/// which `x` matches with the alternation matches `known`.
spec fn atom_complete_in(g: &Grammar, t: Seq<u8>, known: Set<(nat, int, int)>, x: AtomV, i: int, o: Outcome) -> bool {
    forall|j: int|
        #[trigger] atom_in(g, t, known, x, i, j) ==> (o is Done || (o matches Outcome::Prefix(ends) && ends.contains(
            j as usize,
        )) || (o matches Outcome::Incomplete(ends) && ends.contains(j as usize)))
}

/// A failure of alternation `a` at `i` is at the furthest point that its
/// failing attempts reach.
spec fn alt_fail_ok(g: &Grammar, t: Seq<u8>, a: nat, i: int, o: Outcome) -> bool {
    o matches Outcome::Failed(pos, _) ==> (forall|q: int| #[trigger] alt_fails(g, t, a, i, q) ==> q <= pos) && alt_fails(
        g,
        t,
        a,
        i,
        pos as int,
    )
}

/// A failure of `body` at `i` is at `i` or at the furthest point that its
/// failing attempts reach.
spec fn prod_fail_ok(g: &Grammar, t: Seq<u8>, body: Seq<AtomV>, i: int, o: Outcome) -> bool {
    o matches Outcome::Failed(pos, _) ==> (forall|q: int| #[trigger] prod_fails(g, t, body, i, q) ==> q <= pos) && (pos
        == i || prod_fails(g, t, body, i, pos as int))
}

/// A failure of atom `x` at `k` is at the furthest point that it reaches.
spec fn atom_fail_ok(g: &Grammar, t: Seq<u8>, x: AtomV, k: int, o: Outcome) -> bool {
    o matches Outcome::Failed(pos, _) ==> (forall|q: int| #[trigger] atom_fails(g, t, x, k, q) ==> q <= pos) && atom_fails(
        g,
        t,
        x,
        k,
        pos as int,
    )
}

/// Matching the whole input fails at `pos`: the furthest point that the
/// failing attempts of the start production reach, or the start itself.
pub open spec fn furthest_failure(g: &Grammar, t: Seq<u8>, pos: nat) -> bool {
    &&& g.start_view() matches Some(p)
    &&& forall|q: int| #[trigger] prod_fails(g, t, g.prods()[p as int], 0, q) ==> q <= pos
    &&& (pos == 0 || prod_fails(g, t, g.prods()[p as int], 0, pos as int))
}

/// The result of a literal `l` at `i`: the position just past it where the
/// input goes on with its bytes, or else a mismatch where the input first
/// departs from them, or where it ends.
spec fn literal_outcome(g: &Grammar, t: Seq<u8>, l: nat, i: int, o: Outcome) -> bool {
    let lit = lit_bytes(g, l);
    if i + lit.len() <= t.len() && t.subrange(i, i + lit.len()) == lit {
        o == Outcome::Prefix(Set::<usize>::empty().insert((i + lit.len()) as usize))
    } else {
        exists|k: int|
            0 <= k < lit.len() && i + k <= t.len() && #[trigger] t.subrange(i, i + k) == lit.subrange(0, k) && (i + k
                == t.len() || t[i + k] != lit[k]) && o == Outcome::Failed(
                (i + k) as nat,
                seq![Error::InputDoesNotMatch { location: (i + k) as usize }],
            )
    }
}

/// The result of an atom that captures nothing, at `i`.
spec fn atom_exact(g: &Grammar, t: Seq<u8>, x: AtomV, i: int, o: Outcome) -> bool {
    match x {
        AtomV::Literal(l) => literal_outcome(g, t, l, i, o),
        AtomV::Capture(_) => true,
        AtomV::End => if i == t.len() {
            o == Outcome::Done
        } else {
            o == Outcome::Failed(i as nat, seq![Error::InputDoesNotMatch { location: i as usize }])
        },
        AtomV::Fail => o == Outcome::Failed(i as nat, seq![Error::InputDoesNotMatch { location: i as usize }]),
    }
}

/// Appending failures that matching can give gives failures that matching can give.
proof fn lemma_append_ok(g: &Grammar, p1: nat, e1: Seq<Error>, p2: nat, e2: Seq<Error>)
    requires
        failure_ok(g, p1, e1),
        failure_ok(g, p2, e2),
        p1 == p2,
    ensures
        failure_ok(g, p1, e1 + e2),
{
    assert forall|k: int| 0 <= k < (e1 + e2).len() implies error_ok(g, p1, #[trigger] (e1 + e2)[k]) by {
        if k < e1.len() {
            assert((e1 + e2)[k] == e1[k]);
        } else {
            assert((e1 + e2)[k] == e2[k - e1.len()]);
        }
    }
}

/// A set of positions below `n` is finite and has at most `n` elements.
proof fn lemma_bounded_set(s: Set<usize>, n: nat)
    requires
        forall|x: usize| #[trigger] s.contains(x) ==> x < n,
    ensures
        s.finite(),
        s.len() <= n,
    decreases n,
{
    if n == 0 {
        assert(s =~= Set::<usize>::empty());
    } else {
        let top = (n - 1) as usize;
        let rest = s.remove(top);
        assert forall|x: usize| #[trigger] rest.contains(x) implies x < n - 1 by {
            assert(s.contains(x));
        }
        lemma_bounded_set(rest, (n - 1) as nat);
        if s.contains(top) {
            assert(s =~= rest.insert(top));
        } else {
            assert(s =~= rest);
        }
    }
}

/// A set that is not empty holds the element that `choose` picks.
proof fn lemma_nonempty_has<A>(s: Set<A>)
    requires
        s != Set::<A>::empty(),
    ensures
        s.contains(s.choose()),
{
    if !(exists|x: A| s.contains(x)) {
        assert(s =~= Set::<A>::empty());
    }
}

/// A proper subset of a finite set is smaller.
proof fn lemma_proper_subset_len<A>(small: Set<A>, big: Set<A>)
    requires
        small.subset_of(big),
        big.finite(),
        small != big,
    ensures
        small.len() < big.len(),
{
    let x = choose|x: A| big.contains(x) && !small.contains(x);
    assert(exists|x: A| big.contains(x) && !small.contains(x)) by {
        if !(exists|x: A| big.contains(x) && !small.contains(x)) {
            assert(small =~= big);
        }
    }
    lemma_len_subset(small, big.remove(x));
}

/// The table of an intermediate parse result per start position, for each
/// alternation or production.
type Memo = Seq<Map<usize, Result<Match, ParseFailure>>>;

/// How many more results the tables of `ms` can take, each holding at most `cap`.
spec fn room(ms: Memo, cap: nat) -> nat
    decreases ms.len(),
{
    if ms.len() == 0 {
        0
    } else {
        room(ms.drop_last(), cap) + (cap - ms.last().dom().len()) as nat
    }
}

/// Tables only gain entries: the room left does not grow, and shrinks when an entry is added.
proof fn lemma_room(small: Memo, big: Memo, cap: nat)
    requires
        small.len() == big.len(),
        forall|k: int| 0 <= k < small.len() ==> #[trigger] small[k].dom().subset_of(big[k].dom()),
        forall|k: int| 0 <= k < big.len() ==> #[trigger] big[k].dom().finite() && big[k].dom().len() <= cap,
    ensures
        room(big, cap) <= room(small, cap),
        (exists|k: int| 0 <= k < small.len() && #[trigger] small[k].dom() != big[k].dom()) ==> room(big, cap)
            < room(small, cap),
    decreases small.len(),
{
    if small.len() > 0 {
        let n = small.len() - 1;
        assert(small.last() == small[n]);
        assert(big.last() == big[n]);
        assert(small.drop_last().len() == big.drop_last().len());
        assert forall|k: int| 0 <= k < small.drop_last().len() implies #[trigger] small.drop_last()[k].dom().subset_of(
            big.drop_last()[k].dom(),
        ) by {
            assert(small[k].dom().subset_of(big[k].dom()));
        }
        assert forall|k: int| 0 <= k < big.drop_last().len() implies #[trigger] big.drop_last()[k].dom().finite()
            && big.drop_last()[k].dom().len() <= cap by {
            assert(big[k].dom().finite());
        }
        lemma_room(small.drop_last(), big.drop_last(), cap);
        assert(small[n].dom().subset_of(big[n].dom()));
        assert(big[n].dom().finite());
        lemma_len_subset(small[n].dom(), big[n].dom());
        if small[n].dom() != big[n].dom() {
            lemma_proper_subset_len(small[n].dom(), big[n].dom());
        }
        if exists|k: int| 0 <= k < small.len() && #[trigger] small[k].dom() != big[k].dom() {
            let k = choose|k: int| 0 <= k < small.len() && #[trigger] small[k].dom() != big[k].dom();
            if k < n {
                assert(small.drop_last()[k].dom() != big.drop_last()[k].dom());
            }
        }
    }
}

/// State of the parser
struct ParseState {
    /// Memoization table for alternation results;
    /// indexed by alternation, keyed by index into input, value is cached result
    alternation_results: Vec<HashMap<usize, Result<Match, ParseFailure>>>,
    /// Memoization table for production results;
    /// indexed by production, keyed by index into input, value is cached result
    production_results: Vec<HashMap<usize, Result<Match, ParseFailure>>>,
}

impl ParseState {
    /// The alternation results, by alternation and start position.
    spec fn alts_memo(&self) -> Memo {
        self.alternation_results@.map_values(|m: HashMap<usize, Result<Match, ParseFailure>>| m@)
    }

    /// The production results, by production and start position.
    spec fn prods_memo(&self) -> Memo {
        self.production_results@.map_values(|m: HashMap<usize, Result<Match, ParseFailure>>| m@)
    }

    /// The tables fit the grammar, start within the input, and every result
    /// they hold says what a result of its alternation or production may say;
    /// a production's result is final.
    spec fn inv(&self, g: &Grammar, t: Seq<u8>) -> bool {
        &&& self.alts_memo().len() == g.alts().len()
        &&& self.prods_memo().len() == g.prods().len()
        &&& forall|a: int, i: usize|
            0 <= a < self.alts_memo().len() && #[trigger] self.alts_memo()[a].contains_key(i) ==> i <= t.len()
                && alt_out_ok(g, t, a as nat, i as int, outcome(self.alts_memo()[a][i]))
        &&& forall|p: int, i: usize|
            0 <= p < self.prods_memo().len() && #[trigger] self.prods_memo()[p].contains_key(i) ==> i <= t.len()
                && prod_out_ok(g, t, g.prods()[p], i as int, outcome(self.prods_memo()[p][i]))
                && !(self.prods_memo()[p][i] matches Ok(Match::Incomplete(_)))
                && !(self.prods_memo()[p][i] matches Ok(Match::Done))
    }

    /// Every result held here is still held, unchanged, in `new`.
    spec fn grows_to(&self, new: &Self) -> bool {
        &&& new.alts_memo().len() == self.alts_memo().len()
        &&& new.prods_memo().len() == self.prods_memo().len()
        &&& forall|a: int| 0 <= a < self.alts_memo().len() ==> #[trigger] self.alts_memo()[a].submap_of(new.alts_memo()[a])
        &&& forall|p: int| 0 <= p < self.prods_memo().len() ==> #[trigger] self.prods_memo()[p].submap_of(new.prods_memo()[p])
    }

    /// Some alternation result held here is still being worked out.
    spec fn pending(&self) -> bool {
        exists|a: int, i: usize|
            0 <= a < self.alts_memo().len() && #[trigger] self.alts_memo()[a].contains_key(i)
                && self.alts_memo()[a][i] matches Ok(Match::Incomplete(_))
    }

    /// No alternation result held here but not in `old` is still being worked out.
    spec fn settled_since(&self, old: &Self) -> bool {
        forall|a: int, i: usize|
            0 <= a < self.alts_memo().len() && #[trigger] self.alts_memo()[a].contains_key(i) && !old.alts_memo()[a].contains_key(i)
                ==> !(self.alts_memo()[a][i] matches Ok(Match::Incomplete(_)))
    }

    /// With a ranked grammar, every final result held here holds every end of its matches.
    spec fn memo_complete(&self, g: &Grammar, t: Seq<u8>, rank: spec_fn(nat) -> nat) -> bool {
        ranked(g, rank) ==> {
            &&& forall|a: int, i: usize|
                0 <= a < self.alts_memo().len() && #[trigger] self.alts_memo()[a].contains_key(i) && !(
                self.alts_memo()[a][i] matches Ok(Match::Incomplete(_))) ==> alt_complete(
                    g,
                    t,
                    a as nat,
                    i as int,
                    outcome(self.alts_memo()[a][i]),
                ) && alt_fail_ok(g, t, a as nat, i as int, outcome(self.alts_memo()[a][i]))
            &&& forall|p: int, i: usize|
                0 <= p < self.prods_memo().len() && #[trigger] self.prods_memo()[p].contains_key(i) ==> prod_complete(
                    g,
                    t,
                    g.prods()[p],
                    i as int,
                    outcome(self.prods_memo()[p][i]),
                ) && prod_fail_ok(g, t, g.prods()[p], i as int, outcome(self.prods_memo()[p][i])) && (
                self.prods_memo()[p][i] is Err ==> self.captures_settled(g, t, g.prods()[p], i))
        }
    }

    /// The alternation result at `(c, i)` is held and final.
    spec fn settled_at(&self, c: int, i: usize) -> bool {
        &&& 0 <= c < self.alts_memo().len()
        &&& self.alts_memo()[c].contains_key(i)
        &&& !(self.alts_memo()[c][i] matches Ok(Match::Incomplete(_)))
    }

    /// Every capture that `body` tries at `i`, after atoms that match the
    /// empty stretch there, has a final result held here.
    spec fn captures_settled(&self, g: &Grammar, t: Seq<u8>, body: Seq<AtomV>, i: usize) -> bool {
        forall|x: int|
            0 <= x < body.len() && #[trigger] prod_matches(g, t, body.subrange(0, x), i as int, i as int) ==> match body[x] {
                AtomV::Capture(c) => self.settled_at(c as int, i),
                _ => true,
            }
    }

    /// The alternation result at `(b, m)` is still being worked out.
    spec fn pending_at(&self, b: int, m: usize) -> bool {
        &&& 0 <= b < self.alts_memo().len()
        &&& self.alts_memo()[b].contains_key(m)
        &&& self.alts_memo()[b][m] matches Ok(Match::Incomplete(_))
    }

    /// Every alternation result still being worked out is at a position
    /// before `k`, or at `k` for alternation `c` or one of rank above `c`'s.
    spec fn pending_above(&self, rank: spec_fn(nat) -> nat, k: usize, c: nat) -> bool {
        forall|b: int, m: usize| #[trigger] self.pending_at(b, m) ==> m < k || (m == k && (b == c || rank(b as nat) > rank(c)))
    }

    /// Every alternation result still being worked out is at a position
    /// before `k`, or at `k` for an alternation whose own captures, and
    /// those of lower rank, are every capture that `body` reaches before
    /// consuming input.
    spec fn pending_above_prod(&self, g: &Grammar, rank: spec_fn(nat) -> nat, k: usize, body: Seq<AtomV>) -> bool {
        forall|b: int, m: usize|
            #[trigger] self.pending_at(b, m) ==> m < k || (m == k && captures_below(g, rank, body, b as nat))
    }

    /// The ends found so far for an alternation result still being worked out.
    spec fn pending_ends(&self, b: int, m: usize) -> Set<usize> {
        match outcome(self.alts_memo()[b][m]) {
            Outcome::Incomplete(ends) => ends,
            _ => Set::empty(),
        }
    }

    /// The alternation matches as the tables stand: for a result still
    /// being worked out, the ends found so far; for every other, its matches.
    spec fn ctx(&self, g: &Grammar, t: Seq<u8>) -> Set<(nat, int, int)> {
        Set::new(
            |m: (nat, int, int)|
                if 0 <= m.1 <= usize::MAX && self.pending_at(m.0 as int, m.1 as usize) {
                    0 <= m.2 <= usize::MAX && self.pending_ends(m.0 as int, m.1 as usize).contains(m.2 as usize)
                } else {
                    alt_matches(g, t, m.0, m.1, m.2)
                },
        )
    }

    /// How many alternation results can still be added for an input of `n` bytes.
    spec fn budget(&self, n: nat) -> nat {
        room(self.alts_memo(), n + 1)
    }

    /// Creates a new empty state, for a grammar with `n_alts` alternations and `n_prods` productions
    fn new(n_alts: usize, n_prods: usize) -> (r: Self)
        ensures
            r.alts_memo().len() == n_alts,
            r.prods_memo().len() == n_prods,
            forall|a: int| 0 <= a < n_alts ==> #[trigger] r.alts_memo()[a] == Map::<usize, Result<Match, ParseFailure>>::empty(),
            forall|p: int| 0 <= p < n_prods ==> #[trigger] r.prods_memo()[p] == Map::<usize, Result<Match, ParseFailure>>::empty(),
    {
        let mut alternation_results: Vec<HashMap<usize, Result<Match, ParseFailure>>> = Vec::new();
        let mut k: usize = 0;
        while k < n_alts
            invariant
                k <= n_alts,
                alternation_results@.len() == k,
                forall|a: int| 0 <= a < k ==> (#[trigger] alternation_results@[a])@ == Map::<usize, Result<Match, ParseFailure>>::empty(),
            decreases n_alts - k,
        {
            alternation_results.push(HashMap::new());
            k = k + 1;
        }
        let mut production_results: Vec<HashMap<usize, Result<Match, ParseFailure>>> = Vec::new();
        let mut k: usize = 0;
        while k < n_prods
            invariant
                k <= n_prods,
                production_results@.len() == k,
                forall|p: int| 0 <= p < k ==> (#[trigger] production_results@[p])@ == Map::<usize, Result<Match, ParseFailure>>::empty(),
            decreases n_prods - k,
        {
            production_results.push(HashMap::new());
            k = k + 1;
        }
        ParseState { alternation_results, production_results }
    }

    /// Looks up an alternation, either returning `Some` of a previous result or inserting a new incomplete result
    fn lookup_alternation(&mut self, i: usize, a_ind: Ind<Slot<Alternation>>) -> (r: Option<Result<Match, ParseFailure>>)
        requires
            a_ind@ < old(self).alts_memo().len(),
        ensures
            final(self).prods_memo() == old(self).prods_memo(),
            old(self).alts_memo()[a_ind@ as int].contains_key(i) ==> (r matches Some(res) && outcome(res) == outcome(
                old(self).alts_memo()[a_ind@ as int][i],
            ) && final(self).alts_memo() == old(self).alts_memo()),
            !old(self).alts_memo()[a_ind@ as int].contains_key(i) ==> {
                &&& r is None
                &&& final(self).alts_memo() == old(self).alts_memo().update(
                    a_ind@ as int,
                    old(self).alts_memo()[a_ind@ as int].insert(i, final(self).alts_memo()[a_ind@ as int][i]),
                )
                &&& outcome(final(self).alts_memo()[a_ind@ as int][i]) == Outcome::Incomplete(Set::<usize>::empty())
                &&& final(self).alts_memo()[a_ind@ as int][i] matches Ok(Match::Incomplete(_))
            },
    {
        let a = a_ind.to_usize();
        // look up previously-computed result in memo-table
        let found = match self.alternation_results[a].get(&i) {
            // Clone previous result
            Some(res) => Some(copy_result(res)),
            None => None,
        };
        if found.is_none() {
            // start new empty in-progress state
            self.alternation_results[a].insert(i, Ok(Match::incomplete()));
            proof {
                assert(self.alts_memo() =~= old(self).alts_memo().update(
                    a as int,
                    old(self).alts_memo()[a as int].insert(i, self.alts_memo()[a as int][i]),
                ));
                assert(self.prods_memo() =~= old(self).prods_memo());
            }
        }
        found
    }

    /// Updates an alternation state with a new incomplete match
    fn update_alternation(&mut self, i: usize, a_ind: Ind<Slot<Alternation>>, partial: &Bits)
        requires
            a_ind@ < old(self).alts_memo().len(),
        ensures
            final(self).prods_memo() == old(self).prods_memo(),
            final(self).alts_memo() == old(self).alts_memo().update(
                a_ind@ as int,
                old(self).alts_memo()[a_ind@ as int].insert(i, final(self).alts_memo()[a_ind@ as int][i]),
            ),
            final(self).alts_memo()[a_ind@ as int][i] matches Ok(Match::Incomplete(_)),
            outcome(final(self).alts_memo()[a_ind@ as int][i]) == Outcome::Incomplete(bits_of(*partial)),
    {
        let a = a_ind.to_usize();
        self.alternation_results[a].insert(i, Ok(Match::Incomplete(bitset_clone(partial))));
        proof {
            assert(self.alts_memo() =~= old(self).alts_memo().update(
                a as int,
                old(self).alts_memo()[a as int].insert(i, self.alts_memo()[a as int][i]),
            ));
            assert(self.prods_memo() =~= old(self).prods_memo());
        }
    }

    /// Finalizes an alternation state, returning the state
    fn finish_alternation(
        &mut self,
        i: usize,
        a_ind: Ind<Slot<Alternation>>,
        res: Result<Match, ParseFailure>,
    ) -> (r: Result<Match, ParseFailure>)
        requires
            a_ind@ < old(self).alts_memo().len(),
        ensures
            final(self).prods_memo() == old(self).prods_memo(),
            final(self).alts_memo() == old(self).alts_memo().update(
                a_ind@ as int,
                old(self).alts_memo()[a_ind@ as int].insert(i, res),
            ),
            outcome(r) == outcome(res),
    {
        let a = a_ind.to_usize();
        let r = copy_result(&res);
        self.alternation_results[a].insert(i, res);
        proof {
            assert(self.alts_memo() =~= old(self).alts_memo().update(
                a as int,
                old(self).alts_memo()[a as int].insert(i, res),
            ));
            assert(self.prods_memo() =~= old(self).prods_memo());
        }
        r
    }

    /// Looks up a production, returning `Some` of a state if present
    fn lookup_production(&self, i: usize, p_ind: Ind<Production>) -> (r: Option<Result<Match, ParseFailure>>)
        requires
            p_ind@ < self.prods_memo().len(),
        ensures
            self.prods_memo()[p_ind@ as int].contains_key(i) ==> (r matches Some(res) && outcome(res) == outcome(
                self.prods_memo()[p_ind@ as int][i],
            )),
            !self.prods_memo()[p_ind@ as int].contains_key(i) ==> r is None,
    {
        match self.production_results[p_ind.to_usize()].get(&i) {
            Some(res) => Some(copy_result(res)),
            None => None,
        }
    }

    /// Inserts a production state, returning the state
    fn insert_production(
        &mut self,
        i: usize,
        p_ind: Ind<Production>,
        res: Result<Match, ParseFailure>,
    ) -> (r: Result<Match, ParseFailure>)
        requires
            p_ind@ < old(self).prods_memo().len(),
        ensures
            final(self).alts_memo() == old(self).alts_memo(),
            final(self).prods_memo() == old(self).prods_memo().update(
                p_ind@ as int,
                old(self).prods_memo()[p_ind@ as int].insert(i, res),
            ),
            outcome(r) == outcome(res),
    {
        let p = p_ind.to_usize();
        let r = copy_result(&res);
        self.production_results[p].insert(i, res);
        proof {
            assert(self.prods_memo() =~= old(self).prods_memo().update(
                p as int,
                old(self).prods_memo()[p as int].insert(i, res),
            ));
            assert(self.alts_memo() =~= old(self).alts_memo());
        }
        r
    }

    /// Growing is transitive, and so is settling along growth.
    proof fn lemma_grows_trans(&self, mid: &Self, new: &Self)
        requires
            self.grows_to(mid),
            mid.grows_to(new),
        ensures
            self.grows_to(new),
            mid.settled_since(self) && new.settled_since(mid) ==> new.settled_since(self),
    {
        assert forall|a: int| 0 <= a < self.alts_memo().len() implies #[trigger] self.alts_memo()[a].submap_of(
            new.alts_memo()[a],
        ) by {
            assert(self.alts_memo()[a].submap_of(mid.alts_memo()[a]));
            assert(mid.alts_memo()[a].submap_of(new.alts_memo()[a]));
            assert forall|k: usize| #[trigger] self.alts_memo()[a].dom().contains(k) implies new.alts_memo()[a].dom().contains(k)
                && self.alts_memo()[a][k] == new.alts_memo()[a][k] by {
                assert(mid.alts_memo()[a].dom().contains(k));
            }
        }
        assert forall|p: int| 0 <= p < self.prods_memo().len() implies #[trigger] self.prods_memo()[p].submap_of(
            new.prods_memo()[p],
        ) by {
            assert(self.prods_memo()[p].submap_of(mid.prods_memo()[p]));
            assert(mid.prods_memo()[p].submap_of(new.prods_memo()[p]));
            assert forall|k: usize| #[trigger] self.prods_memo()[p].dom().contains(k) implies new.prods_memo()[p].dom().contains(k)
                && self.prods_memo()[p][k] == new.prods_memo()[p][k] by {
                assert(mid.prods_memo()[p].dom().contains(k));
            }
        }
        if mid.settled_since(self) && new.settled_since(mid) {
            assert forall|a: int, i: usize|
                0 <= a < new.alts_memo().len() && #[trigger] new.alts_memo()[a].contains_key(i) && !self.alts_memo()[a].contains_key(i)
                    implies !(new.alts_memo()[a][i] matches Ok(Match::Incomplete(_))) by {
                assert(mid.alts_memo()[a].submap_of(new.alts_memo()[a]));
                if mid.alts_memo()[a].contains_key(i) {
                    assert(mid.alts_memo()[a][i] == new.alts_memo()[a][i]);
                }
            }
        }
    }

    /// A result being worked out after growth that settled was already being worked out before.
    proof fn lemma_pending_back(&self, new: &Self)
        requires
            self.grows_to(new),
            new.settled_since(self),
            new.pending(),
        ensures
            self.pending(),
    {
        let (a, i) = choose|a: int, i: usize|
            0 <= a < new.alts_memo().len() && #[trigger] new.alts_memo()[a].contains_key(i)
                && new.alts_memo()[a][i] matches Ok(Match::Incomplete(_));
        assert(self.alts_memo()[a].contains_key(i));
        assert(self.alts_memo()[a].submap_of(new.alts_memo()[a]));
        assert(self.alts_memo()[a][i] == new.alts_memo()[a][i]);
    }

    /// Growing within the input does not raise the budget, and adding an
    /// alternation result lowers it.
    proof fn lemma_budget(&self, new: &Self, g: &Grammar, t: Seq<u8>)
        requires
            self.inv(g, t),
            new.inv(g, t),
            self.grows_to(new),
        ensures
            new.budget(t.len()) <= self.budget(t.len()),
            (exists|a: int, i: usize|
                0 <= a < new.alts_memo().len() && #[trigger] new.alts_memo()[a].contains_key(i)
                    && !self.alts_memo()[a].contains_key(i)) ==> new.budget(t.len()) < self.budget(t.len()),
    {
        let cap = t.len() + 1;
        assert forall|k: int| 0 <= k < self.alts_memo().len() implies #[trigger] self.alts_memo()[k].dom().subset_of(
            new.alts_memo()[k].dom(),
        ) by {
            assert(self.alts_memo()[k].submap_of(new.alts_memo()[k]));
        }
        assert forall|k: int| 0 <= k < new.alts_memo().len() implies #[trigger] new.alts_memo()[k].dom().finite()
            && new.alts_memo()[k].dom().len() <= cap by {
            assert forall|x: usize| #[trigger] new.alts_memo()[k].dom().contains(x) implies x < cap by {
                assert(new.alts_memo()[k].contains_key(x));
            }
            lemma_bounded_set(new.alts_memo()[k].dom(), cap);
        }
        lemma_room(self.alts_memo(), new.alts_memo(), cap);
        if exists|a: int, i: usize|
            0 <= a < new.alts_memo().len() && #[trigger] new.alts_memo()[a].contains_key(i)
                && !self.alts_memo()[a].contains_key(i) {
            let (a, i) = choose|a: int, i: usize|
                0 <= a < new.alts_memo().len() && #[trigger] new.alts_memo()[a].contains_key(i)
                    && !self.alts_memo()[a].contains_key(i);
            assert(self.alts_memo()[a].dom() != new.alts_memo()[a].dom());
        }
    }
}


/// The work on alternation `a` at `start`, begun from `base`: the tables are
/// consistent, hold everything `base` held, and hold the result in progress,
/// with the ends found so far; every other result added since is final; and
/// the budget is below that of `base`.
spec fn alt_work(
    base: &ParseState,
    cur: &ParseState,
    g: &Grammar,
    t: Seq<u8>,
    a: int,
    start: usize,
    ends: Set<usize>,
) -> bool {
    &&& cur.inv(g, t)
    &&& base.grows_to(cur)
    &&& 0 <= a < cur.alts_memo().len()
    &&& !base.alts_memo()[a].contains_key(start)
    &&& cur.alts_memo()[a].contains_key(start)
    &&& cur.alts_memo()[a][start] matches Ok(Match::Incomplete(_))
    &&& outcome(cur.alts_memo()[a][start]) == Outcome::Incomplete(ends)
    &&& forall|b: int, i: usize|
        0 <= b < cur.alts_memo().len() && #[trigger] cur.alts_memo()[b].contains_key(i) && !base.alts_memo()[b].contains_key(i)
            && (b != a || i != start) ==> !(cur.alts_memo()[b][i] matches Ok(Match::Incomplete(_)))
    &&& cur.budget(t.len()) < base.budget(t.len())
}

/// The work on alternation `a` survives a call that grows the tables and settles what it adds.
proof fn lemma_alt_work_step(
    base: &ParseState,
    before: &ParseState,
    after: &ParseState,
    g: &Grammar,
    t: Seq<u8>,
    a: int,
    start: usize,
    ends: Set<usize>,
)
    requires
        alt_work(base, before, g, t, a, start, ends),
        after.inv(g, t),
        before.grows_to(after),
        after.settled_since(before),
    ensures
        alt_work(base, after, g, t, a, start, ends),
{
    base.lemma_grows_trans(before, after);
    before.lemma_budget(after, g, t);
    assert(before.alts_memo()[a].submap_of(after.alts_memo()[a]));
    assert(before.alts_memo()[a].dom().contains(start));
    assert(after.alts_memo()[a].dom().contains(start));
    assert(before.alts_memo()[a][start] == after.alts_memo()[a][start]);
    assert forall|b: int, i: usize|
        0 <= b < after.alts_memo().len() && #[trigger] after.alts_memo()[b].contains_key(i) && !base.alts_memo()[b].contains_key(i)
            && (b != a || i != start) implies !(after.alts_memo()[b][i] matches Ok(Match::Incomplete(_))) by {
        assert(before.alts_memo()[b].submap_of(after.alts_memo()[b]));
        if before.alts_memo()[b].contains_key(i) {
            assert(before.alts_memo()[b][i] == after.alts_memo()[b][i]);
        }
    }
}

/// Setting the result of alternation `a` at `i` to one that it may have
/// keeps the tables consistent.
proof fn lemma_alt_set(cur: &ParseState, new: &ParseState, g: &Grammar, t: Seq<u8>, a: int, i: usize)
    requires
        cur.inv(g, t),
        0 <= a < cur.alts_memo().len(),
        i <= t.len(),
        new.prods_memo() == cur.prods_memo(),
        new.alts_memo() == cur.alts_memo().update(a, cur.alts_memo()[a].insert(i, new.alts_memo()[a][i])),
        alt_out_ok(g, t, a as nat, i as int, outcome(new.alts_memo()[a][i])),
    ensures
        new.inv(g, t),
{
    assert forall|b: int, k: usize|
        0 <= b < new.alts_memo().len() && #[trigger] new.alts_memo()[b].contains_key(k) implies k <= t.len()
        && alt_out_ok(g, t, b as nat, k as int, outcome(new.alts_memo()[b][k])) by {
        if b != a || k != i {
            assert(cur.alts_memo()[b].contains_key(k));
            assert(new.alts_memo()[b][k] == cur.alts_memo()[b][k]);
        }
    }
}

/// Recording a final result of production `p` at `i` keeps the tables
/// consistent, grown from `base` if `base` had none there.
proof fn lemma_prod_set(
    base: &ParseState,
    cur: &ParseState,
    new: &ParseState,
    g: &Grammar,
    t: Seq<u8>,
    p: int,
    i: usize,
)
    requires
        cur.inv(g, t),
        base.grows_to(cur),
        cur.settled_since(base),
        0 <= p < cur.prods_memo().len(),
        i <= t.len(),
        !base.prods_memo()[p].contains_key(i),
        new.alts_memo() == cur.alts_memo(),
        new.prods_memo() == cur.prods_memo().update(p, cur.prods_memo()[p].insert(i, new.prods_memo()[p][i])),
        prod_out_ok(g, t, g.prods()[p], i as int, outcome(new.prods_memo()[p][i])),
        !(new.prods_memo()[p][i] matches Ok(Match::Incomplete(_))),
        !(new.prods_memo()[p][i] matches Ok(Match::Done)),
    ensures
        new.inv(g, t),
        base.grows_to(new),
        new.settled_since(base),
        new.budget(t.len()) == cur.budget(t.len()),
{
    assert forall|q: int, k: usize|
        0 <= q < new.prods_memo().len() && #[trigger] new.prods_memo()[q].contains_key(k) implies k <= t.len()
        && prod_out_ok(g, t, g.prods()[q], k as int, outcome(new.prods_memo()[q][k]))
        && !(new.prods_memo()[q][k] matches Ok(Match::Incomplete(_)))
        && !(new.prods_memo()[q][k] matches Ok(Match::Done)) by {
        if q != p || k != i {
            assert(cur.prods_memo()[q].contains_key(k));
            assert(new.prods_memo()[q][k] == cur.prods_memo()[q][k]);
        }
    }
    assert forall|q: int| 0 <= q < base.prods_memo().len() implies #[trigger] base.prods_memo()[q].submap_of(
        new.prods_memo()[q],
    ) by {
        assert(base.prods_memo()[q].submap_of(cur.prods_memo()[q]));
        assert forall|k: usize| #[trigger] base.prods_memo()[q].dom().contains(k) implies new.prods_memo()[q].dom().contains(k)
            && base.prods_memo()[q][k] == new.prods_memo()[q][k] by {
            assert(cur.prods_memo()[q].dom().contains(k));
        }
    }
    assert forall|a: int| 0 <= a < base.alts_memo().len() implies #[trigger] base.alts_memo()[a].submap_of(
        new.alts_memo()[a],
    ) by {
        assert(base.alts_memo()[a].submap_of(cur.alts_memo()[a]));
    }
}

/// Does alternation `a` of `g` match a prefix of `s` starting at `start`?
/// Returns matching indices on success, furthest error on failure.
#[verifier::spinoff_prover]
#[verifier::rlimit(60)]
fn matches_alt(
    g: &Grammar,
    a_ind: Ind<Slot<Alternation>>,
    s: &[u8],
    state: &mut ParseState,
    start: usize,
    Ghost(rank): Ghost<spec_fn(nat) -> nat>,
) -> (r: Result<Match, ParseFailure>)
    requires
        g.wf(),
        fits(g, s@),
        old(state).inv(g, s@),
        old(state).memo_complete(g, s@, rank),
        a_ind@ < g.alts().len(),
        start <= s@.len(),
        ranked(g, rank) ==> old(state).pending_above(rank, start, a_ind@),
    ensures
        final(state).inv(g, s@),
        final(state).memo_complete(g, s@, rank),
        old(state).grows_to(final(state)),
        final(state).settled_since(old(state)),
        alt_out_ok(g, s@, a_ind@, start as int, outcome(r)),
        !(r matches Ok(Match::Done)) ==> final(state).alts_memo()[a_ind@ as int].contains_key(start) && outcome(
            final(state).alts_memo()[a_ind@ as int][start],
        ) == outcome(r),
        r matches Ok(Match::Incomplete(_)) ==> old(state).pending(),
        old(state).pending_at(a_ind@ as int, start) ==> (r matches Ok(Match::Incomplete(_))) && outcome(r) == outcome(
            old(state).alts_memo()[a_ind@ as int][start],
        ),
        ranked(g, rank) && !old(state).pending_at(a_ind@ as int, start) ==> !(r matches Ok(Match::Incomplete(_)))
            && alt_complete(g, s@, a_ind@, start as int, outcome(r)),
        old(state).alts_memo()[a_ind@ as int].contains_key(start) ==> final(state).alts_memo() == old(state).alts_memo()
            && final(state).prods_memo() == old(state).prods_memo() && outcome(r) == outcome(
            old(state).alts_memo()[a_ind@ as int][start],
        ),
        ranked(g, rank) && !old(state).pending_at(a_ind@ as int, start) ==> alt_fail_ok(
            g,
            s@,
            a_ind@,
            start as int,
            outcome(r),
        ),
        g.alts()[a_ind@ as int] is None && !old(state).pending_at(a_ind@ as int, start) ==> missing_rule(
            a_ind@,
            start as int,
            outcome(r),
        ),
    decreases old(state).budget(s@.len()), 0nat,
{
    let ghost t = s@;
    let ghost a = a_ind@ as int;
    // short-circuit from memo-table
    if let Some(result) = state.lookup_alternation(start, a_ind) {
        proof {
            assert(old(state).alts_memo()[a].contains_key(start));
        }
        return result;
    }
    proof {
        assert(old(state).alts_memo()[a].submap_of(state.alts_memo()[a]));
        lemma_alt_set(old(state), state, g, t, a, start);
        lemma_memo_alt_set(old(state), state, g, t, rank, a, start);
        assert forall|b: int| 0 <= b < old(state).alts_memo().len() implies #[trigger] old(state).alts_memo()[b].submap_of(
            state.alts_memo()[b],
        ) by {
            if b == a {
                assert forall|k: usize| #[trigger] old(state).alts_memo()[b].dom().contains(k) implies state.alts_memo()[b].dom().contains(k)
                    && old(state).alts_memo()[b][k] == state.alts_memo()[b][k] by {
                }
            }
        }
        assert(state.alts_memo()[a].contains_key(start) && !old(state).alts_memo()[a].contains_key(start));
        old(state).lemma_budget(state, g, t);
        assert(state.inv(g, t));
        assert(old(state).grows_to(state));
        assert(outcome(state.alts_memo()[a][start]) == Outcome::Incomplete(Set::<usize>::empty()));
        assert(state.budget(t.len()) < old(state).budget(t.len()));
        assert forall|b: int, i: usize|
            0 <= b < state.alts_memo().len() && #[trigger] state.alts_memo()[b].contains_key(i)
                && !old(state).alts_memo()[b].contains_key(i) && (b != a || i != start) implies !(
            state.alts_memo()[b][i] matches Ok(Match::Incomplete(_))) by {}
        assert(alt_work(old(state), state, g, t, a, start, Set::empty()));
    }

    // look up alternation in grammar
    let alt = match g.alternation(a_ind) {
        Some(alt) => alt,
        None => {
            // fail with a grammar error if alternation does not exist
            let no_such_rule = Err(ParseFailure::at(start, Error::MissingRule { ind: a_ind }));
            let ghost before = *state;
            let r = state.finish_alternation(start, a_ind, no_such_rule);
            proof {
                lemma_alt_finish(old(state), &before, state, g, t, a, start, Set::empty());
                assert forall|j: int| #[trigger] alt_matches(g, t, a as nat, start as int, j) implies false by {
                    lemma_alt_split(g, t, a as nat, start as int, j);
                }
                lemma_alt_fails_here(g, t, a as nat, start as int);
                assert forall|q: int| #[trigger] alt_fails(g, t, a as nat, start as int, q) implies q <= start by {
                    if q != start {
                        lemma_alt_fails_split(g, t, a as nat, start as int, q);
                    }
                }
                lemma_memo_alt_set(&before, state, g, t, rank, a, start);
            }
            return r;
        },
    };

    // matches for this alternation at this start position
    let mut all_matches = bitset_new();
    // matches found in the current loop iteration
    let mut new_matches = bitset_new();
    // errors at furthest position
    let mut latest_errs = ParseFailure::new(start);
    // productions with incomplete results
    let mut incomplete_prods = bitset_clone(alt.production_inds());
    let ghost set = alt@;

    // while we're still finding new matches
    loop
        invariant
            g.wf(),
            fits(g, t),
            t == s@,
            start <= t.len(),
            0 <= a < g.alts().len(),
            a == a_ind@,
            g.alts()[a] == Some(set),
            g.alt_ok(set),
            alt_work(old(state), state, g, t, a, start, bits_of(all_matches)),
            state.memo_complete(g, t, rank),
            alt_ends_ok(g, t, a as nat, start as int, bits_of(all_matches)),
            alt_ends_ok(g, t, a as nat, start as int, bits_of(new_matches)),
            bits_of(incomplete_prods).subset_of(set),
            gathered_ok(g, t, start as int, latest_errs.pos(), latest_errs.errs()),
            ranked(g, rank) ==> old(state).pending_above(rank, start, a as nat),
            ranked(g, rank) ==> forall|p: usize, j: int|
                set.contains(p) && !bits_of(incomplete_prods).contains(p) && #[trigger] prod_matches(
                    g,
                    t,
                    g.prods()[p as int],
                    start as int,
                    j,
                ) ==> bits_of(all_matches).contains(j as usize),
            ranked(g, rank) && bits_of(all_matches) == Set::<usize>::empty() ==> bits_of(new_matches) == Set::<
                usize,
            >::empty() && bits_of(incomplete_prods) == set && latest_errs.pos() == start,
        decreases t.len() + 1 - bits_of(all_matches).len(),
    {
        // productions completed this iteration
        let mut completed_prods = bitset_new();
        let prods_now = bitset_elements(&incomplete_prods);
        let ghost kw = known_with(g, t, a as nat, start as int, bits_of(all_matches));
        let mut k: usize = 0;
        // loop through alternatives
        while k < prods_now.len()
            invariant
                g.wf(),
                fits(g, t),
                t == s@,
                start <= t.len(),
                0 <= a < g.alts().len(),
                a == a_ind@,
                g.alts()[a] == Some(set),
                g.alt_ok(set),
                alt_work(old(state), state, g, t, a, start, bits_of(all_matches)),
                state.memo_complete(g, t, rank),
                alt_ends_ok(g, t, a as nat, start as int, bits_of(all_matches)),
                alt_ends_ok(g, t, a as nat, start as int, bits_of(new_matches)),
                bits_of(incomplete_prods).subset_of(set),
                prods_now@.to_set() == bits_of(incomplete_prods),
                k <= prods_now@.len(),
                kw == known_with(g, t, a as nat, start as int, bits_of(all_matches)),
                gathered_ok(g, t, start as int, latest_errs.pos(), latest_errs.errs()),
                ranked(g, rank) ==> old(state).pending_above(rank, start, a as nat),
                ranked(g, rank) ==> forall|p: usize, j: int|
                    set.contains(p) && !bits_of(incomplete_prods).contains(p) && #[trigger] prod_matches(
                        g,
                        t,
                        g.prods()[p as int],
                        start as int,
                        j,
                    ) ==> bits_of(all_matches).contains(j as usize),
                ranked(g, rank) ==> forall|p: usize, j: int|
                    bits_of(completed_prods).contains(p) && #[trigger] prod_matches(
                        g,
                        t,
                        g.prods()[p as int],
                        start as int,
                        j,
                    ) ==> bits_of(new_matches).contains(j as usize),
                ranked(g, rank) ==> forall|w: int, j: int|
                    0 <= w < k && #[trigger] prod_in(g, t, kw, g.prods()[prods_now@[w] as int], start as int, j)
                        ==> bits_of(new_matches).contains(j as usize),
                ranked(g, rank) && bits_of(all_matches) == Set::<usize>::empty() ==> bits_of(incomplete_prods) == set,
                ranked(g, rank) && bits_of(all_matches) == Set::<usize>::empty() ==> (latest_errs.pos() == start
                    || exists|p: usize|
                    set.contains(p) && p < g.prods().len() && !stuck(g, t, a as nat, g.prods()[p as int], start as int)
                        && #[trigger] prod_fails(g, t, g.prods()[p as int], start as int, latest_errs.pos() as int)),
                ranked(g, rank) && bits_of(all_matches) == Set::<usize>::empty() && bits_of(new_matches) == Set::<
                    usize,
                >::empty() ==> forall|w: int, q: int|
                    0 <= w < k && !stuck(g, t, a as nat, g.prods()[prods_now@[w] as int], start as int) && #[trigger] prod_fails(
                        g,
                        t,
                        g.prods()[prods_now@[w] as int],
                        start as int,
                        q,
                    ) ==> q <= latest_errs.pos(),
            decreases prods_now@.len() - k,
        {
            let p = prods_now[k];
            proof {
                assert(prods_now@.to_set().contains(prods_now@[k as int]));
                assert(set.contains(p));
                if ranked(g, rank) {
                    lemma_prod_guard(old(state), state, g, t, rank, a, start, bits_of(all_matches), p);
                }
            }
            let p_ind = Ind::of(p);
            let ghost before = *state;
            let ghost new_before = bits_of(new_matches);
            let ghost completed_before = bits_of(completed_prods);
            let res = matches_prod(g, p_ind, s, state, start, Ghost(rank));
            let ghost o = outcome(res);
            let ghost inc = res matches Ok(Match::Incomplete(_));
            let ghost lat_before = latest_errs.pos();
            proof {
                lemma_alt_work_step(old(state), &before, state, g, t, a, start, bits_of(all_matches));
                if ranked(g, rank) && bits_of(all_matches) == Set::<usize>::empty() {
                    lemma_alt_prod_fail_step(old(state), &before, state, g, t, rank, a, start, set, p, o);
                }
            }
            match res {
                Ok(Match::Done) => {
                    // short-circuit on completed match
                    proof {
                        let w = choose|w: int|
                            0 <= w < g.prods()[p as int].len() && #[trigger] g.prods()[p as int][w] == AtomV::End
                                && prod_matches(g, t, g.prods()[p as int].subrange(0, w), start as int, t.len() as int);
                        assert(end_free(g.prods()[p as int]));
                        assert(g.prods()[p as int][w] != AtomV::End);
                    }
                    return Ok(Match::Done);
                },
                Ok(Match::Prefix(inds)) => {
                    // add success results to output set, mark production complete
                    proof {
                        lemma_alt_ends_of_prod(g, t, a as nat, set, p, start, bits_of(inds));
                    }
                    bitset_union_with(&mut new_matches, &inds);
                    bitset_insert(&mut completed_prods, p);
                },
                Ok(Match::Incomplete(inds)) => {
                    // add success results to output set
                    proof {
                        lemma_alt_ends_of_prod(g, t, a as nat, set, p, start, bits_of(inds));
                    }
                    bitset_union_with(&mut new_matches, &inds);
                },
                Err(errs) => {
                    // track latest errors, mark production complete
                    proof {
                        if errs.pos() == latest_errs.pos() {
                            lemma_append_ok(g, latest_errs.pos(), latest_errs.errs(), errs.pos(), errs.errs());
                        }
                    }
                    latest_errs.append(errs);
                    bitset_insert(&mut completed_prods, p);
                },
            }
            proof {
                if ranked(g, rank) {
                    let body = g.prods()[p as int];
                    assert(captures_below(g, rank, body, a as nat));
                    assert forall|p2: usize, j: int|
                        bits_of(completed_prods).contains(p2) && #[trigger] prod_matches(g, t, g.prods()[p2 as int], start as int, j)
                            implies bits_of(new_matches).contains(j as usize) by {
                        if completed_before.contains(p2) {
                            assert(new_before.contains(j as usize));
                        } else {
                            assert(p2 == p);
                            assert(!inc);
                        }
                    }
                    assert forall|w: int, j: int|
                        0 <= w < k + 1 && #[trigger] prod_in(g, t, kw, g.prods()[prods_now@[w] as int], start as int, j)
                            implies bits_of(new_matches).contains(j as usize) by {
                        if w < k {
                            assert(new_before.contains(j as usize));
                        } else {
                            lemma_known_with_ctx(old(state), &before, g, t, rank, a, start, bits_of(all_matches), body, j);
                            assert(prod_in(g, t, before.ctx(g, t), body, start as int, j));
                        }
                    }
                    if bits_of(all_matches) == Set::<usize>::empty() {
                        if let Outcome::Failed(fpos, _) = o {
                            assert(latest_errs.pos() == lat_before || latest_errs.pos() == fpos);
                            if latest_errs.pos() == fpos && fpos != start {
                                assert(prod_fails(g, t, body, start as int, fpos as int));
                            }
                        }
                        if let Outcome::Prefix(ends) = o {
                            lemma_nonempty_has(ends);
                            assert(bits_of(new_matches).contains(ends.choose()));
                        }
                        if bits_of(new_matches) == Set::<usize>::empty() {
                            assert forall|w: int, q: int|
                                0 <= w < k + 1 && !stuck(g, t, a as nat, g.prods()[prods_now@[w] as int], start as int)
                                    && #[trigger] prod_fails(g, t, g.prods()[prods_now@[w] as int], start as int, q)
                                    implies q <= latest_errs.pos() by {
                                if w < k {
                                    assert(new_before == Set::<usize>::empty());
                                }
                            }
                        }
                    }
                }
            }
            k = k + 1;
        }
        // stop re-trying completed productions and previous matches
        let ghost all_before = bits_of(all_matches);
        let ghost new_full = bits_of(new_matches);
        let ghost incomplete_before = bits_of(incomplete_prods);
        let ghost completed = bits_of(completed_prods);
        bitset_difference_with(&mut new_matches, &all_matches);
        bitset_difference_with(&mut incomplete_prods, &completed_prods);

        if bitset_is_empty(&new_matches) || bitset_is_empty(&incomplete_prods) {
            // found all (possibly recursive) matches
            bitset_union_with(&mut all_matches, &new_matches);
            proof {
                if ranked(g, rank) {
                    lemma_alt_exit(
                        g,
                        t,
                        rank,
                        a as nat,
                        start,
                        set,
                        all_before,
                        new_full,
                        incomplete_before,
                        completed,
                        prods_now@,
                    );
                    assert(bits_of(all_matches) == all_before.union(new_full.difference(all_before)));
                    if bits_of(all_matches) == Set::<usize>::empty() {
                        assert(all_before =~= Set::<usize>::empty());
                        assert(new_full =~= Set::<usize>::empty()) by {
                            assert forall|v: usize| !new_full.contains(v) by {
                                if new_full.contains(v) {
                                    assert(bits_of(all_matches).contains(v));
                                }
                            }
                        }
                        assert forall|j: int| !#[trigger] alt_matches(g, t, a as nat, start as int, j) by {
                            if alt_matches(g, t, a as nat, start as int, j) {
                                assert(bits_of(all_matches).contains(j as usize));
                            }
                        }
                        let lp = latest_errs.pos();
                        assert forall|q: int| #[trigger] alt_fails(g, t, a as nat, start as int, q) implies q <= lp by {
                            if q != start {
                                let p = lemma_alt_fails_split(g, t, a as nat, start as int, q);
                                assert(incomplete_before.contains(p));
                                assert(prods_now@.to_set().contains(p));
                                let w = choose|w: int| 0 <= w < prods_now@.len() && prods_now@[w] == p;
                                assert(prod_fails(g, t, g.prods()[prods_now@[w] as int], start as int, q));
                            }
                        }
                        if lp == start {
                            lemma_alt_fails_here(g, t, a as nat, start as int);
                        } else {
                            let p = choose|p: usize|
                                set.contains(p) && p < g.prods().len() && !stuck(g, t, a as nat, g.prods()[p as int], start as int)
                                    && #[trigger] prod_fails(g, t, g.prods()[p as int], start as int, lp as int);
                            lemma_alt_fails_from_prod(g, t, a as nat, p, start as int, lp as int);
                        }
                    }
                }
            }
            let res = if bitset_is_empty(&all_matches) {
                if latest_errs.1.len() == 0 {
                    // no production reported an error: the input does not match here
                    Err(ParseFailure::no_match_at(start))
                } else {
                    Err(latest_errs)
                }
            } else {
                Ok(Match::Prefix(all_matches))
            };
            let ghost before = *state;
            let r = state.finish_alternation(start, a_ind, res);
            proof {
                lemma_alt_finish(old(state), &before, state, g, t, a, start, all_before);
                lemma_memo_alt_set(&before, state, g, t, rank, a, start);
            }
            return r;
        } else {
            // update current set of matches and continue
            bitset_union_with(&mut all_matches, &new_matches);
            let ghost before = *state;
            state.update_alternation(start, a_ind, &all_matches);
            proof {
                lemma_alt_update(old(state), &before, state, g, t, a, start, all_before, bits_of(all_matches));
                lemma_memo_alt_set(&before, state, g, t, rank, a, start);
                lemma_growth_bounded(all_before, bits_of(new_matches), bits_of(all_matches), t.len());
                if ranked(g, rank) {
                    assert forall|p2: usize, j: int|
                        set.contains(p2) && !bits_of(incomplete_prods).contains(p2) && #[trigger] prod_matches(
                            g,
                            t,
                            g.prods()[p2 as int],
                            start as int,
                            j,
                        ) implies bits_of(all_matches).contains(j as usize) by {
                        if incomplete_before.contains(p2) {
                            assert(completed.contains(p2));
                            assert(new_full.contains(j as usize));
                        } else {
                            assert(all_before.contains(j as usize));
                        }
                    }
                }
            }
        }
    }
}

/// A production of alternation `a`, worked out at `start` in the first pass,
/// that fails is not stuck on `a`, and fails at the furthest point it
/// reaches; one still in progress is stuck on `a`.
proof fn lemma_alt_prod_fail_step(
    base: &ParseState,
    before: &ParseState,
    after: &ParseState,
    g: &Grammar,
    t: Seq<u8>,
    rank: spec_fn(nat) -> nat,
    a: int,
    start: usize,
    set: Set<usize>,
    p: usize,
    o: Outcome,
)
    requires
        g.wf(),
        start <= t.len(),
        0 <= a < g.alts().len(),
        g.alts()[a] == Some(set),
        set.contains(p),
        p < g.prods().len(),
        ranked(g, rank),
        base.pending_above(rank, start, a as nat),
        alt_work(base, before, g, t, a, start, Set::<usize>::empty()),
        alt_work(base, after, g, t, a, start, Set::<usize>::empty()),
        prod_fail_ok(g, t, g.prods()[p as int], start as int, o),
        o is Failed ==> after.captures_settled(g, t, g.prods()[p as int], start),
        o is Incomplete ==> exists|x: int, c: nat|
            #![trigger prod_matches(g, t, g.prods()[p as int].subrange(0, x), start as int, start as int), before.pending_at(c as int, start)]
            0 <= x < g.prods()[p as int].len() && g.prods()[p as int][x] == AtomV::Capture(c) && before.pending_at(c as int, start)
                && prod_matches(g, t, g.prods()[p as int].subrange(0, x), start as int, start as int),
    ensures
        o is Failed ==> !stuck(g, t, a as nat, g.prods()[p as int], start as int),
        o is Incomplete ==> stuck(g, t, a as nat, g.prods()[p as int], start as int),
{
    let body = g.prods()[p as int];
    if o is Failed {
        if stuck(g, t, a as nat, body, start as int) {
            let x = choose|x: int|
                0 <= x < body.len() && body[x] == AtomV::Capture(a as nat) && #[trigger] prod_matches(
                    g,
                    t,
                    body.subrange(0, x),
                    start as int,
                    start as int,
                );
            assert(after.settled_at(a, start));
        }
    }
    if o is Incomplete {
        let (x, c) = choose|x: int, c: nat|
            #![trigger prod_matches(g, t, body.subrange(0, x), start as int, start as int), before.pending_at(c as int, start)]
            0 <= x < body.len() && body[x] == AtomV::Capture(c) && before.pending_at(c as int, start) && prod_matches(
                g,
                t,
                body.subrange(0, x),
                start as int,
                start as int,
            );
        lemma_alt_work_pending(base, before, g, t, a, start, Set::<usize>::empty());
        lemma_prod_ordered(g, t, body.subrange(0, x), start as int, start as int);
        assert forall|y: int| 0 <= y < x implies !consumes(g, #[trigger] body[y]) by {
            assert(body.subrange(0, x)[y] == body[y]);
        }
        assert(captures_below(g, rank, body, a as nat));
        assert(unconsumed(g, body, x));
        if c != a {
            assert(base.pending_at(c as int, start));
            assert(match body[x] {
                AtomV::Capture(c2) => c2 == a as nat || rank(c2) < rank(a as nat),
                _ => true,
            });
        }
        assert(prod_matches(g, t, body.subrange(0, x), start as int, start as int));
    }
}

/// When the work on alternation `a` at `start` stops, because a pass found
/// no new end or left no production in progress, the ends found hold every
/// end to which the alternation matches.
proof fn lemma_alt_exit(
    g: &Grammar,
    t: Seq<u8>,
    rank: spec_fn(nat) -> nat,
    a: nat,
    start: usize,
    set: Set<usize>,
    all: Set<usize>,
    found: Set<usize>,
    tried: Set<usize>,
    completed: Set<usize>,
    prods_now: Seq<usize>,
)
    requires
        g.wf(),
        start <= t.len(),
        t.len() < usize::MAX,
        a < g.alts().len(),
        g.alts()[a as int] == Some(set),
        g.alt_ok(set),
        tried.subset_of(set),
        prods_now.to_set() == tried,
        alt_ends_ok(g, t, a, start as int, all),
        found.difference(all) == Set::<usize>::empty() || tried.difference(completed) == Set::<usize>::empty(),
        forall|p: usize, j: int|
            set.contains(p) && !tried.contains(p) && #[trigger] prod_matches(g, t, g.prods()[p as int], start as int, j)
                ==> all.contains(j as usize),
        forall|p: usize, j: int|
            completed.contains(p) && #[trigger] prod_matches(g, t, g.prods()[p as int], start as int, j)
                ==> found.contains(j as usize),
        forall|w: int, j: int|
            0 <= w < prods_now.len() && #[trigger] prod_in(
                g,
                t,
                known_with(g, t, a, start as int, all),
                g.prods()[prods_now[w] as int],
                start as int,
                j,
            ) ==> found.contains(j as usize),
    ensures
        forall|j: int| #[trigger] alt_matches(g, t, a, start as int, j) ==> all.union(found.difference(all)).contains(
            j as usize,
        ),
{
    let kw = known_with(g, t, a, start as int, all);
    assert forall|j: int| #[trigger] alt_matches(g, t, a, start as int, j) implies all.union(found.difference(all)).contains(
        j as usize,
    ) by {
        if tried.difference(completed) == Set::<usize>::empty() {
            let p = lemma_alt_split(g, t, a, start as int, j);
            if tried.contains(p) {
                assert(!tried.difference(completed).contains(p));
                assert(found.contains(j as usize));
            } else {
                assert(all.contains(j as usize));
            }
        } else {
            assert forall|x: usize| found.contains(x) implies all.contains(x) by {
                assert(!found.difference(all).contains(x));
            }
            lemma_known_with_sound(g, t, a, start as int, all);
            assert forall|p: usize, k: int|
                g.alts()[a as int] is Some && g.alts()[a as int]->0.contains(p) && p < g.prods().len() && #[trigger] prod_in(
                    g,
                    t,
                    kw,
                    g.prods()[p as int],
                    start as int,
                    k,
                ) implies 0 <= k && all.contains(k as usize) by {
                lemma_prod_in_sound(g, t, kw, g.prods()[p as int], start as int, k);
                lemma_prod_ordered(g, t, g.prods()[p as int], start as int, k);
                if tried.contains(p) {
                    assert(prods_now.to_set().contains(p));
                    let w = choose|w: int| 0 <= w < prods_now.len() && prods_now[w] == p;
                    assert(prod_in(g, t, kw, g.prods()[prods_now[w] as int], start as int, k));
                    assert(found.contains(k as usize));
                } else {
                    assert(all.contains(k as usize));
                }
            }
            lemma_least_ends(g, t, a, start as int, all, j);
        }
    }
}

/// Every end that production `p` of alternation `a` reaches, the alternation reaches.
proof fn lemma_alt_ends_of_prod(
    g: &Grammar,
    t: Seq<u8>,
    a: nat,
    set: Set<usize>,
    p: usize,
    start: usize,
    ends: Set<usize>,
)
    requires
        a < g.alts().len(),
        g.alts()[a as int] == Some(set),
        set.contains(p),
        p < g.prods().len(),
        prod_ends_ok(g, t, g.prods()[p as int], start as int, ends),
    ensures
        alt_ends_ok(g, t, a, start as int, ends),
{
    assert forall|j: usize| #[trigger] ends.contains(j) implies j <= t.len() && alt_matches(g, t, a, start as int, j as int) by {
        lemma_alt_of_prod(g, t, a, p, start as int, j as int);
    }
}

/// Adding new ends, none held before, to the ends within the input makes more of them.
proof fn lemma_growth_bounded(before: Set<usize>, fresh: Set<usize>, after: Set<usize>, n: nat)
    requires
        after == before.union(fresh),
        fresh.disjoint(before),
        fresh != Set::<usize>::empty(),
        forall|j: usize| #[trigger] after.contains(j) ==> j <= n,
    ensures
        before.len() < after.len() <= n + 1,
{
    lemma_bounded_set(after, n + 1);
    assert(before.subset_of(after));
    lemma_nonempty_has(fresh);
    let x = fresh.choose();
    assert(fresh.contains(x));
    assert(after.contains(x) && !before.contains(x));
    lemma_proper_subset_len(before, after);
}

/// Finishing the work on alternation `a` with a result it may have leaves
/// the tables consistent, grown and settled.
proof fn lemma_alt_finish(
    base: &ParseState,
    cur: &ParseState,
    new: &ParseState,
    g: &Grammar,
    t: Seq<u8>,
    a: int,
    start: usize,
    ends: Set<usize>,
)
    requires
        alt_work(base, cur, g, t, a, start, ends),
        start <= t.len(),
        new.prods_memo() == cur.prods_memo(),
        new.alts_memo() == cur.alts_memo().update(a, cur.alts_memo()[a].insert(start, new.alts_memo()[a][start])),
        alt_out_ok(g, t, a as nat, start as int, outcome(new.alts_memo()[a][start])),
        !(new.alts_memo()[a][start] matches Ok(Match::Incomplete(_))),
    ensures
        new.inv(g, t),
        base.grows_to(new),
        new.settled_since(base),
{
    lemma_alt_set(cur, new, g, t, a, start);
    assert forall|b: int| 0 <= b < base.alts_memo().len() implies #[trigger] base.alts_memo()[b].submap_of(
        new.alts_memo()[b],
    ) by {
        assert(base.alts_memo()[b].submap_of(cur.alts_memo()[b]));
        assert forall|k: usize| #[trigger] base.alts_memo()[b].dom().contains(k) implies new.alts_memo()[b].dom().contains(k)
            && base.alts_memo()[b][k] == new.alts_memo()[b][k] by {
            assert(cur.alts_memo()[b].dom().contains(k));
        }
    }
    assert forall|p: int| 0 <= p < base.prods_memo().len() implies #[trigger] base.prods_memo()[p].submap_of(
        new.prods_memo()[p],
    ) by {
        assert(base.prods_memo()[p].submap_of(cur.prods_memo()[p]));
    }
    assert forall|b: int, i: usize|
        0 <= b < new.alts_memo().len() && #[trigger] new.alts_memo()[b].contains_key(i) && !base.alts_memo()[b].contains_key(i)
            implies !(new.alts_memo()[b][i] matches Ok(Match::Incomplete(_))) by {
        if b != a || i != start {
            assert(cur.alts_memo()[b].contains_key(i));
            assert(new.alts_memo()[b][i] == cur.alts_memo()[b][i]);
        }
    }
}

/// Recording more ends for alternation `a` keeps the work on it going.
proof fn lemma_alt_update(
    base: &ParseState,
    cur: &ParseState,
    new: &ParseState,
    g: &Grammar,
    t: Seq<u8>,
    a: int,
    start: usize,
    ends: Set<usize>,
    more: Set<usize>,
)
    requires
        alt_work(base, cur, g, t, a, start, ends),
        start <= t.len(),
        new.prods_memo() == cur.prods_memo(),
        new.alts_memo() == cur.alts_memo().update(a, cur.alts_memo()[a].insert(start, new.alts_memo()[a][start])),
        new.alts_memo()[a][start] matches Ok(Match::Incomplete(_)),
        outcome(new.alts_memo()[a][start]) == Outcome::Incomplete(more),
        alt_ends_ok(g, t, a as nat, start as int, more),
        g.alts()[a] is Some,
    ensures
        alt_work(base, new, g, t, a, start, more),
{
    lemma_alt_set(cur, new, g, t, a, start);
    assert forall|b: int| 0 <= b < base.alts_memo().len() implies #[trigger] base.alts_memo()[b].submap_of(
        new.alts_memo()[b],
    ) by {
        assert(base.alts_memo()[b].submap_of(cur.alts_memo()[b]));
        assert forall|k: usize| #[trigger] base.alts_memo()[b].dom().contains(k) implies new.alts_memo()[b].dom().contains(k)
            && base.alts_memo()[b][k] == new.alts_memo()[b][k] by {
            assert(cur.alts_memo()[b].dom().contains(k));
        }
    }
    assert forall|p: int| 0 <= p < base.prods_memo().len() implies #[trigger] base.prods_memo()[p].submap_of(
        new.prods_memo()[p],
    ) by {
        assert(base.prods_memo()[p].submap_of(cur.prods_memo()[p]));
    }
    assert forall|b: int, i: usize|
        0 <= b < new.alts_memo().len() && #[trigger] new.alts_memo()[b].contains_key(i) && !base.alts_memo()[b].contains_key(i)
            && (b != a || i != start) implies !(new.alts_memo()[b][i] matches Ok(Match::Incomplete(_))) by {
        assert(cur.alts_memo()[b].contains_key(i));
        assert(new.alts_memo()[b][i] == cur.alts_memo()[b][i]);
    }
    assert(new.alts_memo()[a].dom() =~= cur.alts_memo()[a].dom());
    assert(new.alts_memo() =~= cur.alts_memo().update(a, new.alts_memo()[a]));
    cur.lemma_same_budget(new, t.len());
}

impl ParseState {
    /// Tables with the same keys have the same budget.
    proof fn lemma_same_budget(&self, new: &Self, n: nat)
        requires
            new.alts_memo().len() == self.alts_memo().len(),
            forall|a: int| 0 <= a < self.alts_memo().len() ==> #[trigger] new.alts_memo()[a].dom() == self.alts_memo()[a].dom(),
        ensures
            new.budget(n) == self.budget(n),
    {
        lemma_room_same(self.alts_memo(), new.alts_memo(), n + 1);
    }
}

/// Tables with the same keys have the same room.
proof fn lemma_room_same(x: Memo, y: Memo, cap: nat)
    requires
        x.len() == y.len(),
        forall|a: int| 0 <= a < x.len() ==> #[trigger] y[a].dom() == x[a].dom(),
    ensures
        room(x, cap) == room(y, cap),
    decreases x.len(),
{
    if x.len() > 0 {
        assert forall|a: int| 0 <= a < x.drop_last().len() implies #[trigger] y.drop_last()[a].dom() == x.drop_last()[a].dom() by {
            assert(y[a].dom() == x[a].dom());
        }
        lemma_room_same(x.drop_last(), y.drop_last(), cap);
        assert(y[x.len() - 1].dom() == x[x.len() - 1].dom());
    }
}


/// Does production `p` of `g` match a prefix of `s` starting at `start`?
/// Returns matching indices on success, furthest error on failure.
fn matches_prod(
    g: &Grammar,
    p_ind: Ind<Production>,
    s: &[u8],
    state: &mut ParseState,
    start: usize,
    Ghost(rank): Ghost<spec_fn(nat) -> nat>,
) -> (r: Result<Match, ParseFailure>)
    requires
        g.wf(),
        fits(g, s@),
        old(state).inv(g, s@),
        old(state).memo_complete(g, s@, rank),
        p_ind@ < g.prods().len(),
        start <= s@.len(),
        ranked(g, rank) ==> old(state).pending_above_prod(g, rank, start, g.prods()[p_ind@ as int]),
    ensures
        final(state).inv(g, s@),
        final(state).memo_complete(g, s@, rank),
        old(state).grows_to(final(state)),
        final(state).settled_since(old(state)),
        prod_out_ok(g, s@, g.prods()[p_ind@ as int], start as int, outcome(r)),
        !(r matches Ok(Match::Done)) && !(r matches Ok(Match::Incomplete(_))) ==> final(state).prods_memo()[p_ind@ as int].contains_key(start)
            && outcome(final(state).prods_memo()[p_ind@ as int][start]) == outcome(r),
        r matches Ok(Match::Incomplete(_)) ==> old(state).pending(),
        old(state).prods_memo()[p_ind@ as int].contains_key(start) ==> final(state).alts_memo() == old(state).alts_memo()
            && final(state).prods_memo() == old(state).prods_memo() && outcome(r) == outcome(
            old(state).prods_memo()[p_ind@ as int][start],
        ),
        ranked(g, rank) ==> prod_complete_in(
            g,
            s@,
            old(state).ctx(g, s@),
            g.prods()[p_ind@ as int],
            start as int,
            outcome(r),
        ),
        ranked(g, rank) && !(r matches Ok(Match::Incomplete(_))) ==> prod_complete(
            g,
            s@,
            g.prods()[p_ind@ as int],
            start as int,
            outcome(r),
        ),
        ranked(g, rank) ==> prod_fail_ok(g, s@, g.prods()[p_ind@ as int], start as int, outcome(r)),
        ranked(g, rank) && (r matches Err(_)) ==> final(state).captures_settled(g, s@, g.prods()[p_ind@ as int], start),
        ranked(g, rank) && (r matches Ok(Match::Incomplete(_))) ==> exists|x: int, c: nat|
            #![trigger prod_matches(g, s@, g.prods()[p_ind@ as int].subrange(0, x), start as int, start as int), old(state).pending_at(c as int, start)]
            0 <= x < g.prods()[p_ind@ as int].len() && g.prods()[p_ind@ as int][x] == AtomV::Capture(c)
                && old(state).pending_at(c as int, start) && prod_matches(
                g,
                s@,
                g.prods()[p_ind@ as int].subrange(0, x),
                start as int,
                start as int,
            ),
    decreases old(state).budget(s@.len()), 2nat,
{
    let ghost t = s@;
    let ghost p = p_ind@ as int;
    let ghost body = g.prods()[p];
    let ghost kc = old(state).ctx(g, t);
    proof {
        old(state).lemma_ctx_sound(g, t);
    }
    // short-circuit on production already seen and completed
    // NOTE: production only inserted if complete
    if let Some(result) = state.lookup_production(start, p_ind) {
        proof {
            if ranked(g, rank) {
                assert forall|j: int| #[trigger] prod_in(g, t, kc, body, start as int, j) implies prod_matches(
                    g,
                    t,
                    body,
                    start as int,
                    j,
                ) by {
                    lemma_prod_in_sound(g, t, kc, body, start as int, j);
                }
            }
        }
        return result;
    }

    // production under investigation
    let prod = g.production(p_ind);

    // next valid indices to match
    let mut start_inds = bitset_new();
    bitset_insert(&mut start_inds, start);
    proof {
        lemma_empty_prod(g, t, start as int);
        assert(body.subrange(0, 0) =~= Seq::<AtomV>::empty());
        assert forall|j: int| #[trigger] prod_matches(g, t, body.subrange(0, 0), start as int, j) implies bits_of(
            start_inds,
        ).contains(j as usize) by {
            lemma_empty_prod_only(g, t, start as int, j);
        }
        assert forall|j: int| #[trigger] prod_in(g, t, kc, body.subrange(0, 0), start as int, j) implies bits_of(
            start_inds,
        ).contains(j as usize) by {
            lemma_prod_in_empty(g, t, kc, start as int, j);
        }
    }

    // quick exit on empty production
    if prod.is_empty() {
        let ghost before = *state;
        let r = state.insert_production(start, p_ind, Ok(Match::Prefix(start_inds)));
        proof {
            assert(body =~= Seq::<AtomV>::empty());
            lemma_prod_set(old(state), &before, state, g, t, p, start);
            lemma_memo_prod_set(&before, state, g, t, rank, p, start);
        }
        return r;
    }

    // errors at furthest position
    let mut latest_errs = ParseFailure::new(start);
    // is the match complete?
    let mut is_complete = true;

    // loop through productions
    let n = prod.len();
    let mut x: usize = 0;
    while x < n
        invariant
            g.wf(),
            fits(g, t),
            t == s@,
            start <= t.len(),
            0 <= p < g.prods().len(),
            p == p_ind@,
            body == g.prods()[p],
            prod@ == body,
            n == body.len(),
            x <= n,
            !old(state).prods_memo()[p].contains_key(start),
            state.inv(g, t),
            state.memo_complete(g, t, rank),
            old(state).grows_to(state),
            state.settled_since(old(state)),
            state.budget(t.len()) <= old(state).budget(t.len()),
            kc == old(state).ctx(g, t),
            ordered(t, kc),
            bits_of(start_inds) != Set::<usize>::empty(),
            prod_ends_ok(g, t, body.subrange(0, x as int), start as int, bits_of(start_inds)),
            !is_complete ==> old(state).pending(),
            gathered_ok(g, t, start as int, latest_errs.pos(), latest_errs.errs()),
            ranked(g, rank) ==> old(state).pending_above_prod(g, rank, start, body),
            ranked(g, rank) && is_complete ==> forall|j: int|
                #[trigger] prod_matches(g, t, body.subrange(0, x as int), start as int, j) ==> bits_of(start_inds).contains(
                    j as usize,
                ),
            ranked(g, rank) ==> forall|j: int|
                #[trigger] prod_in(g, t, kc, body.subrange(0, x as int), start as int, j) ==> bits_of(start_inds).contains(
                    j as usize,
                ),
            ranked(g, rank) && is_complete ==> forall|x2: int, k: int, q: int|
                0 <= x2 < x && #[trigger] prod_matches(g, t, body.subrange(0, x2), start as int, k) && #[trigger] atom_fails(
                    g,
                    t,
                    body[x2],
                    k,
                    q,
                ) ==> q <= latest_errs.pos(),
            ranked(g, rank) ==> latest_errs.pos() == start || prod_fails(g, t, body, start as int, latest_errs.pos() as int),
            ranked(g, rank) && is_complete ==> forall|x2: int|
                0 <= x2 < x && #[trigger] prod_matches(g, t, body.subrange(0, x2), start as int, start as int) ==> match body[x2] {
                    AtomV::Capture(c) => state.settled_at(c as int, start),
                    _ => true,
                },
            ranked(g, rank) && !is_complete ==> exists|x2: int, c: nat|
                #![trigger prod_matches(g, t, body.subrange(0, x2), start as int, start as int), old(state).pending_at(c as int, start)]
                0 <= x2 < body.len() && body[x2] == AtomV::Capture(c) && old(state).pending_at(c as int, start)
                    && prod_matches(g, t, body.subrange(0, x2), start as int, start as int),
        decreases n - x,
    {
        let atom = prod.atom(x);
        proof {
            assert(g.atom_ok(g.prods()[p][x as int]));
            assert(body.subrange(0, x as int).push(body[x as int]) =~= body.subrange(0, x as int + 1));
        }
        let mut next_inds = bitset_new();
        let starts = bitset_elements(&start_inds);

        // loop through start indices
        let mut q: usize = 0;
        while q < starts.len()
            invariant
                g.wf(),
                fits(g, t),
                t == s@,
                start <= t.len(),
                0 <= p < g.prods().len(),
                p == p_ind@,
                body == g.prods()[p],
                n == body.len(),
                x < n,
                atom@ == body[x as int],
                g.atom_ok(atom@),
                body.subrange(0, x as int).push(body[x as int]) == body.subrange(0, x as int + 1),
                !old(state).prods_memo()[p].contains_key(start),
                state.inv(g, t),
                state.memo_complete(g, t, rank),
                old(state).grows_to(state),
                state.settled_since(old(state)),
                state.budget(t.len()) <= old(state).budget(t.len()),
                kc == old(state).ctx(g, t),
                ordered(t, kc),
                starts@.to_set() == bits_of(start_inds),
                q <= starts@.len(),
                prod_ends_ok(g, t, body.subrange(0, x as int), start as int, bits_of(start_inds)),
                prod_ends_ok(g, t, body.subrange(0, x as int + 1), start as int, bits_of(next_inds)),
                !is_complete ==> old(state).pending(),
                gathered_ok(g, t, start as int, latest_errs.pos(), latest_errs.errs()),
                ranked(g, rank) ==> old(state).pending_above_prod(g, rank, start, body),
                ranked(g, rank) && is_complete ==> forall|j: int|
                    #[trigger] prod_matches(g, t, body.subrange(0, x as int), start as int, j) ==> bits_of(
                        start_inds,
                    ).contains(j as usize),
                ranked(g, rank) ==> forall|j: int|
                    #[trigger] prod_in(g, t, kc, body.subrange(0, x as int), start as int, j) ==> bits_of(
                        start_inds,
                    ).contains(j as usize),
                ranked(g, rank) && is_complete ==> forall|w: int, j: int|
                    0 <= w < q && #[trigger] atom_matches(g, t, body[x as int], starts@[w] as int, j) ==> bits_of(
                        next_inds,
                    ).contains(j as usize),
                ranked(g, rank) ==> forall|w: int, j: int|
                    0 <= w < q && #[trigger] atom_in(g, t, kc, body[x as int], starts@[w] as int, j) ==> bits_of(
                        next_inds,
                    ).contains(j as usize),
                q > 0 ==> bits_of(next_inds) != Set::<usize>::empty() || !is_complete || latest_errs.errs().len() > 0,
                ranked(g, rank) && is_complete ==> forall|x2: int, k: int, qq: int|
                    0 <= x2 < x && #[trigger] prod_matches(g, t, body.subrange(0, x2), start as int, k) && #[trigger] atom_fails(
                        g,
                        t,
                        body[x2],
                        k,
                        qq,
                    ) ==> qq <= latest_errs.pos(),
                ranked(g, rank) ==> latest_errs.pos() == start || prod_fails(g, t, body, start as int, latest_errs.pos() as int),
                ranked(g, rank) && is_complete ==> forall|x2: int|
                    0 <= x2 < x && #[trigger] prod_matches(g, t, body.subrange(0, x2), start as int, start as int) ==> match body[x2] {
                        AtomV::Capture(c) => state.settled_at(c as int, start),
                        _ => true,
                    },
                ranked(g, rank) && !is_complete ==> exists|x2: int, c: nat|
                    #![trigger prod_matches(g, t, body.subrange(0, x2), start as int, start as int), old(state).pending_at(c as int, start)]
                    0 <= x2 < body.len() && body[x2] == AtomV::Capture(c) && old(state).pending_at(c as int, start)
                        && prod_matches(g, t, body.subrange(0, x2), start as int, start as int),
                ranked(g, rank) && is_complete ==> forall|w: int, qq: int|
                    0 <= w < q && #[trigger] atom_fails(g, t, body[x as int], starts@[w] as int, qq) ==> qq <= latest_errs.pos(),
                ranked(g, rank) && is_complete ==> forall|w: int|
                    0 <= w < q && #[trigger] starts@[w] == start ==> match body[x as int] {
                        AtomV::Capture(c) => state.settled_at(c as int, start),
                        _ => true,
                    },
            decreases starts@.len() - q,
        {
            let i = starts[q];
            proof {
                assert(starts@.to_set().contains(starts@[q as int]));
                assert(bits_of(start_inds).contains(i));
                if ranked(g, rank) {
                    if let AtomV::Capture(c) = atom@ {
                        lemma_atom_guard(old(state), state, g, t, rank, body, x as int, start, i, c);
                    }
                }
            }
            let ghost before = *state;
            let ghost next_before = bits_of(next_inds);
            let ghost complete_before = is_complete;
            let ghost lat_before = latest_errs.pos();
            let res = matches_atom(g, &atom, s, state, i, Ghost(rank));
            let ghost o = outcome(res);
            let ghost inc = res matches Ok(Match::Incomplete(_));
            proof {
                lemma_settled_grows(&before, state);
                lemma_prod_ordered(g, t, body.subrange(0, x as int), start as int, i as int);
                if ranked(g, rank) {
                    lemma_prod_atom_fail_step(old(state), &before, state, g, t, rank, body, x as int, start, i, o);
                }
                old(state).lemma_grows_trans(&before, state);
                before.lemma_budget(state, g, t);
                old(state).lemma_ctx_same(&before, g, t);
            }
            match res {
                Ok(Match::Done) => {
                    // short-circuit on completed match
                    proof {
                        assert(body[x as int] == AtomV::End);
                        assert(prod_matches(g, t, body.subrange(0, x as int), start as int, t.len() as int));
                    }
                    return Ok(Match::Done);
                },
                Ok(Match::Prefix(inds)) => {
                    // add success results to output set
                    proof {
                        lemma_prod_ends_extend(g, t, body, x as int, start, i, bits_of(inds));
                        lemma_nonempty_has(bits_of(inds));
                    }
                    bitset_union_with(&mut next_inds, &inds);
                    proof {
                        assert(bits_of(next_inds).contains(bits_of(inds).choose()));
                    }
                },
                Ok(Match::Incomplete(inds)) => {
                    // add success results to output set, but mark incomplete
                    proof {
                        lemma_prod_ends_extend(g, t, body, x as int, start, i, bits_of(inds));
                        old(state).lemma_pending_back(&before);
                    }
                    is_complete = false;
                    bitset_union_with(&mut next_inds, &inds);
                },
                Err(errs) => {
                    // track latest errors
                    proof {
                        if errs.pos() == latest_errs.pos() {
                            lemma_append_ok(g, latest_errs.pos(), latest_errs.errs(), errs.pos(), errs.errs());
                        }
                    }
                    latest_errs.append(errs);
                },
            }
            proof {
                if ranked(g, rank) {
                    if is_complete {
                        assert(complete_before && !inc);
                        assert forall|w: int, j: int|
                            0 <= w < q + 1 && #[trigger] atom_matches(g, t, body[x as int], starts@[w] as int, j) implies bits_of(
                                next_inds,
                            ).contains(j as usize) by {
                            if w < q {
                                assert(next_before.contains(j as usize));
                            }
                        }
                    }
                    assert forall|w: int, j: int|
                        0 <= w < q + 1 && #[trigger] atom_in(g, t, kc, body[x as int], starts@[w] as int, j) implies bits_of(
                            next_inds,
                        ).contains(j as usize) by {
                        if w < q {
                            assert(next_before.contains(j as usize));
                        }
                    }
                    if is_complete {
                        assert forall|w: int, qq: int|
                            0 <= w < q + 1 && #[trigger] atom_fails(g, t, body[x as int], starts@[w] as int, qq) implies qq
                            <= latest_errs.pos() by {
                            if w == q {
                                if let Outcome::Failed(fpos, _) = o {
                                    assert(qq <= fpos);
                                }
                            }
                        }
                        assert forall|w: int|
                            0 <= w < q + 1 && #[trigger] starts@[w] == start implies match body[x as int] {
                            AtomV::Capture(c) => state.settled_at(c as int, start),
                            _ => true,
                        } by {
                            if w < q {
                                if let AtomV::Capture(c) = body[x as int] {
                                    assert(before.settled_at(c as int, start));
                                }
                            }
                        }
                        assert forall|x2: int|
                            0 <= x2 < x && #[trigger] prod_matches(g, t, body.subrange(0, x2), start as int, start as int)
                            implies match body[x2] {
                            AtomV::Capture(c) => state.settled_at(c as int, start),
                            _ => true,
                        } by {
                            if let AtomV::Capture(c) = body[x2] {
                                assert(before.settled_at(c as int, start));
                            }
                        }
                    }
                    if let Outcome::Failed(fpos, _) = o {
                        assert(latest_errs.pos() == lat_before || latest_errs.pos() == fpos);
                    }
                }
            }
            q = q + 1;
        }
        proof {
            if ranked(g, rank) {
                lemma_prod_step_in(g, t, kc, body, x as int, start, bits_of(start_inds), starts@, bits_of(next_inds));
                if is_complete {
                    lemma_prod_step_complete(g, t, body, x as int, start, bits_of(start_inds), starts@, bits_of(next_inds));
                    assert forall|x2: int, k: int, qq: int|
                        0 <= x2 < x + 1 && #[trigger] prod_matches(g, t, body.subrange(0, x2), start as int, k)
                            && #[trigger] atom_fails(g, t, body[x2], k, qq) implies qq <= latest_errs.pos() by {
                        if x2 == x {
                            assert(bits_of(start_inds).contains(k as usize));
                            lemma_prod_ordered(g, t, body.subrange(0, x2), start as int, k);
                            assert(starts@.to_set().contains(k as usize));
                            let w = choose|w: int| 0 <= w < starts@.len() && starts@[w] == k as usize;
                            assert(atom_fails(g, t, body[x as int], starts@[w] as int, qq));
                        }
                    }
                    assert forall|x2: int|
                        0 <= x2 < x + 1 && #[trigger] prod_matches(g, t, body.subrange(0, x2), start as int, start as int)
                        implies match body[x2] {
                        AtomV::Capture(c) => state.settled_at(c as int, start),
                        _ => true,
                    } by {
                        if x2 == x {
                            assert(bits_of(start_inds).contains(start));
                            assert(starts@.to_set().contains(start));
                            let w = choose|w: int| 0 <= w < starts@.len() && starts@[w] == start;
                            assert(starts@[w] == start);
                        }
                    }
                }
            }
        }

        if bitset_is_empty(&next_inds) {
            proof {
                if ranked(g, rank) {
                    assert forall|j: int| #[trigger] prod_in(g, t, kc, body, start as int, j) implies false by {
                        let k = lemma_prod_in_prefix(g, t, kc, body, x as int + 1, start as int, j);
                        assert(bits_of(next_inds).contains(k as usize));
                    }
                }
            }
            if is_complete {
                // fail if no remaining match indices
                proof {
                    if starts@.len() == 0 {
                        assert(starts@.to_set() =~= Set::<usize>::empty());
                    }
                    if ranked(g, rank) {
                        assert forall|j: int| #[trigger] prod_matches(g, t, body, start as int, j) implies false by {
                            let k = lemma_prod_prefix(g, t, body, x as int + 1, start as int, j);
                            assert(bits_of(next_inds).contains(k as usize));
                        }
                        assert forall|x2: int, k: int|
                            x < x2 < n && #[trigger] prod_matches(g, t, body.subrange(0, x2), start as int, k) implies false by {
                            let k2 = lemma_prod_prefix(g, t, body.subrange(0, x2), x as int + 1, start as int, k);
                            assert(body.subrange(0, x2).subrange(0, x as int + 1) =~= body.subrange(0, x as int + 1));
                            assert(bits_of(next_inds).contains(k2 as usize));
                        }
                        assert forall|q: int| #[trigger] prod_fails(g, t, body, start as int, q) implies q <= latest_errs.pos() by {
                            let (x2, k) = lemma_prod_fails_split(g, t, body, start as int, q);
                            if x2 > x {
                                assert(prod_matches(g, t, body.subrange(0, x2), start as int, k));
                            }
                        }
                    }
                }
                let ghost before = *state;
                let ghost lat = latest_errs.pos();
                let r = state.insert_production(start, p_ind, Err(latest_errs));
                proof {
                    if ranked(g, rank) {
                        assert forall|x2: int|
                            0 <= x2 < body.len() && #[trigger] prod_matches(g, t, body.subrange(0, x2), start as int, start as int)
                            implies match body[x2] {
                            AtomV::Capture(c) => state.settled_at(c as int, start),
                            _ => true,
                        } by {
                            if x2 > x {
                                assert(prod_matches(g, t, body.subrange(0, x2), start as int, start as int));
                            }
                            if let AtomV::Capture(c) = body[x2] {
                                assert(before.settled_at(c as int, start));
                            }
                        }
                        assert(state.captures_settled(g, t, body, start));
                    }
                    lemma_prod_set(old(state), &before, state, g, t, p, start);
                    lemma_memo_prod_set(&before, state, g, t, rank, p, start);
                }
                return r;
            } else {
                // return incomplete failure
                return Ok(Match::Incomplete(next_inds));
            }
        } else {
            // update for start of next production otherwise
            start_inds = next_inds;
        }
        x = x + 1;
    }
    proof {
        assert(body.subrange(0, n as int) =~= body);
    }

    // got to the end, everything matches, only cache state if complete
    if is_complete {
        let ghost before = *state;
        let r = state.insert_production(start, p_ind, Ok(Match::Prefix(start_inds)));
        proof {
            lemma_prod_set(old(state), &before, state, g, t, p, start);
            lemma_memo_prod_set(&before, state, g, t, rank, p, start);
        }
        r
    } else {
        Ok(Match::Incomplete(start_inds))
    }
}

/// Growth keeps every final alternation result.
proof fn lemma_settled_grows(before: &ParseState, after: &ParseState)
    requires
        before.grows_to(after),
    ensures
        forall|c: int, i: usize| #[trigger] before.settled_at(c, i) ==> after.settled_at(c, i),
{
    assert forall|c: int, i: usize| #[trigger] before.settled_at(c, i) implies after.settled_at(c, i) by {
        assert(before.alts_memo()[c].submap_of(after.alts_memo()[c]));
        assert(before.alts_memo()[c].dom().contains(i));
        assert(after.alts_memo()[c].dom().contains(i));
        assert(after.alts_memo()[c][i] == before.alts_memo()[c][i]);
    }
}

/// What the result of atom `x` of `body`, tried at an end `i` of the atoms
/// before it, says of the failures of `body` from `start`.
proof fn lemma_prod_atom_fail_step(
    base: &ParseState,
    before: &ParseState,
    after: &ParseState,
    g: &Grammar,
    t: Seq<u8>,
    rank: spec_fn(nat) -> nat,
    body: Seq<AtomV>,
    x: int,
    start: usize,
    i: usize,
    o: Outcome,
)
    requires
        0 <= x < body.len(),
        start <= i,
        prod_matches(g, t, body.subrange(0, x), start as int, i as int),
        base.grows_to(before),
        before.settled_since(base),
        base.pending_above_prod(g, rank, start, body),
        atom_fail_ok(g, t, body[x], i as int, o),
        atom_out_ok(g, t, body[x], i as int, o),
        o is Incomplete ==> (body[x] matches AtomV::Capture(c) && before.pending_at(c as int, i)),
        body[x] matches AtomV::Capture(c) ==> (!(o is Done) ==> after.alts_memo()[c as int].contains_key(i) && outcome(
            after.alts_memo()[c as int][i],
        ) == o),
        body[x] matches AtomV::Capture(c) ==> c < after.alts_memo().len(),
    ensures
        o matches Outcome::Failed(fpos, _) ==> (forall|q: int| #[trigger] atom_fails(g, t, body[x], i as int, q) ==> q
            <= fpos) && (fpos == start || prod_fails(g, t, body, start as int, fpos as int)),
        o is Prefix ==> forall|q: int| !#[trigger] atom_fails(g, t, body[x], i as int, q),
        !(o is Incomplete) && !(o is Done) && i == start ==> match body[x] {
            AtomV::Capture(c) => after.settled_at(c as int, start),
            _ => true,
        },
        o is Incomplete ==> (body[x] matches AtomV::Capture(c) && base.pending_at(c as int, start) && i == start),
{
    if let Outcome::Failed(fpos, _) = o {
        if fpos != start {
            lemma_prod_fails_at(g, t, body, x, start as int, i as int, fpos as int);
        }
    }
    if let Outcome::Prefix(ends) = o {
        lemma_nonempty_has(ends);
        let j = ends.choose();
        assert(ends.contains(j));
        assert forall|q: int| !#[trigger] atom_fails(g, t, body[x], i as int, q) by {
            if atom_fails(g, t, body[x], i as int, q) {
                lemma_atom_fails_no_match(g, t, body[x], i as int, q, j as int);
            }
        }
    }
    if o is Incomplete {
        lemma_pending_subset(base, before);
        if let AtomV::Capture(c) = body[x] {
            assert(base.pending_at(c as int, i));
        }
    }
}

/// The ends that atom `x` of `body` reaches from an end `i` of the atoms
/// before it are ends of the atoms up to and including it.
proof fn lemma_prod_ends_extend(
    g: &Grammar,
    t: Seq<u8>,
    body: Seq<AtomV>,
    x: int,
    start: usize,
    i: usize,
    ends: Set<usize>,
)
    requires
        0 <= x < body.len(),
        prod_matches(g, t, body.subrange(0, x), start as int, i as int),
        atom_ends_ok(g, t, body[x], i as int, ends),
    ensures
        prod_ends_ok(g, t, body.subrange(0, x + 1), start as int, ends),
{
    assert(body.subrange(0, x).push(body[x]) =~= body.subrange(0, x + 1));
    assert forall|j: usize| #[trigger] ends.contains(j) implies j <= t.len() && prod_matches(
        g,
        t,
        body.subrange(0, x + 1),
        start as int,
        j as int,
    ) by {
        lemma_prod_extend(g, t, body.subrange(0, x), body[x], start as int, i as int, j as int);
    }
}

/// Does atom `a` of `g` match of prefix of `s` starting at `start`?
/// Returns matching indices on success, furthest error on failure.
fn matches_atom(
    g: &Grammar,
    atom: &Atom,
    s: &[u8],
    state: &mut ParseState,
    start: usize,
    Ghost(rank): Ghost<spec_fn(nat) -> nat>,
) -> (r: Result<Match, ParseFailure>)
    requires
        g.wf(),
        fits(g, s@),
        old(state).inv(g, s@),
        old(state).memo_complete(g, s@, rank),
        g.atom_ok(atom@),
        start <= s@.len(),
        ranked(g, rank) ==> (atom@ matches AtomV::Capture(c) ==> old(state).pending_above(rank, start, c)),
    ensures
        final(state).inv(g, s@),
        final(state).memo_complete(g, s@, rank),
        old(state).grows_to(final(state)),
        final(state).settled_since(old(state)),
        atom_out_ok(g, s@, atom@, start as int, outcome(r)),
        atom_exact(g, s@, atom@, start as int, outcome(r)),
        !(atom@ is Capture) ==> *final(state) == *old(state),
        r matches Ok(Match::Incomplete(_)) ==> old(state).pending(),
        ranked(g, rank) ==> atom_complete_in(g, s@, old(state).ctx(g, s@), atom@, start as int, outcome(r)),
        ranked(g, rank) && !(r matches Ok(Match::Incomplete(_))) ==> atom_complete(
            g,
            s@,
            atom@,
            start as int,
            outcome(r),
        ),
        ranked(g, rank) ==> atom_fail_ok(g, s@, atom@, start as int, outcome(r)),
        ranked(g, rank) && (r matches Ok(Match::Incomplete(_))) ==> (atom@ matches AtomV::Capture(c)
            && old(state).pending_at(c as int, start)),
        atom@ matches AtomV::Capture(c) ==> (!(r matches Ok(Match::Done)) ==> final(state).alts_memo()[c as int].contains_key(
            start,
        ) && outcome(final(state).alts_memo()[c as int][start]) == outcome(r)),
    decreases old(state).budget(s@.len()), 1nat,
{
    let ghost t = s@;
    let ghost kc = old(state).ctx(g, t);
    proof {
        if !(atom@ is Capture) {
            assert forall|j: int| #[trigger] atom_in(g, t, kc, atom@, start as int, j) implies atom_matches(
                g,
                t,
                atom@,
                start as int,
                j,
            ) by {
                lemma_atom_in_plain(g, t, kc, atom@, start as int, j);
            }
        }
    }
    match atom {
        Atom::Literal(ind) => {
            let lit = g.string(*ind).as_str().as_bytes();
            proof {
                assert(lit@ == lit_bytes(g, ind@));
                assert(t.len() + lit_bytes(g, ind@).len() < usize::MAX);
            }
            // find the length of the longest common prefix of the literal and the rest of the input
            let mut i: usize = 0;
            while i < lit.len() && start + i < s.len() && s[start + i] == lit[i]
                invariant
                    i <= lit@.len(),
                    start + i <= s@.len(),
                    start + lit@.len() < usize::MAX,
                    forall|k: int| 0 <= k < i ==> s@[start + k] == lit@[k],
                decreases lit@.len() - i,
            {
                i = i + 1;
            }
            proof {
                assert forall|j: int| #[trigger] atom_matches(g, t, atom@, start as int, j) implies i == lit@.len()
                    && j == start + lit@.len() by {
                    lemma_atom_only(g, t, atom@, start as int, j);
                    if i < lit@.len() {
                        assert(t.subrange(start as int, j)[i as int] == lit@[i as int]);
                    }
                }
            }
            if i == lit.len() {
                // match after the literal
                proof {
                    assert(s@.subrange(start as int, start + lit@.len()) =~= lit@);
                    lemma_literal(g, t, ind@, start as int);
                }
                let r = Ok(Match::at(start + lit.len()));
                proof {
                    if let Outcome::Prefix(ends) = outcome(r) {
                        assert(ends.contains((start + lit@.len()) as usize));
                    }
                    assert(atom_fail_ok(g, t, atom@, start as int, outcome(r)));
                }
                r
            } else {
                // index of the first byte that does not match, or of the end of the input
                let r = Err(ParseFailure::no_match_at(start + i));
                proof {
                    assert(t.subrange(start as int, start + i) =~= lit@.subrange(0, i as int));
                    if start + lit@.len() <= t.len() && t.subrange(start as int, start + lit@.len()) == lit@ {
                        assert(t.subrange(start as int, start + lit@.len())[i as int] == lit@[i as int]);
                    }
                    assert(literal_fails_at(g, t, ind@, start as int, start + i));
                    assert(atom_fails_in(g, t, failing_after(g, t, 0), atom@, start as int, start + i));
                    assert forall|q: int| #[trigger] atom_fails(g, t, atom@, start as int, q) implies q <= start + i by {
                        let n = choose|n: nat| atom_fails_in(g, t, #[trigger] failing_after(g, t, n), atom@, start as int, q);
                        lemma_literal_fails_once(g, t, ind@, start as int, q, start + i);
                    }
                    assert(atom_fails(g, t, atom@, start as int, start + i));
                    assert(atom_fail_ok(g, t, atom@, start as int, outcome(r)));
                }
                r
            }
        },
        Atom::Capture(ind) => {
            let r = matches_alt(g, *ind, s, state, start, Ghost(rank));
            proof {
                if ranked(g, rank) {
                    let c = ind@;
                    assert forall|j: int| #[trigger] atom_in(g, t, kc, atom@, start as int, j) implies (outcome(r) is Done
                        || (outcome(r) matches Outcome::Prefix(ends) && ends.contains(j as usize)) || (outcome(
                        r,
                    ) matches Outcome::Incomplete(ends) && ends.contains(j as usize))) by {
                        assert(kc.contains((c, start as int, j)));
                        if old(state).pending_at(c as int, start) {
                            assert(old(state).pending_ends(c as int, start).contains(j as usize));
                        } else {
                            assert(alt_matches(g, t, c, start as int, j));
                        }
                    }
                }
                match outcome(r) {
                    Outcome::Prefix(ends) => lemma_atom_ends_of_alt(g, t, ind@, start, ends),
                    Outcome::Incomplete(ends) => lemma_atom_ends_of_alt(g, t, ind@, start, ends),
                    _ => {},
                }
                assert forall|j: int| #[trigger] atom_matches(g, t, atom@, start as int, j) implies alt_matches(
                    g,
                    t,
                    ind@,
                    start as int,
                    j,
                ) by {
                    lemma_atom_only(g, t, atom@, start as int, j);
                }
                if ranked(g, rank) {
                    let c = ind@;
                    assert forall|q: int| atom_fails(g, t, atom@, start as int, q) == alt_fails(g, t, c, start as int, q) by {
                        if atom_fails(g, t, atom@, start as int, q) {
                            let n = choose|n: nat| atom_fails_in(g, t, #[trigger] failing_after(g, t, n), atom@, start as int, q);
                            assert(failing_after(g, t, n).contains((c, start as int, q)));
                        }
                        if alt_fails(g, t, c, start as int, q) {
                            let n = choose|n: nat| #[trigger] failing_after(g, t, n).contains((c, start as int, q));
                            assert(atom_fails_in(g, t, failing_after(g, t, n), atom@, start as int, q));
                        }
                    }
                    if let Outcome::Failed(pos, _) = outcome(r) {
                        assert(!old(state).pending_at(c as int, start));
                        assert(alt_fails(g, t, c, start as int, pos as int));
                        assert(atom_fails(g, t, atom@, start as int, pos as int) == alt_fails(g, t, c, start as int, pos as int));
                        assert forall|q: int| #[trigger] atom_fails(g, t, atom@, start as int, q) implies q <= pos by {
                            assert(atom_fails(g, t, atom@, start as int, q) == alt_fails(g, t, c, start as int, q));
                        }
                    }
                    assert(atom_fail_ok(g, t, atom@, start as int, outcome(r)));
                }
            }
            r
        },
        Atom::End => {
            proof {
                assert forall|j: int| #[trigger] atom_matches(g, t, atom@, start as int, j) implies start == t.len() by {
                    lemma_atom_only(g, t, atom@, start as int, j);
                }
            }
            if start == s.len() {
                // found total match, insert short-circuit
                Ok(Match::Done)
            } else {
                // not end-of-input
                proof {
                    assert(atom_fails_in(g, t, failing_after(g, t, 0), atom@, start as int, start as int));
                    assert forall|q: int| #[trigger] atom_fails(g, t, atom@, start as int, q) implies q <= start by {
                        let n = choose|n: nat| atom_fails_in(g, t, #[trigger] failing_after(g, t, n), atom@, start as int, q);
                    }
                }
                Err(ParseFailure::no_match_at(start))
            }
        },
        // always fails
        Atom::Fail => {
            proof {
                assert forall|j: int| #[trigger] atom_matches(g, t, atom@, start as int, j) implies false by {
                    lemma_atom_only(g, t, atom@, start as int, j);
                }
                assert(atom_fails_in(g, t, failing_after(g, t, 0), atom@, start as int, start as int));
                assert forall|q: int| #[trigger] atom_fails(g, t, atom@, start as int, q) implies q <= start by {
                    let n = choose|n: nat| atom_fails_in(g, t, #[trigger] failing_after(g, t, n), atom@, start as int, q);
                }
            }
            Err(ParseFailure::no_match_at(start))
        },
    }
}

/// Every end that alternation `a` reaches, a capture of it reaches.
proof fn lemma_atom_ends_of_alt(g: &Grammar, t: Seq<u8>, a: nat, start: usize, ends: Set<usize>)
    requires
        alt_ends_ok(g, t, a, start as int, ends),
    ensures
        atom_ends_ok(g, t, AtomV::Capture(a), start as int, ends),
{
    assert forall|j: usize| #[trigger] ends.contains(j) implies j <= t.len() && atom_matches(
        g,
        t,
        AtomV::Capture(a),
        start as int,
        j as int,
    ) by {
        lemma_capture(g, t, a, start as int, j as int);
    }
}

/// Is `s` matched by `g`?
/// Returns furthest error on failure.
pub fn matches(g: &Grammar, s: &str) -> (r: Result<(), ParseFailure>)
    requires
        g.wf(),
        fits(g, encode_utf8(s@)),
    ensures
        g.start_view() is None ==> (r matches Err(f) && f.pos() == 0 && f.errs() == seq![Error::MissingStart]),
        r is Ok ==> accepts(g, encode_utf8(s@)),
        only_direct_left_recursion(g) && accepts(g, encode_utf8(s@)) ==> r is Ok,
        g.start_view() is Some ==> (r matches Err(f) ==> failed_ok(g, encode_utf8(s@), 0, f.pos(), f.errs())),
        only_direct_left_recursion(g) && g.start_view() is Some ==> (r matches Err(f) ==> furthest_failure(
            g,
            encode_utf8(s@),
            f.pos(),
        )),
{
    // start production of grammar
    let start_prod = match g.start_production() {
        Some(p) => p,
        None => {
            return Err(ParseFailure::at(0, Error::MissingStart));
        },
    };
    let t = s.as_bytes();
    let ghost rank = choose|rank: spec_fn(nat) -> nat| ranked(g, rank);

    // set up memo-table and start matching
    let mut state = ParseState::new(g.alternation_count(), g.production_count());
    proof {
        assert(state.inv(g, t@));
        assert(state.memo_complete(g, t@, rank));
        assert forall|b: int, m: usize| #[trigger] state.pending_at(b, m) implies false by {
            assert(state.alts_memo()[b] == Map::<usize, Result<Match, ParseFailure>>::empty());
        }
        assert(!state.pending()) by {
            if state.pending() {
                let (b, m) = choose|b: int, m: usize|
                    0 <= b < state.alts_memo().len() && #[trigger] state.alts_memo()[b].contains_key(m)
                        && state.alts_memo()[b][m] matches Ok(Match::Incomplete(_));
                assert(state.pending_at(b, m));
            }
        }
    }
    let res = matches_prod(g, start_prod, t, &mut state, 0, Ghost(rank));
    proof {
        lemma_start_outcome(g, t@, start_prod@, outcome(res));
        if only_direct_left_recursion(g) {
            assert(ranked(g, rank));
            if let Outcome::Failed(pos, _) = outcome(res) {
                assert(prod_fail_ok(g, t@, g.prods()[start_prod@ as int], 0, outcome(res)));
                assert(furthest_failure(g, t@, pos));
            }
        }
        if only_direct_left_recursion(g) && accepts(g, t@) {
            assert(ranked(g, rank));
            assert(prod_matches(g, t@, g.prods()[start_prod@ as int], 0, t@.len() as int));
        }
    }
    match res {
        Ok(_) => Ok(()),
        Err(f) => Err(f),
    }
}

/// What the start production reports, unless it is still in progress, says
/// whether the grammar matches the whole input.
proof fn lemma_start_outcome(g: &Grammar, t: Seq<u8>, p: nat, o: Outcome)
    requires
        g.wf(),
        g.start_view() == Some(p),
        prod_out_ok(g, t, g.prods()[p as int], 0, o),
        !(o is Incomplete),
    ensures
        (o is Done || o is Prefix) ==> accepts(g, t),
{
    let body = g.prods()[p as int];
    assert(start_shape(body));
    if let Outcome::Done = o {
        let k = choose|k: int|
            0 <= k < body.len() && #[trigger] body[k] == AtomV::End && prod_matches(g, t, body.subrange(0, k), 0, t.len() as int);
        if k < body.len() - 1 {
            assert(body.drop_last()[k] == body[k]);
        }
        assert(body.subrange(0, k).push(body[k]) =~= body);
        lemma_end(g, t);
        lemma_prod_extend(g, t, body.subrange(0, k), body[k], 0, t.len() as int, t.len() as int);
    }
    if let Outcome::Prefix(ends) = o {
        lemma_nonempty_has(ends);
        let j = ends.choose();
        assert(ends.contains(j));
        lemma_start_end(g, t, body, j as int);
    }
}

/// A start production only ever matches up to the end of the input.
proof fn lemma_start_end(g: &Grammar, t: Seq<u8>, body: Seq<AtomV>, j: int)
    requires
        start_shape(body),
        prod_matches(g, t, body, 0, j),
    ensures
        j == t.len(),
{
    let n = choose|n: nat| prod_in(g, t, #[trigger] known_after(g, t, n), body, 0, j);
    let known = known_after(g, t, n);
    let ks = choose|ks: Seq<int>| #[trigger] splits_in(g, t, known, body, ks, 0, j);
    let last = body.len() - 1;
    assert(atom_in(g, t, known, body[last], ks[last], ks[last + 1]));
    assert(body[last] == body.last());
}


/// Recording a result of alternation `a` at `i` that is in progress, or
/// complete when the grammar is ranked, keeps the held results complete.
proof fn lemma_memo_alt_set(
    cur: &ParseState,
    new: &ParseState,
    g: &Grammar,
    t: Seq<u8>,
    rank: spec_fn(nat) -> nat,
    a: int,
    i: usize,
)
    requires
        cur.memo_complete(g, t, rank),
        0 <= a < cur.alts_memo().len(),
        new.prods_memo() == cur.prods_memo(),
        new.alts_memo() == cur.alts_memo().update(a, cur.alts_memo()[a].insert(i, new.alts_memo()[a][i])),
        ranked(g, rank) && !(new.alts_memo()[a][i] matches Ok(Match::Incomplete(_))) ==> alt_complete(
            g,
            t,
            a as nat,
            i as int,
            outcome(new.alts_memo()[a][i]),
        ) && alt_fail_ok(g, t, a as nat, i as int, outcome(new.alts_memo()[a][i])),
        cur.alts_memo()[a].contains_key(i) ==> cur.alts_memo()[a][i] matches Ok(Match::Incomplete(_)),
    ensures
        new.memo_complete(g, t, rank),
{
    if ranked(g, rank) {
        assert forall|c: int, k: usize| #[trigger] cur.settled_at(c, k) implies new.settled_at(c, k) by {
            if c != a || k != i {
                assert(new.alts_memo()[c][k] == cur.alts_memo()[c][k]);
            }
        }
        assert forall|q: int, k: usize|
            0 <= q < new.prods_memo().len() && #[trigger] new.prods_memo()[q].contains_key(k) && new.prods_memo()[q][k] is Err
            implies new.captures_settled(g, t, g.prods()[q], k) by {
            assert(cur.captures_settled(g, t, g.prods()[q], k));
            assert forall|x: int|
                0 <= x < g.prods()[q].len() && #[trigger] prod_matches(g, t, g.prods()[q].subrange(0, x), k as int, k as int)
                implies match g.prods()[q][x] {
                AtomV::Capture(c) => new.settled_at(c as int, k),
                _ => true,
            } by {
                if let AtomV::Capture(c) = g.prods()[q][x] {
                    assert(cur.settled_at(c as int, k));
                }
            }
        }
        assert forall|b: int, k: usize|
            0 <= b < new.alts_memo().len() && #[trigger] new.alts_memo()[b].contains_key(k) && !(
            new.alts_memo()[b][k] matches Ok(Match::Incomplete(_))) implies alt_complete(
            g,
            t,
            b as nat,
            k as int,
            outcome(new.alts_memo()[b][k]),
        ) by {
            if b != a || k != i {
                assert(cur.alts_memo()[b].contains_key(k));
                assert(new.alts_memo()[b][k] == cur.alts_memo()[b][k]);
            }
        }
    }
}

/// Recording a complete result of production `p` at `i` keeps the held results complete.
proof fn lemma_memo_prod_set(
    cur: &ParseState,
    new: &ParseState,
    g: &Grammar,
    t: Seq<u8>,
    rank: spec_fn(nat) -> nat,
    p: int,
    i: usize,
)
    requires
        cur.memo_complete(g, t, rank),
        0 <= p < cur.prods_memo().len(),
        new.alts_memo() == cur.alts_memo(),
        new.prods_memo() == cur.prods_memo().update(p, cur.prods_memo()[p].insert(i, new.prods_memo()[p][i])),
        ranked(g, rank) ==> prod_complete(g, t, g.prods()[p], i as int, outcome(new.prods_memo()[p][i]))
            && prod_fail_ok(g, t, g.prods()[p], i as int, outcome(new.prods_memo()[p][i])) && (
        new.prods_memo()[p][i] is Err ==> new.captures_settled(g, t, g.prods()[p], i)),
    ensures
        new.memo_complete(g, t, rank),
{
    if ranked(g, rank) {
        assert forall|q: int, k: usize|
            0 <= q < new.prods_memo().len() && #[trigger] new.prods_memo()[q].contains_key(k) implies prod_complete(
            g,
            t,
            g.prods()[q],
            k as int,
            outcome(new.prods_memo()[q][k]),
        ) && prod_fail_ok(g, t, g.prods()[q], k as int, outcome(new.prods_memo()[q][k])) && (new.prods_memo()[q][k] is Err
            ==> new.captures_settled(g, t, g.prods()[q], k)) by {
            if q != p || k != i {
                assert(cur.prods_memo()[q].contains_key(k));
                assert(new.prods_memo()[q][k] == cur.prods_memo()[q][k]);
                if new.prods_memo()[q][k] is Err {
                    assert(cur.captures_settled(g, t, g.prods()[q], k));
                    assert forall|x: int|
                        0 <= x < g.prods()[q].len() && #[trigger] prod_matches(g, t, g.prods()[q].subrange(0, x), k as int, k as int)
                        implies match g.prods()[q][x] {
                        AtomV::Capture(c) => new.settled_at(c as int, k),
                        _ => true,
                    } by {
                        if let AtomV::Capture(c) = g.prods()[q][x] {
                            assert(cur.settled_at(c as int, k));
                        }
                    }
                }
            }
        }
    }
}

/// After growth that settled, whatever is in progress was in progress before.
proof fn lemma_pending_subset(base: &ParseState, cur: &ParseState)
    requires
        base.grows_to(cur),
        cur.settled_since(base),
    ensures
        forall|b: int, m: usize| #[trigger] cur.pending_at(b, m) ==> base.pending_at(b, m),
{
    assert forall|b: int, m: usize| #[trigger] cur.pending_at(b, m) implies base.pending_at(b, m) by {
        assert(cur.alts_memo()[b].contains_key(m));
        if base.alts_memo()[b].contains_key(m) {
            assert(base.alts_memo()[b].submap_of(cur.alts_memo()[b]));
            assert(cur.alts_memo()[b].dom().contains(m));
            assert(base.alts_memo()[b][m] == cur.alts_memo()[b][m]);
        }
    }
}

/// While alternation `a` is worked out, only it and what was in progress before are in progress.
proof fn lemma_alt_work_pending(
    base: &ParseState,
    cur: &ParseState,
    g: &Grammar,
    t: Seq<u8>,
    a: int,
    start: usize,
    ends: Set<usize>,
)
    requires
        alt_work(base, cur, g, t, a, start, ends),
    ensures
        forall|b: int, m: usize| #[trigger] cur.pending_at(b, m) ==> (b == a && m == start) || base.pending_at(b, m),
{
    assert forall|b: int, m: usize| #[trigger] cur.pending_at(b, m) implies (b == a && m == start) || base.pending_at(
        b,
        m,
    ) by {
        assert(cur.alts_memo()[b].contains_key(m));
        if base.alts_memo()[b].contains_key(m) {
            assert(base.alts_memo()[b].submap_of(cur.alts_memo()[b]));
            assert(cur.alts_memo()[b].dom().contains(m));
            assert(base.alts_memo()[b][m] == cur.alts_memo()[b][m]);
        }
    }
}

/// A production of alternation `a`, worked out at `start`, meets its guard.
proof fn lemma_prod_guard(
    base: &ParseState,
    cur: &ParseState,
    g: &Grammar,
    t: Seq<u8>,
    rank: spec_fn(nat) -> nat,
    a: int,
    start: usize,
    ends: Set<usize>,
    p: usize,
)
    requires
        alt_work(base, cur, g, t, a, start, ends),
        ranked(g, rank),
        base.pending_above(rank, start, a as nat),
        g.alts()[a] is Some,
        g.alts()[a]->0.contains(p),
        0 <= a < g.alts().len(),
    ensures
        cur.pending_above_prod(g, rank, start, g.prods()[p as int]),
{
    lemma_alt_work_pending(base, cur, g, t, a, start, ends);
    let body = g.prods()[p as int];
    assert(captures_below(g, rank, body, a as nat));
    assert forall|b: int, m: usize| #[trigger] cur.pending_at(b, m) implies m < start || (m == start && captures_below(
        g,
        rank,
        body,
        b as nat,
    )) by {
        if !(b == a && m == start) {
            assert(base.pending_at(b, m));
            if b == a {
                assert(base.alts_memo()[a].contains_key(m));
            }
        }
        if m == start && b != a {
            assert(rank(b as nat) > rank(a as nat));
            assert forall|x: int| 0 <= x < body.len() && unconsumed(g, body, x) implies match #[trigger] body[x] {
                AtomV::Capture(c) => c == b as nat || rank(c) < rank(b as nat),
                _ => true,
            } by {
                assert(match body[x] {
                    AtomV::Capture(c) => c == a as nat || rank(c) < rank(a as nat),
                    _ => true,
                });
            }
        }
    }
}

/// A capture at position `x` of a production worked out at `start`, tried
/// at an end `i` of the atoms before it, meets its guard.
proof fn lemma_atom_guard(
    base: &ParseState,
    cur: &ParseState,
    g: &Grammar,
    t: Seq<u8>,
    rank: spec_fn(nat) -> nat,
    body: Seq<AtomV>,
    x: int,
    start: usize,
    i: usize,
    c: nat,
)
    requires
        base.grows_to(cur),
        cur.settled_since(base),
        base.pending_above_prod(g, rank, start, body),
        start <= t.len(),
        0 <= x < body.len(),
        body[x] == AtomV::Capture(c),
        prod_matches(g, t, body.subrange(0, x), start as int, i as int),
    ensures
        cur.pending_above(rank, i, c),
{
    lemma_pending_subset(base, cur);
    lemma_prod_ordered(g, t, body.subrange(0, x), start as int, i as int);
    assert forall|b: int, m: usize| #[trigger] cur.pending_at(b, m) implies m < i || (m == i && (b == c as int || rank(b as nat) > rank(c))) by {
        assert(base.pending_at(b, m));
        if m == i && i == start {
            assert(captures_below(g, rank, body, b as nat));
            assert forall|y: int| 0 <= y < x implies !consumes(g, #[trigger] body[y]) by {
                assert(body.subrange(0, x)[y] == body[y]);
            }
            assert(unconsumed(g, body, x));
            assert(match body[x] {
                AtomV::Capture(c) => c == b as nat || rank(c) < rank(b as nat),
                _ => true,
            });
        }
    }
}

/// The ends that atom `x` of `body` reaches from every end of the atoms
/// before it are every end of the atoms up to and including it.
proof fn lemma_prod_step_complete(
    g: &Grammar,
    t: Seq<u8>,
    body: Seq<AtomV>,
    x: int,
    start: usize,
    before: Set<usize>,
    starts: Seq<usize>,
    after: Set<usize>,
)
    requires
        0 <= x < body.len(),
        start <= t.len(),
        t.len() < usize::MAX,
        starts.to_set() == before,
        forall|j: int| #[trigger] prod_matches(g, t, body.subrange(0, x), start as int, j) ==> before.contains(j as usize),
        forall|q: int, j: int|
            0 <= q < starts.len() && #[trigger] atom_matches(g, t, body[x], starts[q] as int, j) ==> after.contains(j as usize),
    ensures
        forall|j: int| #[trigger] prod_matches(g, t, body.subrange(0, x + 1), start as int, j) ==> after.contains(j as usize),
{
    assert(body.subrange(0, x).push(body[x]) =~= body.subrange(0, x + 1));
    assert forall|j: int| #[trigger] prod_matches(g, t, body.subrange(0, x + 1), start as int, j) implies after.contains(
        j as usize,
    ) by {
        let k = lemma_prod_split(g, t, body.subrange(0, x), body[x], start as int, j);
        lemma_prod_ordered(g, t, body.subrange(0, x), start as int, k);
        assert(before.contains(k as usize));
        assert(starts.to_set().contains(k as usize));
        let q = choose|q: int| 0 <= q < starts.len() && starts[q] == k as usize;
        assert(starts[q] as int == k);
        assert(atom_matches(g, t, body[x], starts[q] as int, j));
    }
}


impl ParseState {
    /// With consistent tables, every match they stand for is a real match,
    /// and each moves forward within the input.
    proof fn lemma_ctx_sound(&self, g: &Grammar, t: Seq<u8>)
        requires
            self.inv(g, t),
            t.len() <= usize::MAX,
        ensures
            forall|m: (nat, int, int)| #[trigger] self.ctx(g, t).contains(m) ==> alt_matches(g, t, m.0, m.1, m.2),
            ordered(t, self.ctx(g, t)),
    {
        let kc = self.ctx(g, t);
        assert forall|m: (nat, int, int)| #[trigger] kc.contains(m) implies alt_matches(g, t, m.0, m.1, m.2) by {
            if 0 <= m.1 <= usize::MAX && self.pending_at(m.0 as int, m.1 as usize) {
                let b = m.0 as int;
                let i = m.1 as usize;
                let j = m.2 as usize;
                assert(self.alts_memo()[b].contains_key(i));
                assert(alt_out_ok(g, t, b as nat, i as int, outcome(self.alts_memo()[b][i])));
                assert(self.pending_ends(b, i).contains(j));
            }
        }
        assert forall|m: (nat, int, int)| #[trigger] kc.contains(m) && 0 <= m.1 <= t.len() implies m.1 <= m.2 <= t.len() by {
            lemma_alt_ordered(g, t, m.0, m.1, m.2);
        }
    }

    /// Growth that settles what it adds leaves the matches that the tables
    /// stand for unchanged.
    proof fn lemma_ctx_same(&self, new: &Self, g: &Grammar, t: Seq<u8>)
        requires
            self.grows_to(new),
            new.settled_since(self),
        ensures
            new.ctx(g, t) == self.ctx(g, t),
    {
        lemma_pending_subset(self, new);
        assert forall|b: int, m: usize| #[trigger] self.pending_at(b, m) implies new.pending_at(b, m)
            && new.alts_memo()[b][m] == self.alts_memo()[b][m] by {
            assert(self.alts_memo()[b].submap_of(new.alts_memo()[b]));
            assert(self.alts_memo()[b].dom().contains(m));
        }
        assert forall|m: (nat, int, int)| new.ctx(g, t).contains(m) == self.ctx(g, t).contains(m) by {
            if 0 <= m.1 <= usize::MAX {
                let b = m.0 as int;
                let i = m.1 as usize;
                if self.pending_at(b, i) {
                    assert(new.pending_at(b, i));
                }
                if new.pending_at(b, i) {
                    assert(self.pending_at(b, i));
                }
            }
        }
        assert(new.ctx(g, t) =~= self.ctx(g, t));
    }
}

/// The known matches of [`lemma_least_ends`] are real matches when the ends
/// given for alternation `a` at `i` are.
proof fn lemma_known_with_sound(g: &Grammar, t: Seq<u8>, a: nat, i: int, ends: Set<usize>)
    requires
        alt_ends_ok(g, t, a, i, ends),
    ensures
        forall|m: (nat, int, int)| #[trigger] known_with(g, t, a, i, ends).contains(m) ==> alt_matches(g, t, m.0, m.1, m.2),
{
    assert forall|m: (nat, int, int)| #[trigger] known_with(g, t, a, i, ends).contains(m) implies alt_matches(
        g,
        t,
        m.0,
        m.1,
        m.2,
    ) by {
        if m.0 == a && m.1 == i {
            assert(ends.contains(m.2 as usize));
        }
    }
}

/// Two sets of alternation matches that agree on every capture that `body`
/// can reach from `i` (one past `i`, or one at `i`, before consuming input,
/// of alternation `a` or of one of rank below `a`'s) give `body` the same
/// matches.
proof fn lemma_prod_in_agree(
    g: &Grammar,
    t: Seq<u8>,
    k1: Set<(nat, int, int)>,
    k2: Set<(nat, int, int)>,
    rank: spec_fn(nat) -> nat,
    a: nat,
    body: Seq<AtomV>,
    i: int,
    j: int,
)
    requires
        ordered(t, k1),
        0 <= i <= t.len(),
        captures_below(g, rank, body, a),
        forall|m: (nat, int, int)|
            #[trigger] k1.contains(m) && (m.1 > i || (m.1 == i && (m.0 == a || rank(m.0) < rank(a)))) ==> k2.contains(m),
        prod_in(g, t, k1, body, i, j),
    ensures
        prod_in(g, t, k2, body, i, j),
    decreases body.len(),
{
    if body.len() == 0 {
        assert(body =~= Seq::<AtomV>::empty());
        lemma_prod_in_empty(g, t, k1, i, j);
        lemma_prod_in_empty(g, t, k2, i, j);
    } else {
        let x = body.last();
        let b1 = body.drop_last();
        assert(b1.push(x) =~= body);
        let k = lemma_prod_in_split(g, t, k1, b1, x, i, j);
        assert forall|y: int| 0 <= y < b1.len() && unconsumed(g, b1, y) implies match #[trigger] b1[y] {
            AtomV::Capture(c) => c == a || rank(c) < rank(a),
            _ => true,
        } by {
            assert(b1[y] == body[y]);
            assert forall|z: int| 0 <= z < y implies !consumes(g, #[trigger] body[z]) by {
                assert(b1[z] == body[z]);
            }
            assert(unconsumed(g, body, y));
        }
        lemma_prod_in_agree(g, t, k1, k2, rank, a, b1, i, k);
        lemma_prod_in_ordered(g, t, k1, b1, i, k);
        if let AtomV::Capture(c) = x {
            assert(k1.contains((c, k, j)));
            if k == i {
                assert forall|z: int| 0 <= z < body.len() - 1 implies !consumes(g, #[trigger] body[z]) by {
                    assert(b1[z] == body[z]);
                }
                assert(unconsumed(g, body, body.len() - 1));
                assert(body[body.len() - 1] == x);
            }
            assert(k2.contains((c, k, j)));
        }
        assert(atom_in(g, t, k2, x, k, j));
        lemma_prod_in_extend(g, t, k2, b1, x, i, k, j);
    }
}

/// While alternation `a` is worked out at `start` with the ends `ends`
/// found so far, a production of it that matches with the known matches of
/// [`lemma_least_ends`] matches with the matches that the tables stand for.
proof fn lemma_known_with_ctx(
    base: &ParseState,
    cur: &ParseState,
    g: &Grammar,
    t: Seq<u8>,
    rank: spec_fn(nat) -> nat,
    a: int,
    start: usize,
    ends: Set<usize>,
    body: Seq<AtomV>,
    j: int,
)
    requires
        alt_work(base, cur, g, t, a, start, ends),
        start <= t.len(),
        alt_ends_ok(g, t, a as nat, start as int, ends),
        base.pending_above(rank, start, a as nat),
        captures_below(g, rank, body, a as nat),
        prod_in(g, t, known_with(g, t, a as nat, start as int, ends), body, start as int, j),
    ensures
        prod_in(g, t, cur.ctx(g, t), body, start as int, j),
{
    let kw = known_with(g, t, a as nat, start as int, ends);
    let kc = cur.ctx(g, t);
    lemma_alt_work_pending(base, cur, g, t, a, start, ends);
    assert forall|m: (nat, int, int)| #[trigger] kw.contains(m) && 0 <= m.1 <= t.len() implies m.1 <= m.2 <= t.len() by {
        if m.0 == a as nat && m.1 == start as int {
            assert(ends.contains(m.2 as usize));
        }
        lemma_alt_ordered(g, t, m.0, m.1, m.2);
    }
    assert forall|m: (nat, int, int)|
        #[trigger] kw.contains(m) && (m.1 > start || (m.1 == start && (m.0 == a as nat || rank(m.0) < rank(a as nat))))
            implies kc.contains(m) by {
        if m.0 == a as nat && m.1 == start as int {
            assert(cur.pending_at(a, start));
            assert(cur.pending_ends(a, start) == ends);
        } else if 0 <= m.1 <= usize::MAX && cur.pending_at(m.0 as int, m.1 as usize) {
            assert(base.pending_at(m.0 as int, m.1 as usize));
            assert(base.alts_memo()[m.0 as int].contains_key(m.1 as usize));
        }
    }
    lemma_prod_in_agree(g, t, kw, kc, rank, a as nat, body, start as int, j);
}

/// An atom that captures nothing matches, with any known matches, only
/// where it really matches.
proof fn lemma_atom_in_plain(g: &Grammar, t: Seq<u8>, known: Set<(nat, int, int)>, x: AtomV, i: int, j: int)
    requires
        !(x is Capture),
        atom_in(g, t, known, x, i, j),
    ensures
        atom_matches(g, t, x, i, j),
{
    assert(atom_in(g, t, known_after(g, t, 0), x, i, j));
}

/// With fixed known matches, the ends that atom `x` of `body` reaches from
/// every end of the atoms before it are every end of the atoms up to and
/// including it.
proof fn lemma_prod_step_in(
    g: &Grammar,
    t: Seq<u8>,
    known: Set<(nat, int, int)>,
    body: Seq<AtomV>,
    x: int,
    start: usize,
    before: Set<usize>,
    starts: Seq<usize>,
    after: Set<usize>,
)
    requires
        0 <= x < body.len(),
        start <= t.len(),
        t.len() < usize::MAX,
        ordered(t, known),
        starts.to_set() == before,
        forall|j: int| #[trigger] prod_in(g, t, known, body.subrange(0, x), start as int, j) ==> before.contains(j as usize),
        forall|q: int, j: int|
            0 <= q < starts.len() && #[trigger] atom_in(g, t, known, body[x], starts[q] as int, j) ==> after.contains(j as usize),
    ensures
        forall|j: int| #[trigger] prod_in(g, t, known, body.subrange(0, x + 1), start as int, j) ==> after.contains(j as usize),
{
    assert(body.subrange(0, x).push(body[x]) =~= body.subrange(0, x + 1));
    assert forall|j: int| #[trigger] prod_in(g, t, known, body.subrange(0, x + 1), start as int, j) implies after.contains(
        j as usize,
    ) by {
        let k = lemma_prod_in_split(g, t, known, body.subrange(0, x), body[x], start as int, j);
        lemma_prod_in_ordered(g, t, known, body.subrange(0, x), start as int, k);
        assert(before.contains(k as usize));
        assert(starts.to_set().contains(k as usize));
        let q = choose|q: int| 0 <= q < starts.len() && starts[q] == k as usize;
        assert(starts[q] as int == k);
        assert(atom_in(g, t, known, body[x], starts[q] as int, j));
    }
}

} // verus!
