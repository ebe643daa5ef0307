//! What it means for a grammar to match an input.
//!
//! An input is taken as its UTF-8 bytes. A literal matches exactly its own
//! bytes, a capture whatever its alternation matches, and the end-of-input
//! atom the empty stretch at the end of the input; a production matches a
//! stretch that its atoms, one after another, cover; an alternation matches
//! what one of its productions matches. What the alternations match is built
//! up in rounds: round `n + 1` knows every match of an alternation whose
//! production needs, for its captures, only matches known in round `n`.

use crate::grammar::{AtomV, Grammar};
use vstd::prelude::*;
use vstd::utf8::encode_utf8;

verus! {

/// The bytes of the literal string at index `l`.
pub open spec fn lit_bytes(g: &Grammar, l: nat) -> Seq<u8> {
    encode_utf8(g.strs()[l as int])
}

/// Atom `x` matches `t[i..j]`, where a capture may only use the alternation
/// matches `(a, i, j)` held in `known`.
pub open spec fn atom_in(g: &Grammar, t: Seq<u8>, known: Set<(nat, int, int)>, x: AtomV, i: int, j: int) -> bool {
    match x {
        AtomV::Literal(l) => {
            &&& l < g.strs().len()
            &&& 0 <= i
            &&& j == i + lit_bytes(g, l).len()
            &&& j <= t.len()
            &&& t.subrange(i, j) == lit_bytes(g, l)
        },
        AtomV::Capture(a) => known.contains((a, i, j)),
        AtomV::End => i == t.len() && j == i,
        AtomV::Fail => false,
    }
}

/// The atoms of `body` match `t[i..j]` one after another, splitting it at
/// the points `ks`, with captures that use the matches held in `known`.
pub open spec fn splits_in(
    g: &Grammar,
    t: Seq<u8>,
    known: Set<(nat, int, int)>,
    body: Seq<AtomV>,
    ks: Seq<int>,
    i: int,
    j: int,
) -> bool {
    &&& ks.len() == body.len() + 1
    &&& ks[0] == i
    &&& ks[body.len() as int] == j
    &&& forall|k: int| 0 <= k < body.len() ==> atom_in(g, t, known, #[trigger] body[k], ks[k], ks[k + 1])
}

/// The atoms of `body` match `t[i..j]` one after another, with captures
/// that use the matches held in `known`.
pub open spec fn prod_in(g: &Grammar, t: Seq<u8>, known: Set<(nat, int, int)>, body: Seq<AtomV>, i: int, j: int) -> bool {
    exists|ks: Seq<int>| #[trigger] splits_in(g, t, known, body, ks, i, j)
}

/// One round: the alternation matches that one production of the
/// alternation gives, with captures that use the matches held in `known`.
pub open spec fn round(g: &Grammar, t: Seq<u8>, known: Set<(nat, int, int)>) -> Set<(nat, int, int)> {
    Set::new(
        |m: (nat, int, int)|
            {
                &&& m.0 < g.alts().len()
                &&& g.alts()[m.0 as int] is Some
                &&& exists|p: usize|
                    #[trigger] g.alts()[m.0 as int]->0.contains(p) && p < g.prods().len() && prod_in(
                        g,
                        t,
                        known,
                        g.prods()[p as int],
                        m.1,
                        m.2,
                    )
            },
    )
}

/// The alternation matches known after `n` rounds.
pub open spec fn known_after(g: &Grammar, t: Seq<u8>, n: nat) -> Set<(nat, int, int)>
    decreases n,
{
    if n == 0 {
        Set::empty()
    } else {
        round(g, t, known_after(g, t, (n - 1) as nat))
    }
}

/// Alternation `a` matches `t[i..j]`.
pub open spec fn alt_matches(g: &Grammar, t: Seq<u8>, a: nat, i: int, j: int) -> bool {
    exists|n: nat| #[trigger] known_after(g, t, n).contains((a, i, j))
}

/// Atom `x` matches `t[i..j]`.
pub open spec fn atom_matches(g: &Grammar, t: Seq<u8>, x: AtomV, i: int, j: int) -> bool {
    exists|n: nat| atom_in(g, t, #[trigger] known_after(g, t, n), x, i, j)
}

/// The atoms of `body` match `t[i..j]` one after another.
pub open spec fn prod_matches(g: &Grammar, t: Seq<u8>, body: Seq<AtomV>, i: int, j: int) -> bool {
    exists|n: nat| prod_in(g, t, #[trigger] known_after(g, t, n), body, i, j)
}

/// The grammar matches the whole input: it has a start production, and the
/// start production matches the input from its first byte to its last.
pub open spec fn accepts(g: &Grammar, t: Seq<u8>) -> bool {
    g.start_view() matches Some(p) && prod_matches(g, t, g.prods()[p as int], 0, t.len() as int)
}

/// A production that matches with fewer known matches matches with more.
pub proof fn lemma_prod_in_more(
    g: &Grammar,
    t: Seq<u8>,
    small: Set<(nat, int, int)>,
    big: Set<(nat, int, int)>,
    body: Seq<AtomV>,
    i: int,
    j: int,
)
    requires
        small.subset_of(big),
        prod_in(g, t, small, body, i, j),
    ensures
        prod_in(g, t, big, body, i, j),
{
    let ks = choose|ks: Seq<int>| #[trigger] splits_in(g, t, small, body, ks, i, j);
    assert forall|k: int| 0 <= k < body.len() implies atom_in(g, t, big, #[trigger] body[k], ks[k], ks[k + 1]) by {
        assert(atom_in(g, t, small, body[k], ks[k], ks[k + 1]));
    }
    assert(splits_in(g, t, big, body, ks, i, j));
}

/// Later rounds know every match that earlier rounds know.
pub proof fn lemma_known_grows(g: &Grammar, t: Seq<u8>, n: nat, m: nat)
    requires
        n <= m,
    ensures
        known_after(g, t, n).subset_of(known_after(g, t, m)),
    decreases m,
{
    if n < m {
        lemma_known_grows(g, t, n, (m - 1) as nat);
        if m >= 2 {
            lemma_known_grows(g, t, (m - 2) as nat, (m - 1) as nat);
        }
        let before = known_after(g, t, (m - 1) as nat);
        let after = known_after(g, t, m);
        if m >= 1 && n < m - 1 || n == m - 1 {
            assert forall|x: (nat, int, int)| before.contains(x) implies after.contains(x) by {
                if m >= 2 {
                    let older = known_after(g, t, (m - 2) as nat);
                    assert(before == round(g, t, older));
                    let p = choose|p: usize|
                        #[trigger] g.alts()[x.0 as int]->0.contains(p) && p < g.prods().len() && prod_in(
                            g,
                            t,
                            older,
                            g.prods()[p as int],
                            x.1,
                            x.2,
                        );
                    lemma_prod_in_more(g, t, older, before, g.prods()[p as int], x.1, x.2);
                }
            }
        }
    }
}

/// A production that matches up to `k`, followed by an atom that matches
/// from `k`, matches up to where the atom ends, with the atom added.
pub proof fn lemma_prod_extend(g: &Grammar, t: Seq<u8>, body: Seq<AtomV>, x: AtomV, i: int, k: int, j: int)
    requires
        prod_matches(g, t, body, i, k),
        atom_matches(g, t, x, k, j),
    ensures
        prod_matches(g, t, body.push(x), i, j),
{
    let n1 = choose|n: nat| prod_in(g, t, #[trigger] known_after(g, t, n), body, i, k);
    let n2 = choose|n: nat| atom_in(g, t, #[trigger] known_after(g, t, n), x, k, j);
    let n = n1 + n2;
    let known = known_after(g, t, n);
    lemma_known_grows(g, t, n1, n);
    lemma_known_grows(g, t, n2, n);
    lemma_prod_in_more(g, t, known_after(g, t, n1), known, body, i, k);
    let ks = choose|ks: Seq<int>| #[trigger] splits_in(g, t, known, body, ks, i, k);
    if let AtomV::Capture(a) = x {
        assert(known_after(g, t, n2).contains((a, k, j)));
    }
    assert(atom_in(g, t, known, x, k, j));
    let ks2 = ks.push(j);
    let b2 = body.push(x);
    assert forall|q: int| 0 <= q < b2.len() implies atom_in(g, t, known, #[trigger] b2[q], ks2[q], ks2[q + 1]) by {
        if q < body.len() {
            assert(b2[q] == body[q]);
            assert(atom_in(g, t, known, body[q], ks[q], ks[q + 1]));
        }
    }
    assert(splits_in(g, t, known, b2, ks2, i, j));
}

/// An alternation matches what one of its productions matches.
pub proof fn lemma_alt_of_prod(g: &Grammar, t: Seq<u8>, a: nat, p: usize, i: int, j: int)
    requires
        a < g.alts().len(),
        g.alts()[a as int] matches Some(set) && set.contains(p),
        p < g.prods().len(),
        prod_matches(g, t, g.prods()[p as int], i, j),
    ensures
        alt_matches(g, t, a, i, j),
{
    let n = choose|n: nat| prod_in(g, t, #[trigger] known_after(g, t, n), g.prods()[p as int], i, j);
    assert(g.alts()[a as int]->0.contains(p));
    assert(known_after(g, t, n + 1) == round(g, t, known_after(g, t, n)));
    assert(known_after(g, t, n + 1).contains((a, i, j)));
}

/// A capture matches what its alternation matches.
pub proof fn lemma_capture(g: &Grammar, t: Seq<u8>, a: nat, i: int, j: int)
    requires
        alt_matches(g, t, a, i, j),
    ensures
        atom_matches(g, t, AtomV::Capture(a), i, j),
{
    let n = choose|n: nat| #[trigger] known_after(g, t, n).contains((a, i, j));
    assert(atom_in(g, t, known_after(g, t, n), AtomV::Capture(a), i, j));
}

/// A literal matches its own bytes.
pub proof fn lemma_literal(g: &Grammar, t: Seq<u8>, l: nat, i: int)
    requires
        l < g.strs().len(),
        0 <= i,
        i + lit_bytes(g, l).len() <= t.len(),
        t.subrange(i, i + lit_bytes(g, l).len()) == lit_bytes(g, l),
    ensures
        atom_matches(g, t, AtomV::Literal(l), i, i + lit_bytes(g, l).len()),
{
    assert(atom_in(g, t, known_after(g, t, 0), AtomV::Literal(l), i, i + lit_bytes(g, l).len()));
}

/// The end-of-input atom matches the empty stretch at the end.
pub proof fn lemma_end(g: &Grammar, t: Seq<u8>)
    ensures
        atom_matches(g, t, AtomV::End, t.len() as int, t.len() as int),
{
    assert(atom_in(g, t, known_after(g, t, 0), AtomV::End, t.len() as int, t.len() as int));
}

/// The empty production matches the empty stretch anywhere.
pub proof fn lemma_empty_prod(g: &Grammar, t: Seq<u8>, i: int)
    ensures
        prod_matches(g, t, Seq::<AtomV>::empty(), i, i),
{
    let known = known_after(g, t, 0);
    assert(splits_in(g, t, known, Seq::<AtomV>::empty(), seq![i], i, i));
}


/// An atom that consumes input: a non-empty literal.
pub open spec fn consumes(g: &Grammar, x: AtomV) -> bool {
    x matches AtomV::Literal(l) && l < g.strs().len() && lit_bytes(g, l).len() > 0
}

/// Every match in `known` that starts within the input ends within it, no earlier than it starts.
pub open spec fn ordered(t: Seq<u8>, known: Set<(nat, int, int)>) -> bool {
    forall|m: (nat, int, int)| #[trigger] known.contains(m) && 0 <= m.1 <= t.len() ==> m.1 <= m.2 <= t.len()
}

/// An atom matches forward, within the input, and a consuming atom strictly forward.
pub proof fn lemma_atom_in_ordered(g: &Grammar, t: Seq<u8>, known: Set<(nat, int, int)>, x: AtomV, i: int, j: int)
    requires
        ordered(t, known),
        0 <= i <= t.len(),
        atom_in(g, t, known, x, i, j),
    ensures
        i <= j <= t.len(),
        consumes(g, x) ==> i < j,
{
    if let AtomV::Capture(a) = x {
        assert(known.contains((a, i, j)));
    }
}

/// The split points of a production that matches within the input move forward, within the input.
pub proof fn lemma_splits_ordered(
    g: &Grammar,
    t: Seq<u8>,
    known: Set<(nat, int, int)>,
    body: Seq<AtomV>,
    ks: Seq<int>,
    i: int,
    j: int,
    y: int,
)
    requires
        ordered(t, known),
        0 <= i <= t.len(),
        splits_in(g, t, known, body, ks, i, j),
        0 <= y <= body.len(),
    ensures
        i <= ks[y] <= t.len(),
        forall|z: int| 0 <= z < y && consumes(g, body[z]) ==> i < ks[y],
    decreases y,
{
    if y > 0 {
        lemma_splits_ordered(g, t, known, body, ks, i, j, y - 1);
        assert(atom_in(g, t, known, body[y - 1], ks[y - 1], ks[y]));
        lemma_atom_in_ordered(g, t, known, body[y - 1], ks[y - 1], ks[y]);
    }
}

/// A production matches forward, within the input, and strictly forward if one of its atoms consumes input.
pub proof fn lemma_prod_in_ordered(g: &Grammar, t: Seq<u8>, known: Set<(nat, int, int)>, body: Seq<AtomV>, i: int, j: int)
    requires
        ordered(t, known),
        0 <= i <= t.len(),
        prod_in(g, t, known, body, i, j),
    ensures
        i <= j <= t.len(),
        forall|z: int| 0 <= z < body.len() && consumes(g, body[z]) ==> i < j,
{
    let ks = choose|ks: Seq<int>| #[trigger] splits_in(g, t, known, body, ks, i, j);
    lemma_splits_ordered(g, t, known, body, ks, i, j, body.len() as int);
}

/// The matches known after any number of rounds move forward, within the input.
pub proof fn lemma_known_ordered(g: &Grammar, t: Seq<u8>, n: nat)
    ensures
        ordered(t, known_after(g, t, n)),
    decreases n,
{
    if n > 0 {
        let older = known_after(g, t, (n - 1) as nat);
        lemma_known_ordered(g, t, (n - 1) as nat);
        assert forall|m: (nat, int, int)| #[trigger] known_after(g, t, n).contains(m) && 0 <= m.1 <= t.len() implies m.1
            <= m.2 <= t.len() by {
            assert(known_after(g, t, n) == round(g, t, older));
            let p = choose|p: usize|
                #[trigger] g.alts()[m.0 as int]->0.contains(p) && p < g.prods().len() && prod_in(
                    g,
                    t,
                    older,
                    g.prods()[p as int],
                    m.1,
                    m.2,
                );
            lemma_prod_in_ordered(g, t, older, g.prods()[p as int], m.1, m.2);
        }
    }
}

/// A production matches forward, within the input, and strictly forward if one of its atoms consumes input.
pub proof fn lemma_prod_ordered(g: &Grammar, t: Seq<u8>, body: Seq<AtomV>, i: int, j: int)
    requires
        0 <= i <= t.len(),
        prod_matches(g, t, body, i, j),
    ensures
        i <= j <= t.len(),
        forall|z: int| 0 <= z < body.len() && consumes(g, body[z]) ==> i < j,
{
    let n = choose|n: nat| prod_in(g, t, #[trigger] known_after(g, t, n), body, i, j);
    lemma_known_ordered(g, t, n);
    lemma_prod_in_ordered(g, t, known_after(g, t, n), body, i, j);
}

/// A production with one more atom matches only where the production
/// matches up to some point and the atom matches from there.
pub proof fn lemma_prod_split(g: &Grammar, t: Seq<u8>, body: Seq<AtomV>, x: AtomV, i: int, j: int) -> (k: int)
    requires
        prod_matches(g, t, body.push(x), i, j),
    ensures
        prod_matches(g, t, body, i, k),
        atom_matches(g, t, x, k, j),
{
    let b2 = body.push(x);
    let n = choose|n: nat| prod_in(g, t, #[trigger] known_after(g, t, n), b2, i, j);
    let known = known_after(g, t, n);
    let ks = choose|ks: Seq<int>| #[trigger] splits_in(g, t, known, b2, ks, i, j);
    let k = ks[body.len() as int];
    let ks1 = ks.subrange(0, body.len() as int + 1);
    assert forall|q: int| 0 <= q < body.len() implies atom_in(g, t, known, #[trigger] body[q], ks1[q], ks1[q + 1]) by {
        assert(b2[q] == body[q]);
        assert(atom_in(g, t, known, b2[q], ks[q], ks[q + 1]));
    }
    assert(splits_in(g, t, known, body, ks1, i, k));
    assert(atom_in(g, t, known, b2[body.len() as int], ks[body.len() as int], ks[body.len() as int + 1]));
    assert(atom_in(g, t, known, x, k, j));
    k
}

/// A production that matches has every prefix match up to some point.
pub proof fn lemma_prod_prefix(g: &Grammar, t: Seq<u8>, body: Seq<AtomV>, x: int, i: int, j: int) -> (k: int)
    requires
        0 <= x <= body.len(),
        prod_matches(g, t, body, i, j),
    ensures
        prod_matches(g, t, body.subrange(0, x), i, k),
{
    let n = choose|n: nat| prod_in(g, t, #[trigger] known_after(g, t, n), body, i, j);
    let known = known_after(g, t, n);
    let ks = choose|ks: Seq<int>| #[trigger] splits_in(g, t, known, body, ks, i, j);
    let b1 = body.subrange(0, x);
    let ks1 = ks.subrange(0, x + 1);
    assert forall|q: int| 0 <= q < b1.len() implies atom_in(g, t, known, #[trigger] b1[q], ks1[q], ks1[q + 1]) by {
        assert(b1[q] == body[q]);
        assert(atom_in(g, t, known, body[q], ks[q], ks[q + 1]));
    }
    assert(splits_in(g, t, known, b1, ks1, i, ks[x]));
    ks[x]
}

/// The empty production matches only the empty stretch.
pub proof fn lemma_empty_prod_only(g: &Grammar, t: Seq<u8>, i: int, j: int)
    requires
        prod_matches(g, t, Seq::<AtomV>::empty(), i, j),
    ensures
        i == j,
{
    let n = choose|n: nat| prod_in(g, t, #[trigger] known_after(g, t, n), Seq::<AtomV>::empty(), i, j);
    let known = known_after(g, t, n);
    let ks = choose|ks: Seq<int>| #[trigger] splits_in(g, t, known, Seq::<AtomV>::empty(), ks, i, j);
}

/// An alternation matches only what one of its productions matches.
pub proof fn lemma_alt_split(g: &Grammar, t: Seq<u8>, a: nat, i: int, j: int) -> (p: usize)
    requires
        alt_matches(g, t, a, i, j),
    ensures
        a < g.alts().len(),
        g.alts()[a as int] is Some,
        g.alts()[a as int]->0.contains(p),
        p < g.prods().len(),
        prod_matches(g, t, g.prods()[p as int], i, j),
{
    let n = choose|n: nat| #[trigger] known_after(g, t, n).contains((a, i, j));
    let older = known_after(g, t, (n - 1) as nat);
    assert(known_after(g, t, n) == round(g, t, older));
    let p = choose|p: usize|
        #[trigger] g.alts()[a as int]->0.contains(p) && p < g.prods().len() && prod_in(g, t, older, g.prods()[p as int], i, j);
    assert(prod_in(g, t, known_after(g, t, (n - 1) as nat), g.prods()[p as int], i, j));
    p
}

/// What a single atom matches: a literal its bytes, a capture what its
/// alternation matches, the end-of-input atom the empty stretch at the end,
/// and the failure atom nothing.
pub proof fn lemma_atom_only(g: &Grammar, t: Seq<u8>, x: AtomV, i: int, j: int)
    requires
        atom_matches(g, t, x, i, j),
    ensures
        x matches AtomV::Literal(l) ==> l < g.strs().len() && 0 <= i && j == i + lit_bytes(g, l).len() && j <= t.len()
            && t.subrange(i, j) == lit_bytes(g, l),
        x matches AtomV::Capture(a) ==> alt_matches(g, t, a, i, j),
        x is End ==> i == t.len() && j == i,
        !(x is Fail),
{
    let n = choose|n: nat| atom_in(g, t, #[trigger] known_after(g, t, n), x, i, j);
    if let AtomV::Capture(a) = x {
        assert(known_after(g, t, n).contains((a, i, j)));
    }
}


/// With a fixed set of known matches, a production with one more atom
/// matches only where the production matches up to some point and the atom
/// matches from there.
pub proof fn lemma_prod_in_split(
    g: &Grammar,
    t: Seq<u8>,
    known: Set<(nat, int, int)>,
    body: Seq<AtomV>,
    x: AtomV,
    i: int,
    j: int,
) -> (k: int)
    requires
        prod_in(g, t, known, body.push(x), i, j),
    ensures
        prod_in(g, t, known, body, i, k),
        atom_in(g, t, known, x, k, j),
{
    let b2 = body.push(x);
    let ks = choose|ks: Seq<int>| #[trigger] splits_in(g, t, known, b2, ks, i, j);
    let k = ks[body.len() as int];
    let ks1 = ks.subrange(0, body.len() as int + 1);
    assert forall|q: int| 0 <= q < body.len() implies atom_in(g, t, known, #[trigger] body[q], ks1[q], ks1[q + 1]) by {
        assert(b2[q] == body[q]);
        assert(atom_in(g, t, known, b2[q], ks[q], ks[q + 1]));
    }
    assert(splits_in(g, t, known, body, ks1, i, k));
    assert(atom_in(g, t, known, b2[body.len() as int], ks[body.len() as int], ks[body.len() as int + 1]));
    k
}

/// With a fixed set of known matches, a production that matches up to `k`,
/// followed by an atom that matches from `k`, matches with the atom added.
pub proof fn lemma_prod_in_extend(
    g: &Grammar,
    t: Seq<u8>,
    known: Set<(nat, int, int)>,
    body: Seq<AtomV>,
    x: AtomV,
    i: int,
    k: int,
    j: int,
)
    requires
        prod_in(g, t, known, body, i, k),
        atom_in(g, t, known, x, k, j),
    ensures
        prod_in(g, t, known, body.push(x), i, j),
{
    let ks = choose|ks: Seq<int>| #[trigger] splits_in(g, t, known, body, ks, i, k);
    let ks2 = ks.push(j);
    let b2 = body.push(x);
    assert forall|q: int| 0 <= q < b2.len() implies atom_in(g, t, known, #[trigger] b2[q], ks2[q], ks2[q + 1]) by {
        if q < body.len() {
            assert(b2[q] == body[q]);
            assert(atom_in(g, t, known, body[q], ks[q], ks[q + 1]));
        }
    }
    assert(splits_in(g, t, known, b2, ks2, i, j));
}

/// With a fixed set of known matches, a production that matches has every prefix match up to some point.
pub proof fn lemma_prod_in_prefix(
    g: &Grammar,
    t: Seq<u8>,
    known: Set<(nat, int, int)>,
    body: Seq<AtomV>,
    x: int,
    i: int,
    j: int,
) -> (k: int)
    requires
        0 <= x <= body.len(),
        prod_in(g, t, known, body, i, j),
    ensures
        prod_in(g, t, known, body.subrange(0, x), i, k),
{
    let ks = choose|ks: Seq<int>| #[trigger] splits_in(g, t, known, body, ks, i, j);
    let b1 = body.subrange(0, x);
    let ks1 = ks.subrange(0, x + 1);
    assert forall|q: int| 0 <= q < b1.len() implies atom_in(g, t, known, #[trigger] b1[q], ks1[q], ks1[q + 1]) by {
        assert(b1[q] == body[q]);
        assert(atom_in(g, t, known, body[q], ks[q], ks[q + 1]));
    }
    assert(splits_in(g, t, known, b1, ks1, i, ks[x]));
    ks[x]
}

/// The empty production matches, with any known matches, exactly the empty stretch.
pub proof fn lemma_prod_in_empty(g: &Grammar, t: Seq<u8>, known: Set<(nat, int, int)>, i: int, j: int)
    ensures
        prod_in(g, t, known, Seq::<AtomV>::empty(), i, i),
        prod_in(g, t, known, Seq::<AtomV>::empty(), i, j) ==> i == j,
{
    assert(splits_in(g, t, known, Seq::<AtomV>::empty(), seq![i], i, i));
    if prod_in(g, t, known, Seq::<AtomV>::empty(), i, j) {
        let ks = choose|ks: Seq<int>| #[trigger] splits_in(g, t, known, Seq::<AtomV>::empty(), ks, i, j);
    }
}

/// A production matches with known matches that are all real matches only
/// where it really matches.
pub proof fn lemma_prod_in_sound(g: &Grammar, t: Seq<u8>, known: Set<(nat, int, int)>, body: Seq<AtomV>, i: int, j: int)
    requires
        forall|m: (nat, int, int)| #[trigger] known.contains(m) ==> alt_matches(g, t, m.0, m.1, m.2),
        prod_in(g, t, known, body, i, j),
    ensures
        prod_matches(g, t, body, i, j),
    decreases body.len(),
{
    if body.len() == 0 {
        assert(body =~= Seq::<AtomV>::empty());
        lemma_prod_in_empty(g, t, known, i, j);
        lemma_empty_prod(g, t, i);
    } else {
        let x = body.last();
        let b1 = body.drop_last();
        assert(b1.push(x) =~= body);
        let k = lemma_prod_in_split(g, t, known, b1, x, i, j);
        lemma_prod_in_sound(g, t, known, b1, i, k);
        if let AtomV::Capture(a) = x {
            assert(known.contains((a, k, j)));
            lemma_capture(g, t, a, k, j);
        } else {
            assert(atom_in(g, t, known_after(g, t, 0), x, k, j));
        }
        lemma_prod_extend(g, t, b1, x, i, k, j);
    }
}

/// The known matches: every real match, save those of alternation `a` at
/// `i`, which are the ends in `ends`.
pub open spec fn known_with(g: &Grammar, t: Seq<u8>, a: nat, i: int, ends: Set<usize>) -> Set<(nat, int, int)> {
    Set::new(
        |m: (nat, int, int)|
            if m.0 == a && m.1 == i {
                0 <= m.2 <= usize::MAX && ends.contains(m.2 as usize)
            } else {
                alt_matches(g, t, m.0, m.1, m.2)
            },
    )
}

/// If the ends `ends` of alternation `a` at `i` hold every end that one of
/// its productions reaches when its own matches there are `ends`, they hold
/// every end to which the alternation matches.
pub proof fn lemma_least_ends(g: &Grammar, t: Seq<u8>, a: nat, i: int, ends: Set<usize>, j: int)
    requires
        0 <= i <= t.len(),
        t.len() <= usize::MAX,
        a < g.alts().len(),
        forall|p: usize, k: int|
            g.alts()[a as int] is Some && g.alts()[a as int]->0.contains(p) && p < g.prods().len() && #[trigger] prod_in(
                g,
                t,
                known_with(g, t, a, i, ends),
                g.prods()[p as int],
                i,
                k,
            ) ==> 0 <= k && ends.contains(k as usize),
        alt_matches(g, t, a, i, j),
    ensures
        0 <= j,
        ends.contains(j as usize),
{
    let n = choose|n: nat| #[trigger] known_after(g, t, n).contains((a, i, j));
    lemma_known_within(g, t, a, i, ends, n);
}

/// Every round's matches are among the known matches of [`lemma_least_ends`].
proof fn lemma_known_within(g: &Grammar, t: Seq<u8>, a: nat, i: int, ends: Set<usize>, n: nat)
    requires
        0 <= i <= t.len(),
        t.len() <= usize::MAX,
        a < g.alts().len(),
        forall|p: usize, k: int|
            g.alts()[a as int] is Some && g.alts()[a as int]->0.contains(p) && p < g.prods().len() && #[trigger] prod_in(
                g,
                t,
                known_with(g, t, a, i, ends),
                g.prods()[p as int],
                i,
                k,
            ) ==> 0 <= k && ends.contains(k as usize),
    ensures
        known_after(g, t, n).subset_of(known_with(g, t, a, i, ends)),
    decreases n,
{
    let kw = known_with(g, t, a, i, ends);
    if n > 0 {
        let older = known_after(g, t, (n - 1) as nat);
        lemma_known_within(g, t, a, i, ends, (n - 1) as nat);
        assert forall|m: (nat, int, int)| known_after(g, t, n).contains(m) implies kw.contains(m) by {
            assert(alt_matches(g, t, m.0, m.1, m.2));
            if m.0 == a && m.1 == i {
                lemma_alt_ordered(g, t, a, i, m.2);
                assert(known_after(g, t, n) == round(g, t, older));
                let p = choose|p: usize|
                    #[trigger] g.alts()[m.0 as int]->0.contains(p) && p < g.prods().len() && prod_in(
                        g,
                        t,
                        older,
                        g.prods()[p as int],
                        m.1,
                        m.2,
                    );
                lemma_prod_in_more(g, t, older, kw, g.prods()[p as int], m.1, m.2);
            }
        }
    }
}


/// An alternation matches forward, within the input.
pub proof fn lemma_alt_ordered(g: &Grammar, t: Seq<u8>, a: nat, i: int, j: int)
    requires
        0 <= i <= t.len(),
        alt_matches(g, t, a, i, j),
    ensures
        i <= j <= t.len(),
{
    let n = choose|n: nat| #[trigger] known_after(g, t, n).contains((a, i, j));
    lemma_known_ordered(g, t, n);
}

/// Two productions, one after the other, match where the first matches up
/// to some point and the second from there.
pub proof fn lemma_prod_append(g: &Grammar, t: Seq<u8>, b1: Seq<AtomV>, b2: Seq<AtomV>, i: int, k: int, j: int)
    requires
        prod_matches(g, t, b1, i, k),
        prod_matches(g, t, b2, k, j),
    ensures
        prod_matches(g, t, b1 + b2, i, j),
    decreases b2.len(),
{
    if b2.len() == 0 {
        assert(b2 =~= Seq::<AtomV>::empty());
        lemma_empty_prod_only(g, t, k, j);
        assert(b1 + b2 =~= b1);
    } else {
        let x = b2.last();
        let b = b2.drop_last();
        assert(b.push(x) =~= b2);
        let m = lemma_prod_split(g, t, b, x, k, j);
        lemma_prod_append(g, t, b1, b, i, k, m);
        lemma_prod_extend(g, t, b1 + b, x, i, m, j);
        assert((b1 + b).push(x) =~= b1 + b2);
    }
}

/// Two productions, one after the other, match only where the first matches
/// up to some point and the second from there.
pub proof fn lemma_prod_unappend(g: &Grammar, t: Seq<u8>, b1: Seq<AtomV>, b2: Seq<AtomV>, i: int, j: int) -> (k: int)
    requires
        prod_matches(g, t, b1 + b2, i, j),
    ensures
        prod_matches(g, t, b1, i, k),
        prod_matches(g, t, b2, k, j),
    decreases b2.len(),
{
    if b2.len() == 0 {
        assert(b2 =~= Seq::<AtomV>::empty());
        assert(b1 + b2 =~= b1);
        lemma_empty_prod(g, t, j);
        j
    } else {
        let x = b2.last();
        let b = b2.drop_last();
        assert(b.push(x) =~= b2);
        assert((b1 + b).push(x) =~= b1 + b2);
        let m = lemma_prod_split(g, t, b1 + b, x, i, j);
        let k = lemma_prod_unappend(g, t, b1, b, i, m);
        lemma_prod_extend(g, t, b, x, k, m, j);
        k
    }
}

/// A production of one atom matches exactly where the atom matches.
pub proof fn lemma_prod_single(g: &Grammar, t: Seq<u8>, x: AtomV, i: int, j: int)
    ensures
        prod_matches(g, t, seq![x], i, j) <==> atom_matches(g, t, x, i, j),
{
    assert(Seq::<AtomV>::empty().push(x) =~= seq![x]);
    if prod_matches(g, t, seq![x], i, j) {
        let k = lemma_prod_split(g, t, Seq::<AtomV>::empty(), x, i, j);
        lemma_empty_prod_only(g, t, i, k);
    }
    if atom_matches(g, t, x, i, j) {
        lemma_empty_prod(g, t, i);
        lemma_prod_extend(g, t, Seq::<AtomV>::empty(), x, i, i, j);
    }
}

} // verus!
