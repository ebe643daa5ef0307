//! Where matching fails: the points that the failing attempts of a grammar
//! reach in an input.
//!
//! A literal tried at `k` that does not match reaches the first byte where
//! the input departs from it, or the end of the input. The end-of-input atom
//! tried before the end, and the failure atom, reach where they are tried.
//! A production fails from `i` reaching `q` when its first atoms match up to
//! some `k` and the next atom, tried at `k`, fails reaching `q`. An
//! alternation that matches nothing from `i` reaches `i` itself, and every
//! point that one of its productions reaches, save the productions that
//! capture the alternation itself before consuming input. As with matches,
//! the failures of alternations are built up in rounds.

use crate::grammar::{AtomV, Grammar};
use crate::language::{alt_matches, atom_matches, lemma_atom_only, lit_bytes, prod_matches};
use vstd::prelude::*;

verus! {

/// Literal `l` tried at `k` does not match: the input agrees with it up to
/// `q`, and at `q` departs from it or ends.
pub open spec fn literal_fails_at(g: &Grammar, t: Seq<u8>, l: nat, k: int, q: int) -> bool {
    let lit = lit_bytes(g, l);
    &&& 0 <= k <= q <= t.len()
    &&& q - k < lit.len()
    &&& t.subrange(k, q) == lit.subrange(0, q - k)
    &&& (q == t.len() || t[q] != lit[q - k])
}

/// Atom `x` tried at `k` fails, reaching `q`, where a failing alternation
/// reaches what `failing` holds for it.
pub open spec fn atom_fails_in(g: &Grammar, t: Seq<u8>, failing: Set<(nat, int, int)>, x: AtomV, k: int, q: int) -> bool {
    match x {
        AtomV::Literal(l) => l < g.strs().len() && literal_fails_at(g, t, l, k, q),
        AtomV::Capture(c) => failing.contains((c, k, q)),
        AtomV::End => k != t.len() && q == k,
        AtomV::Fail => q == k,
    }
}

/// `body` fails from `i`, reaching `q`: its first atoms match up to some
/// `k`, and the next atom, tried at `k`, fails reaching `q`.
pub open spec fn prod_fails_in(
    g: &Grammar,
    t: Seq<u8>,
    failing: Set<(nat, int, int)>,
    body: Seq<AtomV>,
    i: int,
    q: int,
) -> bool {
    exists|x: int, k: int|
        #![trigger prod_matches(g, t, body.subrange(0, x), i, k), atom_fails_in(g, t, failing, body[x], k, q)]
        0 <= x < body.len() && prod_matches(g, t, body.subrange(0, x), i, k) && atom_fails_in(
            g,
            t,
            failing,
            body[x],
            k,
            q,
        )
}

/// `body`, a production of alternation `a`, captures `a` at `i` before
/// consuming input.
pub open spec fn stuck(g: &Grammar, t: Seq<u8>, a: nat, body: Seq<AtomV>, i: int) -> bool {
    exists|x: int|
        0 <= x < body.len() && body[x] == AtomV::Capture(a) && #[trigger] prod_matches(g, t, body.subrange(0, x), i, i)
}

/// One round: alternation `a` matches nothing from `i`, and reaches `i` or
/// a point that one of its productions, other than those stuck on `a`,
/// reaches with the failures in `failing`.
pub open spec fn fail_round(g: &Grammar, t: Seq<u8>, failing: Set<(nat, int, int)>) -> Set<(nat, int, int)> {
    Set::new(
        |m: (nat, int, int)|
            {
                &&& m.0 < g.alts().len()
                &&& forall|j: int| !#[trigger] alt_matches(g, t, m.0, m.1, j)
                &&& (m.2 == m.1 || (g.alts()[m.0 as int] is Some && exists|p: usize|
                    #[trigger] g.alts()[m.0 as int]->0.contains(p) && p < g.prods().len() && !stuck(
                        g,
                        t,
                        m.0,
                        g.prods()[p as int],
                        m.1,
                    ) && prod_fails_in(g, t, failing, g.prods()[p as int], m.1, m.2)))
            },
    )
}

/// The failures of alternations known after `n` rounds.
pub open spec fn failing_after(g: &Grammar, t: Seq<u8>, n: nat) -> Set<(nat, int, int)>
    decreases n,
{
    if n == 0 {
        Set::empty()
    } else {
        fail_round(g, t, failing_after(g, t, (n - 1) as nat))
    }
}

/// Alternation `a` matches nothing from `i`, and its attempts reach `q`.
pub open spec fn alt_fails(g: &Grammar, t: Seq<u8>, a: nat, i: int, q: int) -> bool {
    exists|n: nat| #[trigger] failing_after(g, t, n).contains((a, i, q))
}

/// Atom `x` tried at `k` fails, reaching `q`.
pub open spec fn atom_fails(g: &Grammar, t: Seq<u8>, x: AtomV, k: int, q: int) -> bool {
    exists|n: nat| atom_fails_in(g, t, #[trigger] failing_after(g, t, n), x, k, q)
}

/// `body` fails from `i`, reaching `q`.
pub open spec fn prod_fails(g: &Grammar, t: Seq<u8>, body: Seq<AtomV>, i: int, q: int) -> bool {
    exists|n: nat| prod_fails_in(g, t, #[trigger] failing_after(g, t, n), body, i, q)
}

/// An alternation that fails somewhere matches nothing there.
pub proof fn lemma_alt_fails_no_match(g: &Grammar, t: Seq<u8>, a: nat, i: int, q: int, j: int)
    requires
        alt_fails(g, t, a, i, q),
    ensures
        !alt_matches(g, t, a, i, j),
{
    let n = choose|n: nat| #[trigger] failing_after(g, t, n).contains((a, i, q));
    assert(failing_after(g, t, n) == fail_round(g, t, failing_after(g, t, (n - 1) as nat)));
}

/// An atom that fails somewhere matches nothing there.
pub proof fn lemma_atom_fails_no_match(g: &Grammar, t: Seq<u8>, x: AtomV, k: int, q: int, j: int)
    requires
        atom_fails(g, t, x, k, q),
    ensures
        !atom_matches(g, t, x, k, j),
{
    let n = choose|n: nat| atom_fails_in(g, t, #[trigger] failing_after(g, t, n), x, k, q);
    if atom_matches(g, t, x, k, j) {
        lemma_atom_only(g, t, x, k, j);
        match x {
            AtomV::Literal(l) => {
                let lit = lit_bytes(g, l);
                assert(t.subrange(k, j)[q - k] == t[q]);
                assert(t.subrange(k, j)[q - k] == lit[q - k]);
            },
            AtomV::Capture(c) => {
                assert(alt_fails(g, t, c, k, q));
                lemma_alt_fails_no_match(g, t, c, k, q, j);
            },
            _ => {},
        }
    }
}

/// A literal fails at one point at most.
pub proof fn lemma_literal_fails_once(g: &Grammar, t: Seq<u8>, l: nat, k: int, q1: int, q2: int)
    requires
        literal_fails_at(g, t, l, k, q1),
        literal_fails_at(g, t, l, k, q2),
    ensures
        q1 == q2,
{
    let lit = lit_bytes(g, l);
    if q1 < q2 {
        assert(t.subrange(k, q2)[q1 - k] == lit.subrange(0, q2 - k)[q1 - k]);
        assert(t[q1] == lit[q1 - k]);
    } else if q2 < q1 {
        assert(t.subrange(k, q1)[q2 - k] == lit.subrange(0, q1 - k)[q2 - k]);
        assert(t[q2] == lit[q2 - k]);
    }
}

/// A failure of alternation `a` at `i`, reaching `q`, from production `p`
/// of it that is not stuck on `a`, is a failure that `a` knows.
pub proof fn lemma_alt_fails_from_prod(g: &Grammar, t: Seq<u8>, a: nat, p: usize, i: int, q: int)
    requires
        a < g.alts().len(),
        forall|j: int| !#[trigger] alt_matches(g, t, a, i, j),
        g.alts()[a as int] is Some,
        g.alts()[a as int]->0.contains(p),
        p < g.prods().len(),
        !stuck(g, t, a, g.prods()[p as int], i),
        prod_fails(g, t, g.prods()[p as int], i, q),
    ensures
        alt_fails(g, t, a, i, q),
{
    let n = choose|n: nat| prod_fails_in(g, t, #[trigger] failing_after(g, t, n), g.prods()[p as int], i, q);
    assert(failing_after(g, t, n + 1) == fail_round(g, t, failing_after(g, t, n)));
    assert(failing_after(g, t, n + 1).contains((a, i, q)));
}

/// An alternation that matches nothing from `i` reaches `i`.
pub proof fn lemma_alt_fails_here(g: &Grammar, t: Seq<u8>, a: nat, i: int)
    requires
        a < g.alts().len(),
        forall|j: int| !#[trigger] alt_matches(g, t, a, i, j),
    ensures
        alt_fails(g, t, a, i, i),
{
    assert(failing_after(g, t, 1) == fail_round(g, t, failing_after(g, t, 0)));
    assert(failing_after(g, t, 1).contains((a, i, i)));
}

/// A failure of alternation `a` is `i` itself or reached by a production of
/// `a` that is not stuck on `a`.
pub proof fn lemma_alt_fails_split(g: &Grammar, t: Seq<u8>, a: nat, i: int, q: int) -> (p: usize)
    requires
        alt_fails(g, t, a, i, q),
        q != i,
    ensures
        a < g.alts().len(),
        g.alts()[a as int] is Some,
        g.alts()[a as int]->0.contains(p),
        p < g.prods().len(),
        !stuck(g, t, a, g.prods()[p as int], i),
        prod_fails(g, t, g.prods()[p as int], i, q),
{
    let n = choose|n: nat| #[trigger] failing_after(g, t, n).contains((a, i, q));
    let f = failing_after(g, t, (n - 1) as nat);
    assert(failing_after(g, t, n) == fail_round(g, t, f));
    let p = choose|p: usize|
        #[trigger] g.alts()[a as int]->0.contains(p) && p < g.prods().len() && !stuck(g, t, a, g.prods()[p as int], i)
            && prod_fails_in(g, t, f, g.prods()[p as int], i, q);
    assert(prod_fails_in(g, t, failing_after(g, t, (n - 1) as nat), g.prods()[p as int], i, q));
    p
}

/// A production fails where one of its atoms, tried at an end of the atoms
/// before it, fails; and only there.
pub proof fn lemma_prod_fails_at(g: &Grammar, t: Seq<u8>, body: Seq<AtomV>, x: int, i: int, k: int, q: int)
    requires
        0 <= x < body.len(),
        prod_matches(g, t, body.subrange(0, x), i, k),
        atom_fails(g, t, body[x], k, q),
    ensures
        prod_fails(g, t, body, i, q),
{
    let n = choose|n: nat| atom_fails_in(g, t, #[trigger] failing_after(g, t, n), body[x], k, q);
    assert(prod_fails_in(g, t, failing_after(g, t, n), body, i, q));
}

/// A failure of a production comes from one of its atoms.
pub proof fn lemma_prod_fails_split(g: &Grammar, t: Seq<u8>, body: Seq<AtomV>, i: int, q: int) -> (xk: (int, int))
    requires
        prod_fails(g, t, body, i, q),
    ensures
        0 <= xk.0 < body.len(),
        prod_matches(g, t, body.subrange(0, xk.0), i, xk.1),
        atom_fails(g, t, body[xk.0], xk.1, q),
{
    let n = choose|n: nat| prod_fails_in(g, t, #[trigger] failing_after(g, t, n), body, i, q);
    let f = failing_after(g, t, n);
    let (x, k) = choose|x: int, k: int|
        #![trigger prod_matches(g, t, body.subrange(0, x), i, k), atom_fails_in(g, t, f, body[x], k, q)]
        0 <= x < body.len() && prod_matches(g, t, body.subrange(0, x), i, k) && atom_fails_in(g, t, f, body[x], k, q);
    assert(atom_fails_in(g, t, failing_after(g, t, n), body[x], k, q));
    (x, k)
}

} // verus!
