//! What the grammar builder's operations mean.
//!
//! An expression matches a stretch of the input as its kind says: a choice
//! what its alternation matches, a sequence what its production matches, a
//! literal its own bytes, the empty expression the empty stretch, and the
//! failing expression nothing. The laws here say, in those terms, what the
//! productions and alternations that the builder makes match.

use crate::grammar::{alt_fold, lemma_pool_add_again, pos_of, seq_atoms, start_body, without, AtomV, ExprV, Grammar};
use crate::pool::pool_add;
use crate::language::{
    accepts, alt_matches, atom_matches, lemma_alt_of_prod, lemma_alt_split, lemma_atom_only, lemma_capture, lemma_empty_prod,
    lemma_empty_prod_only, lemma_end, lemma_prod_append, lemma_prod_extend, lemma_prod_single, lemma_prod_split,
    lemma_prod_unappend, prod_matches,
};
use vstd::prelude::*;

verus! {

/// Expression `e` matches `t[i..j]`.
pub open spec fn expr_matches(g: &Grammar, t: Seq<u8>, e: ExprV, i: int, j: int) -> bool {
    match e {
        ExprV::Choice(a) => alt_matches(g, t, a, i, j),
        ExprV::Sequence(p) => prod_matches(g, t, g.prods()[p as int], i, j),
        ExprV::Literal(l) => atom_matches(g, t, AtomV::Literal(l), i, j),
        ExprV::Empty => i == j,
        ExprV::Fail => false,
    }
}

/// The expressions `es`, one after another, match `t[i..j]`.
pub open spec fn exprs_match(g: &Grammar, t: Seq<u8>, es: Seq<ExprV>, i: int, j: int) -> bool
    decreases es.len(),
{
    if es.len() == 0 {
        i == j
    } else {
        exists|k: int| exprs_match(g, t, es.drop_last(), i, k) && #[trigger] expr_matches(g, t, es.last(), k, j)
    }
}

/// Every sequence that `es` names is one of the productions `prods`, and
/// those productions are the first ones of `g`.
pub open spec fn names_within(g: &Grammar, prods: Seq<Seq<AtomV>>, es: Seq<ExprV>) -> bool {
    &&& prods.len() <= g.prods().len()
    &&& forall|q: int| 0 <= q < prods.len() ==> #[trigger] g.prods()[q] == prods[q]
    &&& forall|k: int| 0 <= k < es.len() ==> (#[trigger] es[k] matches ExprV::Sequence(q) ==> q < prods.len())
}

/// A capture of an alternation matches what the alternation matches.
proof fn lemma_capture_exact(g: &Grammar, t: Seq<u8>, a: nat, i: int, j: int)
    ensures
        atom_matches(g, t, AtomV::Capture(a), i, j) <==> alt_matches(g, t, a, i, j),
{
    if alt_matches(g, t, a, i, j) {
        lemma_capture(g, t, a, i, j);
    }
    if atom_matches(g, t, AtomV::Capture(a), i, j) {
        lemma_atom_only(g, t, AtomV::Capture(a), i, j);
    }
}

/// The production that a sequence of expressions is built into matches
/// exactly where the expressions, in the order given, match one after
/// another.
pub proof fn lemma_seq_meaning(
    g: &Grammar,
    t: Seq<u8>,
    prods: Seq<Seq<AtomV>>,
    es: Seq<ExprV>,
    body: Seq<AtomV>,
    i: int,
    j: int,
)
    requires
        names_within(g, prods, es),
        seq_atoms(prods, es) == Some(body),
    ensures
        prod_matches(g, t, body, i, j) <==> exprs_match(g, t, es, i, j),
    decreases es.len(),
{
    if es.len() == 0 {
        assert(body =~= Seq::<AtomV>::empty());
        if prod_matches(g, t, body, i, j) {
            lemma_empty_prod_only(g, t, i, j);
        }
        if i == j {
            lemma_empty_prod(g, t, i);
        }
    } else {
        let rest = es.drop_last();
        let e = es.last();
        assert forall|k: int| 0 <= k < rest.len() implies (#[trigger] rest[k] matches ExprV::Sequence(q) ==> q
            < prods.len()) by {
            assert(rest[k] == es[k]);
        }
        assert(es[es.len() - 1] == e);
        let b0 = seq_atoms(prods, rest)->0;
        let part = match e {
            ExprV::Choice(a) => seq![AtomV::Capture(a)],
            ExprV::Sequence(p) => prods[p as int],
            ExprV::Literal(l) => seq![AtomV::Literal(l)],
            _ => Seq::<AtomV>::empty(),
        };
        assert(body =~= b0 + part);
        assert forall|k: int, m: int| #[trigger] prod_matches(g, t, part, k, m) <==> expr_matches(g, t, e, k, m) by {
            match e {
                ExprV::Choice(a) => {
                    lemma_prod_single(g, t, AtomV::Capture(a), k, m);
                    lemma_capture_exact(g, t, a, k, m);
                },
                ExprV::Literal(l) => {
                    lemma_prod_single(g, t, AtomV::Literal(l), k, m);
                },
                ExprV::Sequence(p) => {},
                _ => {
                    if prod_matches(g, t, part, k, m) {
                        lemma_empty_prod_only(g, t, k, m);
                    }
                    if k == m {
                        lemma_empty_prod(g, t, k);
                    }
                },
            }
        }
        if prod_matches(g, t, body, i, j) {
            let k = lemma_prod_unappend(g, t, b0, part, i, j);
            lemma_seq_meaning(g, t, prods, rest, b0, i, k);
            assert(expr_matches(g, t, e, k, j));
        }
        if exprs_match(g, t, es, i, j) {
            let k = choose|k: int| exprs_match(g, t, rest, i, k) && #[trigger] expr_matches(g, t, e, k, j);
            lemma_seq_meaning(g, t, prods, rest, b0, i, k);
            assert(prod_matches(g, t, part, k, j));
            lemma_prod_append(g, t, b0, part, i, k, j);
        }
    }
}

/// Leaving out a value from a list of expressions keeps every other
/// element, in order and as often as it occurs, and nothing else.
pub proof fn lemma_without_filter(es: Seq<ExprV>, x: ExprV)
    ensures
        without(es, x) == es.filter(|e: ExprV| e != x),
    decreases es.len(),
{
    reveal(Seq::filter);
    if es.len() > 0 {
        lemma_without_filter(es.drop_last(), x);
    }
}

/// Leaving the empty expressions out of a list changes nothing of what the
/// list matches.
pub proof fn lemma_without_empty_meaning(g: &Grammar, t: Seq<u8>, es: Seq<ExprV>, i: int, j: int)
    ensures
        exprs_match(g, t, without(es, ExprV::Empty), i, j) <==> exprs_match(g, t, es, i, j),
    decreases es.len(),
{
    if es.len() > 0 {
        let rest = es.drop_last();
        let e = es.last();
        let wr = without(rest, ExprV::Empty);
        if e == ExprV::Empty {
            lemma_without_empty_meaning(g, t, rest, i, j);
            if exprs_match(g, t, es, i, j) {
                let k = choose|k: int| exprs_match(g, t, rest, i, k) && #[trigger] expr_matches(g, t, e, k, j);
            }
            if exprs_match(g, t, rest, i, j) {
                assert(expr_matches(g, t, e, j, j));
            }
        } else {
            let w = wr.push(e);
            assert(w.drop_last() =~= wr);
            assert(w.last() == e);
            if exprs_match(g, t, es, i, j) {
                let k = choose|k: int| exprs_match(g, t, rest, i, k) && #[trigger] expr_matches(g, t, e, k, j);
                lemma_without_empty_meaning(g, t, rest, i, k);
                assert(exprs_match(g, t, w, i, j));
            }
            if exprs_match(g, t, w, i, j) {
                let k = choose|k: int| exprs_match(g, t, wr, i, k) && #[trigger] expr_matches(g, t, e, k, j);
                lemma_without_empty_meaning(g, t, rest, i, k);
            }
        }
    }
}

/// A grammar whose start production was built from expression `e` accepts
/// exactly the inputs that `e` matches from their first byte to their last.
pub proof fn lemma_start_meaning(g: &Grammar, t: Seq<u8>, prods: Seq<Seq<AtomV>>, e: ExprV)
    requires
        names_within(g, prods, seq![e]),
        g.start_view() matches Some(p) && p < g.prods().len() && g.prods()[p as int] == start_body(prods, e),
    ensures
        accepts(g, t) <==> expr_matches(g, t, e, 0, t.len() as int),
{
    let n = t.len() as int;
    assert(seq![e][0] == e);
    let body = start_body(prods, e);
    let part = match e {
        ExprV::Choice(a) => seq![AtomV::Capture(a)],
        ExprV::Sequence(p) => prods[p as int],
        ExprV::Literal(l) => seq![AtomV::Literal(l)],
        ExprV::Empty => Seq::<AtomV>::empty(),
        ExprV::Fail => seq![AtomV::Fail],
    };
    assert(body =~= part.push(AtomV::End) || e == ExprV::Fail);
    if e == ExprV::Fail {
        if accepts(g, t) {
            lemma_prod_single(g, t, AtomV::Fail, 0, n);
            lemma_atom_only(g, t, AtomV::Fail, 0, n);
        }
    } else {
        assert(body =~= part.push(AtomV::End));
        assert forall|k: int, m: int| #[trigger] prod_matches(g, t, part, k, m) <==> expr_matches(g, t, e, k, m) by {
            match e {
                ExprV::Choice(a) => {
                    lemma_prod_single(g, t, AtomV::Capture(a), k, m);
                    lemma_capture_exact(g, t, a, k, m);
                },
                ExprV::Literal(l) => {
                    lemma_prod_single(g, t, AtomV::Literal(l), k, m);
                },
                ExprV::Sequence(p) => {},
                _ => {
                    if prod_matches(g, t, part, k, m) {
                        lemma_empty_prod_only(g, t, k, m);
                    }
                    if k == m {
                        lemma_empty_prod(g, t, k);
                    }
                },
            }
        }
        if accepts(g, t) {
            let k = lemma_prod_split(g, t, part, AtomV::End, 0, n);
            lemma_atom_only(g, t, AtomV::End, k, n);
            assert(prod_matches(g, t, part, 0, n));
        }
        if expr_matches(g, t, e, 0, n) {
            assert(prod_matches(g, t, part, 0, n));
            lemma_end(g, t);
            lemma_prod_extend(g, t, part, AtomV::End, 0, n, n);
        }
    }
}

/// What expression `e`, listed among the alternatives of an alternation,
/// puts into it, with the productions `prods`, the alternations `alts` and
/// the empty production `empty` as they stand: production `p`.
pub open spec fn contributes(
    prods: Seq<Seq<AtomV>>,
    alts: Seq<Option<Set<usize>>>,
    empty: nat,
    e: ExprV,
    p: usize,
) -> bool {
    match e {
        ExprV::Choice(a) => match alts[a as int] {
            Some(inner) => inner.contains(p),
            None => p < prods.len() && prods[p as int] == seq![AtomV::Capture(a)],
        },
        ExprV::Sequence(q) => p == q,
        ExprV::Literal(l) => p < prods.len() && prods[p as int] == seq![AtomV::Literal(l)],
        ExprV::Empty => p == empty,
        ExprV::Fail => false,
    }
}

/// What an expression puts into an alternation stays when productions are
/// added after the ones it names.
proof fn lemma_contributes_grow(
    prods: Seq<Seq<AtomV>>,
    more: Seq<Seq<AtomV>>,
    alts: Seq<Option<Set<usize>>>,
    empty: nat,
    e: ExprV,
    p: usize,
)
    requires
        prods.len() <= more.len(),
        forall|q: int| 0 <= q < prods.len() ==> #[trigger] more[q] == prods[q],
        contributes(prods, alts, empty, e, p),
    ensures
        contributes(more, alts, empty, e, p),
{
    match e {
        ExprV::Choice(a) => {
            if alts[a as int] is None {
                assert(more[p as int] == prods[p as int]);
            }
        },
        ExprV::Literal(l) => {
            assert(more[p as int] == prods[p as int]);
        },
        _ => {},
    }
}

/// An alternation built from a list of expressions holds what each of them
/// puts into it, and nothing else: all the productions of an alternation
/// already defined, a production capturing an alternation not yet defined,
/// the production of a sequence, a production of the one literal, and the
/// empty production; a failing expression puts in nothing. Productions are
/// only ever added after the ones there were.
pub proof fn lemma_alt_fold_meaning(
    prods: Seq<Seq<AtomV>>,
    alts: Seq<Option<Set<usize>>>,
    empty: nat,
    es: Seq<ExprV>,
)
    requires
        forall|k: int|
            0 <= k < es.len() ==> match #[trigger] es[k] {
                ExprV::Choice(a) => a < alts.len(),
                ExprV::Sequence(q) => q < prods.len(),
                _ => true,
            },
        prods.len() + es.len() <= usize::MAX,
        empty < prods.len(),
    ensures
        ({
            let (p2, set) = alt_fold(prods, alts, empty, es);
            &&& prods.len() <= p2.len() <= prods.len() + es.len()
            &&& forall|q: int| 0 <= q < prods.len() ==> #[trigger] p2[q] == prods[q]
            &&& forall|p: usize|
                #[trigger] set.contains(p) ==> exists|k: int| 0 <= k < es.len() && #[trigger] contributes(p2, alts, empty, es[k], p)
            &&& forall|k: int|
                0 <= k < es.len() ==> match #[trigger] es[k] {
                    ExprV::Choice(a) => alts[a as int] is Some ==> alts[a as int]->0.subset_of(set),
                    _ => true,
                }
            &&& forall|k: int|
                0 <= k < es.len() && es[k] != ExprV::Fail && !(#[trigger] es[k] matches ExprV::Choice(a) && alts[a as int] is Some)
                    ==> exists|p: usize| set.contains(p) && #[trigger] contributes(p2, alts, empty, es[k], p)
        }),
    decreases es.len(),
{
    if es.len() > 0 {
        let rest = es.drop_last();
        let e = es.last();
        assert(es[es.len() - 1] == e);
        assert forall|k: int|
            0 <= k < rest.len() implies match #[trigger] rest[k] {
            ExprV::Choice(a) => a < alts.len(),
            ExprV::Sequence(q) => q < prods.len(),
            _ => true,
        } by {
            assert(rest[k] == es[k]);
        }
        lemma_alt_fold_meaning(prods, alts, empty, rest);
        let (p1, s1) = alt_fold(prods, alts, empty, rest);
        let (p2, s2) = alt_fold(prods, alts, empty, es);
        assert((p2, s2) == crate::grammar::alt_step(p1, alts, empty, s1, e));
        // the productions only grow
        match e {
            ExprV::Choice(a) => {
                if alts[a as int] is None {
                    lemma_pool_add_again(p1, seq![AtomV::Capture(a)]);
                    assert(s2 == s1.insert(pos_of(p2, seq![AtomV::Capture(a)]) as usize));
                }
            },
            ExprV::Literal(l) => {
                lemma_pool_add_again(p1, seq![AtomV::Literal(l)]);
                assert(s2 == s1.insert(pos_of(p2, seq![AtomV::Literal(l)]) as usize));
            },
            _ => {},
        }
        assert(p1.len() <= p2.len());
        assert forall|q: int| 0 <= q < p1.len() implies #[trigger] p2[q] == p1[q] by {}
        // nothing but contributions
        assert forall|p: usize| #[trigger] s2.contains(p) implies exists|k: int|
            0 <= k < es.len() && #[trigger] contributes(p2, alts, empty, es[k], p) by {
            if s1.contains(p) {
                let k = choose|k: int| 0 <= k < rest.len() && #[trigger] contributes(p1, alts, empty, rest[k], p);
                assert(rest[k] == es[k]);
                lemma_contributes_grow(p1, p2, alts, empty, es[k], p);
            } else {
                match e {
                    ExprV::Choice(a) => {
                        if alts[a as int] is None {
                            assert(p as int == pos_of(p2, seq![AtomV::Capture(a)]));
                        }
                    },
                    ExprV::Literal(l) => {
                        assert(p as int == pos_of(p2, seq![AtomV::Literal(l)]));
                    },
                    _ => {},
                }
                assert(contributes(p2, alts, empty, es[es.len() - 1], p));
            }
        }
        // defined choices put in all they hold
        assert forall|k: int|
            0 <= k < es.len() implies match #[trigger] es[k] {
            ExprV::Choice(a) => alts[a as int] is Some ==> alts[a as int]->0.subset_of(s2),
            _ => true,
        } by {
            if k < rest.len() {
                assert(rest[k] == es[k]);
            }
        }
        // every other expression puts something in
        assert forall|k: int|
            0 <= k < es.len() && es[k] != ExprV::Fail && !(#[trigger] es[k] matches ExprV::Choice(a) && alts[a as int] is Some)
                implies exists|p: usize| s2.contains(p) && #[trigger] contributes(p2, alts, empty, es[k], p) by {
            if k < rest.len() {
                assert(rest[k] == es[k]);
                let p = choose|p: usize| s1.contains(p) && #[trigger] contributes(p1, alts, empty, rest[k], p);
                lemma_contributes_grow(p1, p2, alts, empty, es[k], p);
                assert(s2.contains(p));
            } else {
                match e {
                    ExprV::Sequence(q) => {
                        assert(contributes(p2, alts, empty, e, q as usize));
                    },
                    ExprV::Empty => {
                        assert(contributes(p2, alts, empty, e, empty as usize));
                    },
                    ExprV::Choice(a) => {
                        let p = pos_of(p2, seq![AtomV::Capture(a)]) as usize;
                        assert(s2.contains(p));
                        assert(contributes(p2, alts, empty, e, p));
                    },
                    ExprV::Literal(l) => {
                        let p = pos_of(p2, seq![AtomV::Literal(l)]) as usize;
                        assert(s2.contains(p));
                        assert(contributes(p2, alts, empty, e, p));
                    },
                    _ => {},
                }
            }
        }
    }
}

/// An alternation built from a list of expressions matches exactly what one
/// of the expressions matches, in any grammar that keeps the productions
/// made and the alternations that the list names as they were when it was
/// built; a choice of an alternation not yet defined then matches whatever
/// that alternation has come to match.
pub proof fn lemma_alt_meaning(
    g: &Grammar,
    t: Seq<u8>,
    prods: Seq<Seq<AtomV>>,
    alts: Seq<Option<Set<usize>>>,
    empty: nat,
    es: Seq<ExprV>,
    a: nat,
    i: int,
    j: int,
)
    requires
        forall|k: int|
            0 <= k < es.len() ==> match #[trigger] es[k] {
                ExprV::Choice(b) => b < alts.len() && b < g.alts().len() && (alts[b as int] is Some ==> g.alts()[b as int]
                    == alts[b as int]),
                ExprV::Sequence(q) => q < prods.len(),
                _ => true,
            },
        forall|b: int, q: usize|
            0 <= b < alts.len() && alts[b] is Some && #[trigger] alts[b]->0.contains(q) ==> q < prods.len(),
        prods.len() + es.len() <= usize::MAX,
        empty < prods.len(),
        prods[empty as int] == Seq::<AtomV>::empty(),
        alt_fold(prods, alts, empty, es).0.len() <= g.prods().len(),
        forall|q: int| 0 <= q < alt_fold(prods, alts, empty, es).0.len() ==> #[trigger] g.prods()[q] == alt_fold(
            prods,
            alts,
            empty,
            es,
        ).0[q],
        a < g.alts().len(),
        g.alts()[a as int] == Some(alt_fold(prods, alts, empty, es).1),
    ensures
        alt_matches(g, t, a, i, j) <==> exists|k: int| 0 <= k < es.len() && #[trigger] expr_matches(g, t, es[k], i, j),
{
    lemma_alt_fold_meaning(prods, alts, empty, es);
    let (p2, set) = alt_fold(prods, alts, empty, es);
    assert forall|p: usize| #[trigger] set.contains(p) implies p < p2.len() by {
        let k = choose|k: int| 0 <= k < es.len() && #[trigger] contributes(p2, alts, empty, es[k], p);
        if let ExprV::Choice(b) = es[k] {
            if alts[b as int] is Some {
                assert(alts[b as int]->0.contains(p));
            }
        }
    }
    if alt_matches(g, t, a, i, j) {
        let p = lemma_alt_split(g, t, a, i, j);
        let k = choose|k: int| 0 <= k < es.len() && #[trigger] contributes(p2, alts, empty, es[k], p);
        assert(g.prods()[p as int] == p2[p as int]);
        match es[k] {
            ExprV::Choice(b) => {
                if alts[b as int] is Some {
                    lemma_alt_of_prod(g, t, b, p, i, j);
                } else {
                    lemma_prod_single(g, t, AtomV::Capture(b), i, j);
                    lemma_capture_exact(g, t, b, i, j);
                }
            },
            ExprV::Sequence(q) => {
                assert(g.prods()[q as int] == prods[q as int]);
            },
            ExprV::Literal(l) => {
                lemma_prod_single(g, t, AtomV::Literal(l), i, j);
            },
            ExprV::Empty => {
                assert(g.prods()[empty as int] == prods[empty as int]);
                lemma_empty_prod_only(g, t, i, j);
            },
            ExprV::Fail => {},
        }
        assert(expr_matches(g, t, es[k], i, j));
    }
    if exists|k: int| 0 <= k < es.len() && #[trigger] expr_matches(g, t, es[k], i, j) {
        let k = choose|k: int| 0 <= k < es.len() && #[trigger] expr_matches(g, t, es[k], i, j);
        match es[k] {
            ExprV::Choice(b) => {
                if alts[b as int] is Some {
                    let p = lemma_alt_split(g, t, b, i, j);
                    assert(alts[b as int]->0.subset_of(set));
                    lemma_alt_of_prod(g, t, a, p, i, j);
                } else {
                    let p = choose|p: usize| set.contains(p) && #[trigger] contributes(p2, alts, empty, es[k], p);
                    lemma_prod_single(g, t, AtomV::Capture(b), i, j);
                    lemma_capture_exact(g, t, b, i, j);
                    lemma_alt_of_prod(g, t, a, p, i, j);
                }
            },
            ExprV::Sequence(q) => {
                let p = choose|p: usize| set.contains(p) && #[trigger] contributes(p2, alts, empty, es[k], p);
                lemma_alt_of_prod(g, t, a, p, i, j);
            },
            ExprV::Literal(l) => {
                let p = choose|p: usize| set.contains(p) && #[trigger] contributes(p2, alts, empty, es[k], p);
                lemma_prod_single(g, t, AtomV::Literal(l), i, j);
                lemma_alt_of_prod(g, t, a, p, i, j);
            },
            ExprV::Empty => {
                let p = choose|p: usize| set.contains(p) && #[trigger] contributes(p2, alts, empty, es[k], p);
                assert(g.prods()[empty as int] == prods[empty as int]);
                lemma_empty_prod(g, t, i);
                lemma_alt_of_prod(g, t, a, p, i, j);
            },
            ExprV::Fail => {},
        }
    }
}

} // verus!
