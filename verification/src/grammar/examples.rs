//! Example RegexLR grammars.
//! Mostly present for testing

use crate::grammar::{
    alt_fold, lemma_pos_of, nt_lookup, seq_atoms, start_body, views, without, AtomV, Expr, ExprV,
    Grammar,
};
use crate::language::consumes;
use crate::pool::pool_add;
use crate::matcher::{captures_below, only_direct_left_recursion, ranked};
use vstd::utf8::encode_utf8;
use vstd::prelude::*;

verus! {

/// Matches "foobar" or "baz"
pub fn foobarbaz() -> (g: Grammar)
    ensures
        g.wf(),
        g.strs() == seq!["foo"@, "bar"@, "baz"@],
        g.prods() == seq![
            Seq::<AtomV>::empty(),
            seq![AtomV::Literal(0), AtomV::Literal(1)],
            seq![AtomV::Literal(2)],
            seq![AtomV::Capture(0), AtomV::End],
        ],
        g.alts() == seq![Some(Set::<usize>::empty().insert(1).insert(2))],
        g.nts() == Seq::<(Seq<char>, nat)>::empty(),
        g.start_view() == Some(3nat),
        only_direct_left_recursion(&g),
{
    let mut g = Grammar::new();
    proof {
        reveal_strlit("foo");
        reveal_strlit("bar");
        reveal_strlit("baz");
    }

    let foo = g.lit("foo");
    proof {
        assert(g.strs() =~= seq!["foo"@]);
        lemma_pos_of(g.strs(), "foo"@, 0);
    }
    let bar = g.lit("bar");
    proof {
        assert(!seq!["foo"@].contains("bar"@)) by {
            assert("foo"@[0] != "bar"@[0]);
        }
        assert(g.strs() =~= seq!["foo"@, "bar"@]);
        lemma_pos_of(g.strs(), "bar"@, 1);
    }
    let ghost prods0 = g.prods();
    let parts = vec![foo, bar];
    let ghost v1 = parts@;
    let b1 = g.seq(parts);
    let ghost body1 = seq![AtomV::Literal(0), AtomV::Literal(1)];
    proof {
        reveal_with_fuel(without, 3);
        reveal_with_fuel(seq_atoms, 3);
        assert(views(v1) =~= seq![ExprV::Literal(0), ExprV::Literal(1)]);
        let fs = without(views(v1), ExprV::Empty);
        assert(fs =~= views(v1));
        assert(seq_atoms(prods0, fs) =~= Some(body1)) by {
            assert(seq_atoms(prods0, fs.drop_last()) =~= Some(seq![body1[0]]));
        }
        assert(prods0 =~~= seq![Seq::<AtomV>::empty()]);
        assert(g.prods() =~~= seq![Seq::<AtomV>::empty(), body1]);
        lemma_pos_of(g.prods(), body1, 1);
    }

    let baz = g.lit("baz");
    proof {
        assert(!seq!["foo"@, "bar"@].contains("baz"@)) by {
            assert("foo"@[0] != "baz"@[0]);
            assert("bar"@[2] != "baz"@[2]);
        }
        assert(g.strs() =~= seq!["foo"@, "bar"@, "baz"@]);
        lemma_pos_of(g.strs(), "baz"@, 2);
    }

    let ghost prods1 = g.prods();
    let choices = vec![b1, baz];
    let ghost v2 = choices@;
    let b0 = g.alt(choices);
    let ghost body2 = seq![AtomV::Literal(2)];
    proof {
        reveal_with_fuel(without, 3);
        reveal_with_fuel(alt_fold, 3);
        assert(views(v2) =~= seq![ExprV::Sequence(1), ExprV::Literal(2)]);
        let fs = without(views(v2), ExprV::Fail);
        assert(fs =~= views(v2));
        assert(!prods1.contains(body2)) by {
            if prods1.contains(body2) {
                let k = choose|k: int| 0 <= k < prods1.len() && prods1[k] == body2;
                assert(prods1[k].len() != 1);
            }
        }
        let p2 = seq![Seq::<AtomV>::empty(), body1, body2];
        assert(pool_add(prods1, body2) =~~= p2);
        lemma_pos_of(p2, body2, 2);
        assert(g.prods() =~~= p2);
        assert(g.alts() =~= seq![Some(Set::<usize>::empty().insert(1).insert(2))]);
    }
    let ghost before_start = g;
    g.start(b0);
    proof {
        let sb = seq![AtomV::Capture(0), AtomV::End];
        assert(start_body(before_start.prods(), ExprV::Choice(0)) =~= sb);
        assert(!before_start.prods().contains(sb)) by {
            if before_start.prods().contains(sb) {
                let k = choose|k: int| 0 <= k < before_start.prods().len() && before_start.prods()[k] == sb;
                assert(before_start.prods()[k].len() != 2 || before_start.prods()[k][0] != AtomV::Capture(0));
            }
        }
        assert(g.prods() =~~= seq![Seq::<AtomV>::empty(), body1, body2, sb]);
        lemma_pos_of(g.prods(), sb, 3);
        let rank = |a: nat| 0nat;
        assert forall|a: int, p: usize|
            0 <= a < g.alts().len() && g.alts()[a] is Some && #[trigger] g.alts()[a]->0.contains(p) implies captures_below(
            &g,
            rank,
            g.prods()[p as int],
            a as nat,
        ) by {
            assert(p == 1 || p == 2);
        }
        assert(ranked(&g, rank));
    }

    g
}

/// Matches any set of properly nested `(` and `)` parens
pub fn parens() -> (g: Grammar)
    ensures
        g.wf(),
        g.strs() == seq!["("@, ")"@],
        g.prods() == seq![
            Seq::<AtomV>::empty(),
            seq![AtomV::Literal(0), AtomV::Capture(0), AtomV::Literal(1), AtomV::Capture(0)],
            seq![AtomV::Capture(0), AtomV::End],
        ],
        g.alts() == seq![Some(Set::<usize>::empty().insert(1).insert(0))],
        g.nts() == seq![("P"@, 0nat)],
        g.start_view() == Some(2nat),
        only_direct_left_recursion(&g),
{
    let mut g = Grammar::new();
    proof {
        reveal_strlit("(");
        reveal_strlit(")");
        reveal_strlit("P");
    }

    let p = g.call("P");
    proof {
        assert(g.alts() =~= seq![None]);
        assert(g.nts() =~= seq![("P"@, 0nat)]);
    }
    let open = g.lit("(");
    proof {
        assert(g.strs() =~= seq!["("@]);
        lemma_pos_of(g.strs(), "("@, 0);
    }
    let close = g.lit(")");
    proof {
        assert(!seq!["("@].contains(")"@)) by {
            assert("("@[0] != ")"@[0]);
        }
        assert(g.strs() =~= seq!["("@, ")"@]);
        lemma_pos_of(g.strs(), ")"@, 1);
    }
    let parts = vec![open, p, close, p];
    let ghost v1 = parts@;
    let ghost prods0 = g.prods();
    let nested_ps = g.seq(parts);
    let ghost body = seq![AtomV::Literal(0), AtomV::Capture(0), AtomV::Literal(1), AtomV::Capture(0)];
    proof {
        reveal_with_fuel(without, 5);
        reveal_with_fuel(seq_atoms, 5);
        assert(views(v1) =~= seq![ExprV::Literal(0), ExprV::Choice(0), ExprV::Literal(1), ExprV::Choice(0)]);
        let fs = without(views(v1), ExprV::Empty);
        assert(fs =~= views(v1));
        assert(seq_atoms(prods0, fs) =~= Some(body)) by {
            assert(seq_atoms(prods0, fs.drop_last().drop_last().drop_last()) =~= Some(seq![body[0]]));
            assert(seq_atoms(prods0, fs.drop_last().drop_last()) =~= Some(seq![body[0], body[1]]));
            assert(seq_atoms(prods0, fs.drop_last()) =~= Some(seq![body[0], body[1], body[2]]));
        }
        assert(prods0 =~~= seq![Seq::<AtomV>::empty()]);
        assert(g.prods() =~~= seq![Seq::<AtomV>::empty(), body]);
        lemma_pos_of(g.prods(), body, 1);
        assert(encode_utf8("("@).len() > 0);
    }

    let rule_exprs = vec![nested_ps, Expr::Empty];
    let ghost v2 = rule_exprs@;
    let ghost before_rule = g;
    g.rule("P", rule_exprs);
    proof {
        reveal_with_fuel(alt_fold, 3);
        assert(views(v2) =~= seq![ExprV::Sequence(1), ExprV::Empty]);
        assert(before_rule.nts()[0].0 == "P"@);
        assert(nt_lookup(before_rule.nts(), "P"@) == Some(0nat));
        assert(g.prods() =~~= before_rule.prods());
        assert(g.alts() =~= seq![Some(Set::<usize>::empty().insert(1).insert(0))]);
    }
    let ghost before_start = g;
    g.start(p);
    proof {
        let sb = seq![AtomV::Capture(0), AtomV::End];
        assert(start_body(before_start.prods(), ExprV::Choice(0)) =~= sb);
        assert(!before_start.prods().contains(sb)) by {
            if before_start.prods().contains(sb) {
                let k = choose|k: int| 0 <= k < before_start.prods().len() && before_start.prods()[k] == sb;
                assert(before_start.prods()[k].len() != 2);
            }
        }
        assert(g.prods() =~~= seq![Seq::<AtomV>::empty(), body, sb]);
        lemma_pos_of(g.prods(), sb, 2);
        let rank = |a: nat| 0nat;
        assert forall|a: int, q: usize|
            0 <= a < g.alts().len() && g.alts()[a] is Some && #[trigger] g.alts()[a]->0.contains(q) implies captures_below(
            &g,
            rank,
            g.prods()[q as int],
            a as nat,
        ) by {
            assert(q == 0 || q == 1);
            assert(consumes(&g, g.prods()[q as int][0]) || g.prods()[q as int].len() == 0);
        }
        assert(ranked(&g, rank));
    }

    g
}

/// Left-recursively matches `a*` (any string containing only `a`s)
pub fn left_a_star() -> (g: Grammar)
    ensures
        g.wf(),
        g.strs() == seq!["a"@],
        g.prods() == seq![
            Seq::<AtomV>::empty(),
            seq![AtomV::Capture(0), AtomV::Literal(0)],
            seq![AtomV::Capture(0), AtomV::End],
        ],
        g.alts() == seq![Some(Set::<usize>::empty().insert(1).insert(0))],
        g.nts() == seq![("a_star"@, 0nat)],
        g.start_view() == Some(2nat),
        only_direct_left_recursion(&g),
{
    let mut g = Grammar::new();

    let a_star = g.call("a_star");
    proof {
        assert(g.alts() =~= seq![None]);
        assert(g.nts() =~= seq![("a_star"@, 0nat)]);
    }
    proof {
        reveal_strlit("a");
    }
    let a = g.lit("a");
    proof {
        assert(g.strs() =~= seq!["a"@]);
        lemma_pos_of(g.strs(), "a"@, 0);
    }
    let ghost prods0 = g.prods();
    let parts = vec![a_star, a];
    let ghost v1 = parts@;
    let a_rec = g.seq(parts);
    let ghost body = seq![AtomV::Capture(0), AtomV::Literal(0)];
    proof {
        reveal_with_fuel(without, 3);
        reveal_with_fuel(seq_atoms, 3);
        reveal_strlit("a");
        assert(views(v1) =~= seq![ExprV::Choice(0), ExprV::Literal(0)]);
        let fs = without(views(v1), ExprV::Empty);
        assert(fs =~= views(v1));
        assert(seq_atoms(prods0, fs) =~= Some(body)) by {
            assert(seq_atoms(prods0, fs.drop_last()) =~= Some(seq![body[0]]));
        }
        assert(prods0 =~~= seq![Seq::<AtomV>::empty()]);
        assert(g.prods() =~~= seq![Seq::<AtomV>::empty(), body]);
        lemma_pos_of(g.prods(), body, 1);
    }

    let rule_exprs = vec![a_rec, Expr::Empty];
    let ghost v2 = rule_exprs@;
    let ghost before_rule = g;
    g.rule("a_star", rule_exprs);
    proof {
        reveal_with_fuel(alt_fold, 3);
        assert(views(v2) =~= seq![ExprV::Sequence(1), ExprV::Empty]);
        assert(before_rule.nts()[0].0 == "a_star"@);
        assert(nt_lookup(before_rule.nts(), "a_star"@) == Some(0nat));
        assert(g.prods() =~~= before_rule.prods());
        assert(g.alts() =~= seq![Some(Set::<usize>::empty().insert(1).insert(0))]);
    }
    let ghost before_start = g;
    g.start(a_star);
    proof {
        let sb = seq![AtomV::Capture(0), AtomV::End];
        assert(start_body(before_start.prods(), ExprV::Choice(0)) =~= sb);
        assert(!before_start.prods().contains(sb)) by {
            if before_start.prods().contains(sb) {
                let k = choose|k: int| 0 <= k < before_start.prods().len() && before_start.prods()[k] == sb;
                assert(before_start.prods()[k].len() != 2 || before_start.prods()[k][1] != AtomV::End);
            }
        }
        assert(g.prods() =~~= seq![Seq::<AtomV>::empty(), body, sb]);
        lemma_pos_of(g.prods(), sb, 2);
        let rank = |a: nat| 0nat;
        assert forall|a: int, q: usize|
            0 <= a < g.alts().len() && g.alts()[a] is Some && #[trigger] g.alts()[a]->0.contains(q) implies captures_below(
            &g,
            rank,
            g.prods()[q as int],
            a as nat,
        ) by {
            assert(q == 0 || q == 1);
            assert(a == 0);
        }
        assert(ranked(&g, rank));
    }

    g
}

} // verus!
