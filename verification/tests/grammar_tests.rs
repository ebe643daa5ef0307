//! Tests for regexlr grammars and the matcher

use regexlr::grammar::examples;
use regexlr::grammar::{Expr, Grammar};
use regexlr::matcher::ParseFailure;
use regexlr::Error;

#[test]
fn test_foobarbaz() {
    let g = examples::foobarbaz();
    assert!(regexlr::matcher::matches(&g, "foobar").is_ok());
    assert!(regexlr::matcher::matches(&g, "baz").is_ok());
    assert!(regexlr::matcher::matches(&g, "foo").is_err());
    assert!(regexlr::matcher::matches(&g, "bar").is_err());
    assert!(regexlr::matcher::matches(&g, "").is_err());
}

#[test]
fn test_parens() {
    let g = examples::parens();
    assert!(regexlr::matcher::matches(&g, "()").is_ok());
    assert!(regexlr::matcher::matches(&g, "()()").is_ok());
    assert!(regexlr::matcher::matches(&g, "(()())()").is_ok());
    assert!(regexlr::matcher::matches(&g, "").is_ok());
    assert!(regexlr::matcher::matches(&g, ")").is_err());
    assert!(regexlr::matcher::matches(&g, "(()").is_err());
    assert!(regexlr::matcher::matches(&g, "())").is_err());
}

#[test]
fn test_left_a_star() {
    let g = examples::left_a_star();
    assert!(regexlr::matcher::matches(&g, "a").is_ok());
    assert!(regexlr::matcher::matches(&g, "").is_ok());
    assert!(regexlr::matcher::matches(&g, "aaa").is_ok());
    assert!(regexlr::matcher::matches(&g, "b").is_err());
    assert!(regexlr::matcher::matches(&g, "aab").is_err());
}

fn only_mismatch_at(f: &ParseFailure, at: usize) -> bool {
    f.position() == at
        && !f.errors().is_empty()
        && f.errors().iter().all(|e| matches!(e, Error::InputDoesNotMatch { location } if *location == at))
}

#[test]
fn missing_start_is_reported() {
    let mut g = Grammar::new();
    let _ = g.lit("x");
    let f = regexlr::matcher::matches(&g, "x").unwrap_err();
    assert_eq!(f.position(), 0);
    assert_eq!(f.errors().len(), 1);
    assert!(matches!(f.errors()[0], Error::MissingStart));
}

#[test]
fn missing_rule_is_reported() {
    let mut g = Grammar::new();
    let q = g.call("Q");
    g.start(q);
    let f = regexlr::matcher::matches(&g, "anything").unwrap_err();
    assert_eq!(f.position(), 0);
    assert_eq!(f.errors().len(), 1);
    match f.errors()[0] {
        Error::MissingRule { ind } => assert_eq!(ind.to_usize(), 0),
        _ => panic!("expected a missing rule"),
    }
}

#[test]
fn furthest_failure_positions() {
    let g = examples::foobarbaz();
    // "foo" matches, then the input ends where "bar" should start
    let f = regexlr::matcher::matches(&g, "foo").unwrap_err();
    assert!(only_mismatch_at(&f, 3));
    assert_eq!(f.errors().len(), 1);
    // "foo" matches, then "bar" departs from the input at its third byte
    let f = regexlr::matcher::matches(&g, "foobaz").unwrap_err();
    assert!(only_mismatch_at(&f, 5));
    assert_eq!(f.errors().len(), 1);
    // "baz" gets furthest, to its third byte
    let f = regexlr::matcher::matches(&g, "bar").unwrap_err();
    assert!(only_mismatch_at(&f, 2));
    // trailing input: end of input expected after "baz"
    let f = regexlr::matcher::matches(&g, "bazz").unwrap_err();
    assert!(only_mismatch_at(&f, 3));
    // a cut-off literal fails where the input ends
    let f = regexlr::matcher::matches(&g, "fo").unwrap_err();
    assert!(only_mismatch_at(&f, 2));
    // both literals fail at once on the empty input
    let f = regexlr::matcher::matches(&g, "").unwrap_err();
    assert!(only_mismatch_at(&f, 0));
    assert_eq!(f.errors().len(), 2);
}

#[test]
fn rule_without_productions_reports_an_error() {
    let mut g = Grammar::new();
    let x = g.call("X");
    g.rule("X", vec![Expr::Fail]);
    g.start(x);
    let f = regexlr::matcher::matches(&g, "").unwrap_err();
    assert!(only_mismatch_at(&f, 0));
    assert_eq!(f.errors().len(), 1);
}

#[test]
fn empty_literal_is_empty() {
    let mut g = Grammar::new();
    assert!(matches!(g.lit(""), Expr::Empty));
    assert!(matches!(g.lit("a"), Expr::Literal(_)));
}

#[test]
fn literals_are_deduplicated() {
    let mut g = Grammar::new();
    let a1 = g.lit("a");
    let b = g.lit("b");
    let a2 = g.lit("a");
    match (a1, b, a2) {
        (Expr::Literal(i), Expr::Literal(j), Expr::Literal(k)) => {
            assert_eq!(i.to_usize(), k.to_usize());
            assert_ne!(i.to_usize(), j.to_usize());
            assert_eq!(g.string(i).as_str(), "a");
            assert_eq!(g.string(j).as_str(), "b");
        }
        _ => panic!("expected literals"),
    }
}

#[test]
fn alt_drops_failures() {
    let mut g = Grammar::new();
    assert!(matches!(g.alt(vec![]), Expr::Fail));
    assert!(matches!(g.alt(vec![Expr::Fail, Expr::Fail]), Expr::Fail));
    let a = g.lit("a");
    match g.alt(vec![Expr::Fail, a, Expr::Fail]) {
        Expr::Literal(i) => assert_eq!(g.string(i).as_str(), "a"),
        _ => panic!("expected the single literal"),
    }
    let b = g.lit("b");
    let n = g.alternation_count();
    match g.alt(vec![a, b]) {
        Expr::Choice(i) => assert_eq!(i.to_usize(), n),
        _ => panic!("expected a new choice"),
    }
    assert_eq!(g.alternation_count(), n + 1);
}

#[test]
fn seq_drops_empties_and_fails_on_failure() {
    let mut g = Grammar::new();
    assert!(matches!(g.seq(vec![]), Expr::Empty));
    assert!(matches!(g.seq(vec![Expr::Empty, Expr::Empty]), Expr::Empty));
    let a = g.lit("a");
    match g.seq(vec![Expr::Empty, a]) {
        Expr::Literal(i) => assert_eq!(g.string(i).as_str(), "a"),
        _ => panic!("expected the single literal"),
    }
    let b = g.lit("b");
    assert!(matches!(g.seq(vec![a, Expr::Fail, b]), Expr::Fail));
    let before = g.production_count();
    let ab = g.seq(vec![a, b]);
    assert_eq!(g.production_count(), before + 1);
    // the same sequence again is the same production
    let ab2 = g.seq(vec![a, Expr::Empty, b]);
    match (ab, ab2) {
        (Expr::Sequence(i), Expr::Sequence(j)) => {
            assert_eq!(i.to_usize(), j.to_usize());
            assert_eq!(g.production(i).len(), 2);
        }
        _ => panic!("expected sequences"),
    }
    assert_eq!(g.production_count(), before + 1);
}

#[test]
fn nested_sequences_are_flattened() {
    let mut g = Grammar::new();
    let a = g.lit("a");
    let b = g.lit("b");
    let c = g.lit("c");
    let ab = g.seq(vec![a, b]);
    let abc = g.seq(vec![ab, c]);
    match abc {
        Expr::Sequence(i) => assert_eq!(g.production(i).len(), 3),
        _ => panic!("expected a sequence"),
    }
    g.start(abc);
    assert!(regexlr::matcher::matches(&g, "abc").is_ok());
    assert!(regexlr::matcher::matches(&g, "ab").is_err());
    assert!(regexlr::matcher::matches(&g, "abcd").is_err());
}

#[test]
fn start_with_fail_never_matches() {
    let mut g = Grammar::new();
    g.start(Expr::Fail);
    let f = regexlr::matcher::matches(&g, "").unwrap_err();
    assert!(only_mismatch_at(&f, 0));
}

#[test]
fn start_with_empty_matches_only_empty() {
    let mut g = Grammar::new();
    g.start(Expr::Empty);
    assert!(regexlr::matcher::matches(&g, "").is_ok());
    let f = regexlr::matcher::matches(&g, "x").unwrap_err();
    assert!(only_mismatch_at(&f, 0));
}

#[test]
fn rule_redefinition_keeps_index() {
    let mut g = Grammar::new();
    let p1 = g.call("P");
    let x = g.lit("x");
    g.rule("P", vec![x]);
    let p2 = g.call("P");
    match (p1, p2) {
        (Expr::Choice(i), Expr::Choice(j)) => {
            assert_eq!(i.to_usize(), j.to_usize());
            assert!(g.alternation(i).is_some());
        }
        _ => panic!("expected choices"),
    }
    g.start(p2);
    assert!(regexlr::matcher::matches(&g, "x").is_ok());
    assert!(regexlr::matcher::matches(&g, "y").is_err());
}

#[test]
fn multibyte_literals_match_by_bytes() {
    let mut g = Grammar::new();
    let e = g.lit("é");
    let star = g.call("S");
    let rec = g.seq(vec![e, star]);
    g.rule("S", vec![rec, Expr::Empty]);
    g.start(star);
    assert!(regexlr::matcher::matches(&g, "").is_ok());
    assert!(regexlr::matcher::matches(&g, "ééé").is_ok());
    let f = regexlr::matcher::matches(&g, "éa").unwrap_err();
    assert!(f.position() >= 2);
}

#[test]
fn parse_failure_append() {
    let mut f = ParseFailure::at(3, Error::InputDoesNotMatch { location: 3 });
    // earlier failures are ignored
    f.append(ParseFailure::no_match_at(1));
    assert_eq!(f.position(), 3);
    assert_eq!(f.errors().len(), 1);
    // failures at the same position are gathered
    f.append(ParseFailure::no_match_at(3));
    assert_eq!(f.position(), 3);
    assert_eq!(f.errors().len(), 2);
    // later failures replace
    f.append(ParseFailure::no_match_at(5));
    assert_eq!(f.position(), 5);
    assert_eq!(f.errors().len(), 1);
    assert!(matches!(f.errors()[0], Error::InputDoesNotMatch { location: 5 }));
    let empty = ParseFailure::new(7);
    assert_eq!(empty.position(), 7);
    assert!(empty.errors().is_empty());
}

#[test]
fn indirect_left_recursion_misses_matches() {
    // B -> A, then A -> B "a" | "x": "xa" is derivable (A -> B a -> A a -> x a),
    // but the memo entry of B at 0 is settled while A's seed is still empty
    let mut g = Grammar::new();
    let a = g.call("A");
    let b = g.call("B");
    g.rule("B", vec![a]);
    let la = g.lit("a");
    let x = g.lit("x");
    let ba = g.seq(vec![b, la]);
    g.rule("A", vec![ba, x]);
    g.start(a);
    assert!(regexlr::matcher::matches(&g, "x").is_ok());
    assert!(regexlr::matcher::matches(&g, "xa").is_err());
}

#[test]
fn direct_left_recursion_through_union() {
    // A -> B "a" | "x" with B defined after A: B copies A's productions
    let mut g = Grammar::new();
    let a = g.call("A");
    let b = g.call("B");
    let la = g.lit("a");
    let x = g.lit("x");
    let ba = g.seq(vec![b, la]);
    g.rule("A", vec![ba, x]);
    g.rule("B", vec![a]);
    g.start(a);
    assert!(regexlr::matcher::matches(&g, "x").is_ok());
    assert!(regexlr::matcher::matches(&g, "xa").is_ok());
    assert!(regexlr::matcher::matches(&g, "xaa").is_ok());
    assert!(regexlr::matcher::matches(&g, "a").is_err());
}

#[test]
fn direct_left_recursion_sums() {
    // S -> S "+" "1" | "1": left-associated sums of ones
    let mut g = Grammar::new();
    let s = g.call("S");
    let plus = g.lit("+");
    let one = g.lit("1");
    let more = g.seq(vec![s, plus, one]);
    g.rule("S", vec![more, one]);
    g.start(s);
    assert!(regexlr::matcher::matches(&g, "1").is_ok());
    assert!(regexlr::matcher::matches(&g, "1+1").is_ok());
    assert!(regexlr::matcher::matches(&g, "1+1+1+1").is_ok());
    assert!(regexlr::matcher::matches(&g, "").is_err());
    assert!(regexlr::matcher::matches(&g, "+1").is_err());
    assert!(regexlr::matcher::matches(&g, "1+1+").is_err());
    assert!(regexlr::matcher::matches(&g, "11").is_err());
}

#[test]
fn exprs_compare_by_value() {
    let mut g = Grammar::new();
    let a1 = g.lit("a");
    let a2 = g.lit("a");
    let b = g.lit("b");
    assert!(a1 == a2);
    assert!(a1 != b);
    assert!(Expr::Empty == Expr::Empty);
    assert!(Expr::Empty != Expr::Fail);
}

#[test]
fn alternation_lists_its_productions() {
    let mut g = Grammar::new();
    let a = g.lit("a");
    let b = g.lit("b");
    let ab = g.seq(vec![a, b]);
    let r = g.call("R");
    g.rule("R", vec![b, Expr::Empty, ab, a, Expr::Fail]);
    match r {
        Expr::Choice(i) => {
            let alt = g.alternation(i).as_ref().unwrap();
            let prods = alt.productions();
            // the empty production, the sequence "ab", and one production per literal
            assert_eq!(prods.len(), 4);
            assert!(prods.windows(2).all(|w| w[0] < w[1]));
            assert_eq!(prods[0], g.empty_production().to_usize());
            let lens: Vec<usize> = prods
                .iter()
                .map(|&p| g.production(regexlr::pool::Ind::of(p)).len())
                .collect();
            assert_eq!(lens.iter().filter(|&&n| n == 0).count(), 1);
            assert_eq!(lens.iter().filter(|&&n| n == 1).count(), 2);
            assert_eq!(lens.iter().filter(|&&n| n == 2).count(), 1);
        }
        _ => panic!("expected a choice"),
    }
    g.start(r);
    for ok in ["", "a", "b", "ab"] {
        assert!(regexlr::matcher::matches(&g, ok).is_ok());
    }
    for bad in ["ba", "aa", "abc"] {
        assert!(regexlr::matcher::matches(&g, bad).is_err());
    }
}
