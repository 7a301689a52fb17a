//! FIRST and FOLLOW.
use parsuna::analysis::first_follow::{compute_first, first_of};
use parsuna::analysis::first_set::{concat_k, split_nullable, star_k, FirstSet};
use parsuna::analysis::follow::{compute_follow, expr_nullable, first_of_seq_1, EOF_MARKER};
use parsuna::analysis::follow_k::compute_follow_k;
use parsuna::grammar::ir::{Expr, Grammar, RuleDef, TokenDef, TokenPattern};
use parsuna::name_map::NameMap;
use parsuna::Span;

fn seq(xs: &[&str]) -> Vec<String> {
    xs.iter().map(|s| (*s).into()).collect()
}

fn fset(seqs: &[&[&str]]) -> FirstSet {
    let mut r = FirstSet::new();
    for s in seqs {
        r.insert(seq(s));
    }
    r
}

fn rule(name: &str, body: Expr) -> RuleDef {
    RuleDef {
        name: name.into(),
        body,
        is_fragment: false,
        span: Span::default(),
    }
}

fn tok(name: &str) -> TokenDef {
    TokenDef {
        name: name.into(),
        pattern: TokenPattern::Empty,
        skip: false,
        is_fragment: false,
        modes: vec!["default".to_string()],
        mode_actions: Vec::new(),
        span: Span::default(),
    }
}

#[test]
fn concat_k_truncates_at_k_tokens() {
    let a = fset(&[&["A"]]);
    let b = fset(&[&["B", "C"]]);
    let merged = concat_k(&a, &b, 2);
    assert_eq!(merged, fset(&[&["A", "B"]]));

    let merged3 = concat_k(&a, &b, 3);
    assert_eq!(merged3, fset(&[&["A", "B", "C"]]));
}

#[test]
fn concat_k_passes_through_long_left_sequences() {
    let a = fset(&[&["A", "B"]]);
    let b = fset(&[&["C"]]);
    let merged = concat_k(&a, &b, 2);
    assert_eq!(merged, fset(&[&["A", "B"]]));
}

#[test]
fn concat_k_propagates_epsilon_on_left() {
    let a = fset(&[&[]]);
    let b = fset(&[&["A"], &["B"]]);
    let merged = concat_k(&a, &b, 1);
    assert_eq!(merged, fset(&[&["A"], &["B"]]));
}

#[test]
fn star_k_includes_epsilon_and_iterates_to_bound() {
    let inner = fset(&[&["A"]]);
    let s = star_k(&inner, 3);
    assert_eq!(s, fset(&[&[], &["A"], &["A", "A"], &["A", "A", "A"]]));
}

#[test]
fn split_nullable_separates_epsilon() {
    let s = fset(&[&[], &["A"], &["B", "C"]]);
    let (non_eps, null) = split_nullable(&s);
    assert!(null);
    assert_eq!(non_eps, fset(&[&["A"], &["B", "C"]]));

    let s2 = fset(&[&["X"]]);
    let (non_eps2, null2) = split_nullable(&s2);
    assert!(!null2);
    assert_eq!(non_eps2, fset(&[&["X"]]));
}

#[test]
fn first_of_token_at_k1_is_singleton() {
    let nullable = NameMap::new();
    let first = NameMap::new();
    let f = first_of(&Expr::Token("A".into()), &nullable, &first, 1);
    assert_eq!(f, fset(&[&["A"]]));
}

#[test]
fn first_of_token_at_k0_is_epsilon() {
    let nullable = NameMap::new();
    let first = NameMap::new();
    let f = first_of(&Expr::Token("A".into()), &nullable, &first, 0);
    assert_eq!(f, fset(&[&[]]));
}

#[test]
fn first_of_opt_includes_epsilon() {
    let nullable = NameMap::new();
    let first = NameMap::new();
    let f = first_of(
        &Expr::Opt(Box::new(Expr::Token("A".into()))),
        &nullable,
        &first,
        1,
    );
    assert_eq!(f, fset(&[&[], &["A"]]));
}

#[test]
fn first_of_plus_does_not_include_epsilon() {
    let nullable = NameMap::new();
    let first = NameMap::new();
    let f = first_of(
        &Expr::Plus(Box::new(Expr::Token("A".into()))),
        &nullable,
        &first,
        1,
    );
    assert_eq!(f, fset(&[&["A"]]));
}

#[test]
fn compute_first_marks_nullable_rule() {
    // r = A?  → r is nullable; FIRST(r) = {ε, [A]}
    let mut g = Grammar::default();
    g.add_token(tok("A"));
    g.add_rule(rule(
        "r",
        Expr::Opt(Box::new(Expr::Token("A".into()))),
    ));
    let (nullable, first) = compute_first(&g, 1);
    assert_eq!(nullable.get("r"), Some(&true));
    assert_eq!(first.get("r").unwrap(), &fset(&[&[], &["A"]]));
}

#[test]
fn compute_first_propagates_through_rule_reference() {
    // r = s; s = A;  → FIRST(r) = {[A]}
    let mut g = Grammar::default();
    g.add_token(tok("A"));
    g.add_rule(rule("r", Expr::Rule("s".into())));
    g.add_rule(rule("s", Expr::Token("A".into())));
    let (nullable, first) = compute_first(&g, 1);
    assert_eq!(nullable.get("r"), Some(&false));
    assert_eq!(first.get("r").unwrap(), &fset(&[&["A"]]));
}

#[test]
fn compute_follow_includes_eof_for_every_rule() {
    let mut g = Grammar::default();
    g.add_token(tok("A"));
    g.add_rule(rule("r", Expr::Token("A".into())));
    let (nullable, first) = compute_first(&g, 1);
    let follow = compute_follow(&g, &first, &nullable);
    assert!(follow.get("r").unwrap().contains(EOF_MARKER));
}

#[test]
fn compute_follow_passes_first_of_tail_to_inner_rule() {
    // outer = inner B; inner = A;  → FOLLOW(inner) ⊇ {B}
    let mut g = Grammar::default();
    g.add_token(tok("A"));
    g.add_token(tok("B"));
    g.add_rule(rule("inner", Expr::Token("A".into())));
    g.add_rule(rule(
        "outer",
        Expr::Concat(vec![Expr::Rule("inner".into()), Expr::Token("B".into())]),
    ));
    let (nullable, first) = compute_first(&g, 1);
    let follow = compute_follow(&g, &first, &nullable);
    let inner_follow = follow.get("inner").unwrap();
    assert!(inner_follow.contains("B"));
}

#[test]
fn compute_follow_k_lookahead_sequences() {
    // outer = inner B C; inner = A;  → FOLLOW_2(inner) includes [B, C]
    let mut g = Grammar::default();
    g.add_token(tok("A"));
    g.add_token(tok("B"));
    g.add_token(tok("C"));
    g.add_rule(rule("inner", Expr::Token("A".into())));
    g.add_rule(rule(
        "outer",
        Expr::Concat(vec![
            Expr::Rule("inner".into()),
            Expr::Token("B".into()),
            Expr::Token("C".into()),
        ]),
    ));
    let (nullable, first) = compute_first(&g, 2);
    let follow = compute_follow_k(&g, &first, &nullable, 2);
    let inner_follow = follow.get("inner").unwrap();
    assert!(inner_follow.contains(&seq(&["B", "C"])));
}

/// FOLLOW of the rule, as names in order.
fn follows(src: &str, name: &str) -> Vec<String> {
    let g = parsuna::grammar::parse_grammar(src).expect("parse");
    let (nullable, first) = compute_first(&g, 1);
    let follow = compute_follow(&g, &first, &nullable);
    let set = follow.get(name).expect("rule");
    (0..set.len()).map(|i| set.get(i).to_string()).collect()
}

#[test]
fn follow_reaches_a_rule_inside_an_option() {
    let src = "A = 'a'; B = 'b'; inner = A; outer = inner? B;";
    assert_eq!(follows(src, "inner"), vec!["$EOF", "B"]);
    assert_eq!(follows(src, "outer"), vec!["$EOF"]);
}

#[test]
fn follow_of_the_host_stops_at_what_cannot_be_empty() {
    let src = "A = 'a'; B = 'b'; C = 'c'; inner = A; outer = inner B; top = outer C;";
    assert_eq!(follows(src, "outer"), vec!["$EOF", "C"]);
    assert_eq!(follows(src, "inner"), vec!["$EOF", "B"]);
    assert_eq!(follows(src, "top"), vec!["$EOF"]);
}

#[test]
fn follow_inside_a_repetition_has_the_next_round() {
    let src = "A = 'a'; B = 'b'; C = 'c'; inner = A; outer = (B inner)+ C;";
    assert_eq!(follows(src, "inner"), vec!["$EOF", "B", "C"]);
}

#[test]
fn follow_passes_what_can_be_empty_and_goes_into_groups() {
    let src = "A = 'a'; B = 'b'; C = 'c'; D = 'd'; x = A; y = B; o = (x | y C?) D? ; p = o C;";
    assert_eq!(follows(src, "x"), vec!["$EOF", "C", "D"]);
    assert_eq!(follows(src, "y"), vec!["$EOF", "C", "D"]);
    assert_eq!(follows(src, "o"), vec!["$EOF", "C"]);
}

#[test]
fn joining_is_associative_and_has_a_unit() {
    let a = fset(&[&[], &["x"], &["x", "y"]]);
    let b = fset(&[&["p"], &["q", "r"]]);
    let c = fset(&[&[], &["z"]]);
    let eps = fset(&[&[]]);
    for k in 2..4 {
        let l = concat_k(&concat_k(&a, &b, k), &c, k);
        let r = concat_k(&a, &concat_k(&b, &c, k), k);
        assert_eq!(l, r);
        assert_eq!(concat_k(&eps, &a, k), a);
        assert_eq!(concat_k(&a, &eps, k), a);
    }
}

#[test]
fn repeating_a_repetition_adds_nothing() {
    let a = fset(&[&["x"], &["y", "z"]]);
    let star = star_k(&a, 2);
    assert_eq!(star, fset(&[&[], &["x"], &["x", "x"], &["x", "y"], &["y", "z"]]));
    assert_eq!(star_k(&star, 2), star);
}

/// `r = s B?; s = A* r?;`
fn entangled() -> Grammar {
    let mut g = Grammar::default();
    g.add_token(tok("A"));
    g.add_token(tok("B"));
    let opt = |e: Expr| Expr::Opt(Box::new(e));
    g.add_rule(rule(
        "r",
        Expr::Concat(vec![Expr::Rule("s".into()), opt(Expr::Token("B".into()))]),
    ));
    g.add_rule(rule(
        "s",
        Expr::Concat(vec![
            Expr::Star(Box::new(Expr::Token("A".into()))),
            opt(Expr::Rule("r".into())),
        ]),
    ));
    g
}

#[test]
fn first_solves_its_equations() {
    let g = entangled();
    for k in 1..4 {
        let (nullable, first) = compute_first(&g, k);
        for def in g.rules.values() {
            let of_body = first_of(&def.body, &nullable, &first, k);
            assert_eq!(first.get(&def.name), Some(&of_body));
            assert_eq!(nullable.get(&def.name), Some(&expr_nullable(&def.body, &nullable)));
            assert!((0..of_body.len()).all(|j| of_body.get(j).len() <= k));
            assert!((0..of_body.len()).any(|j| of_body.get(j).is_empty()));
        }
    }
}

#[test]
fn first_of_the_rest_of_a_sequence() {
    let g = entangled();
    let (nullable, first) = compute_first(&g, 1);
    let xs = vec![
        Expr::Token("B".into()),
        Expr::Rule("s".into()),
        Expr::Token("A".into()),
    ];
    let (heads, empty) = first_of_seq_1(&xs, 1, &nullable, &first);
    assert_eq!((heads, empty), (fset(&[&["A"], &["B"]]), false));
    let (heads, empty) = first_of_seq_1(&xs, 0, &nullable, &first);
    assert_eq!((heads, empty), (fset(&[&["B"]]), false));
    assert_eq!(first_of_seq_1(&xs, 3, &nullable, &first), (fset(&[]), true));
}
