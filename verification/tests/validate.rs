//! Structural checks.
use parsuna::analysis::validate::run;
use parsuna::grammar::ir::{Expr, Grammar, RuleDef, TokenDef, TokenPattern};
use parsuna::{Diagnostic, Span};

fn tok(name: &str, pat: TokenPattern) -> TokenDef {
    TokenDef {
        name: name.into(),
        pattern: pat,
        skip: false,
        is_fragment: false,
        modes: vec!["default".to_string()],
        mode_actions: Vec::new(),
        span: Span::default(),
    }
}

fn rule(name: &str, body: Expr) -> RuleDef {
    RuleDef {
        name: name.into(),
        body,
        is_fragment: false,
        span: Span::default(),
    }
}

fn lit(s: &str) -> TokenPattern {
    TokenPattern::Literal(s.into())
}

fn run_collect(g: &Grammar) -> Vec<Diagnostic> {
    let mut issues = Vec::new();
    run(g, &mut issues);
    issues
}

#[test]
fn reserved_token_names_eof_and_error_are_rejected() {
    let mut g = Grammar::default();
    g.add_token(tok("EOF", lit("e")));
    g.add_token(tok("ERROR", lit("r")));
    g.add_rule(rule("main", Expr::Empty));
    let issues = run_collect(&g);
    assert!(issues.iter().any(|d| d.message.contains("`EOF`")));
    assert!(issues.iter().any(|d| d.message.contains("`ERROR`")));
}

#[test]
fn reserved_check_is_case_insensitive() {
    let mut g = Grammar::default();
    g.add_token(tok("eof", lit("e")));
    g.add_rule(rule("main", Expr::Empty));
    let issues = run_collect(&g);
    assert!(issues.iter().any(|d| d.message.contains("reserved")));
}

#[test]
fn undefined_token_in_rule_body_flagged() {
    let mut g = Grammar::default();
    g.add_rule(rule("main", Expr::Token("MISSING".into())));
    let issues = run_collect(&g);
    assert!(issues
        .iter()
        .any(|d| d.message.contains("undefined token `MISSING`")));
}

#[test]
fn undefined_rule_in_body_flagged() {
    let mut g = Grammar::default();
    g.add_token(tok("T", lit("t")));
    g.add_rule(rule("main", Expr::Rule("ghost".into())));
    let issues = run_collect(&g);
    assert!(issues
        .iter()
        .any(|d| d.message.contains("undefined rule `ghost`")));
}

#[test]
fn rule_referencing_fragment_token_flagged() {
    let mut g = Grammar::default();
    let mut frag = tok("_F", lit("f"));
    frag.is_fragment = true;
    g.add_token(frag);
    g.add_rule(rule("main", Expr::Token("_F".into())));
    let issues = run_collect(&g);
    assert!(issues.iter().any(|d| d.message.contains("fragment token")));
}

#[test]
fn undefined_token_ref_inside_pattern_flagged() {
    let mut g = Grammar::default();
    g.add_token(tok("OUTER", TokenPattern::Ref("MISSING".into())));
    g.add_rule(rule("main", Expr::Token("OUTER".into())));
    let issues = run_collect(&g);
    assert!(issues
        .iter()
        .any(|d| d.message.contains("undefined token `MISSING`")
            && d.message.contains("in token `OUTER`")));
}

#[test]
fn token_reference_cycle_flagged() {
    let mut g = Grammar::default();
    let mut a = tok("A", TokenPattern::Ref("B".into()));
    a.is_fragment = true;
    let mut b = tok("B", TokenPattern::Ref("A".into()));
    b.is_fragment = true;
    g.add_token(a);
    g.add_token(b);
    g.add_token(tok("USE", TokenPattern::Ref("A".into())));
    g.add_rule(rule("main", Expr::Token("USE".into())));
    let issues = run_collect(&g);
    assert!(issues.iter().any(|d| d.message.contains("cycle")));
}

#[test]
fn left_recursion_direct_flagged() {
    let mut g = Grammar::default();
    g.add_token(tok("T", lit("t")));
    g.add_rule(rule(
        "expr",
        Expr::Concat(vec![Expr::Rule("expr".into()), Expr::Token("T".into())]),
    ));
    let issues = run_collect(&g);
    assert!(issues
        .iter()
        .any(|d| d.message.contains("left-recursive")));
}

#[test]
fn left_recursion_through_nullable_prefix_flagged() {
    // `a = b? a T;` — `b?` is nullable, so `a` can begin with itself.
    let mut g = Grammar::default();
    g.add_token(tok("T", lit("t")));
    g.add_rule(rule(
        "b",
        Expr::Token("T".into()),
    ));
    g.add_rule(rule(
        "a",
        Expr::Concat(vec![
            Expr::Opt(Box::new(Expr::Rule("b".into()))),
            Expr::Rule("a".into()),
            Expr::Token("T".into()),
        ]),
    ));
    let issues = run_collect(&g);
    assert!(issues.iter().any(|d| d.message.contains("`a`")
        && d.message.contains("left-recursive")));
}

#[test]
fn grammar_with_only_fragments_has_no_emittable_rules() {
    let mut g = Grammar::default();
    let mut frag = rule("_helper", Expr::Empty);
    frag.is_fragment = true;
    g.add_rule(frag);
    let issues = run_collect(&g);
    assert!(issues
        .iter()
        .any(|d| d.message.contains("no non-fragment rules")));
}

#[test]
fn clean_grammar_yields_no_issues() {
    let mut g = Grammar::default();
    g.add_token(tok("T", lit("t")));
    g.add_rule(rule("main", Expr::Token("T".into())));
    let issues = run_collect(&g);
    assert!(issues.is_empty(), "{:?}", issues);
}

#[test]
fn duplicate_token_and_rule_names_flagged() {
    let mut g = Grammar::default();
    g.tokens.insert("T".to_string(), tok("T", lit("t")));
    g.tokens.insert("T again".to_string(), tok("T", lit("u")));
    g.rules.insert("r".to_string(), rule("r", Expr::Token("T".into())));
    g.rules.insert("r again".to_string(), rule("r", Expr::Token("T".into())));
    let issues = run_collect(&g);
    assert!(issues.iter().any(|d| d.message == "duplicate token: T"));
    assert!(issues.iter().any(|d| d.message == "duplicate rule: r"));
}

/// The rules that are reported as left-recursive.
fn left_recursive(src: &str) -> Vec<String> {
    let g = parsuna::grammar::parse_grammar(src).expect("parse");
    run_collect(&g)
        .iter()
        .filter(|d| d.message.contains("left-recursive"))
        .map(|d| d.message.split('`').nth(1).unwrap_or("").to_string())
        .collect()
}

#[test]
fn left_recursion_through_other_rules_flagged() {
    assert_eq!(left_recursive("T = 't'; a = b T; b = a T | T;"), vec!["a", "b"]);
    assert_eq!(left_recursive("T = 't'; a = b T; b = c; c = d T; d = a | T;").len(), 4);
}

#[test]
fn left_recursion_past_rules_that_can_be_empty_flagged() {
    assert_eq!(left_recursive("T = 't'; a = b T?; b = a?;"), vec!["a", "b"]);
    assert_eq!(left_recursive("T = 't'; e = T*; n = e e; a = n a T | T;"), vec!["a"]);
}

#[test]
fn recursion_behind_a_token_is_not_left_recursion() {
    assert!(left_recursive("T = 't'; a = T b?; b = T a;").is_empty());
    assert!(left_recursive("T = 't'; n = T+; a = n a | T;").is_empty());
}
