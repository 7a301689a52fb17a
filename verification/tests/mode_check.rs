//! Lexer modes.
use parsuna::analysis::mode_check::run;
use parsuna::grammar::ir::{Expr, Grammar, ModeAction, RuleDef, TokenDef, TokenPattern};
use parsuna::Span;

fn tok(name: &str, pat: TokenPattern, modes: Vec<&str>) -> TokenDef {
    TokenDef {
        name: name.into(),
        pattern: pat,
        skip: false,
        is_fragment: false,
        modes: modes.into_iter().map(String::from).collect(),
        mode_actions: Vec::new(),
        span: Span::default(),
    }
}

fn tok_with_action(name: &str, pat: TokenPattern, modes: Vec<&str>, actions: Vec<ModeAction>) -> TokenDef {
    let mut t = tok(name, pat, modes);
    t.mode_actions = actions;
    t
}

fn rule(name: &str, body: Expr) -> RuleDef {
    RuleDef {
        name: name.into(),
        body,
        is_fragment: false,
        span: Span::default(),
    }
}

fn lit(s: &str) -> TokenPattern {
    TokenPattern::Literal(s.into())
}

#[test]
fn token_in_default_mode_referenced_from_default_rule_is_ok() {
    let mut g = Grammar::default();
    g.add_token(tok("T", lit("t"), vec!["default"]));
    g.add_rule(rule("main", Expr::Token("T".into())));
    let mut issues = Vec::new();
    run(&g, &mut issues);
    assert!(issues.is_empty(), "{:?}", issues);
}

#[test]
fn token_in_other_mode_referenced_from_default_rule_is_flagged() {
    let mut g = Grammar::default();
    g.add_token(tok("T", lit("t"), vec!["tag"]));
    g.add_rule(rule("main", Expr::Token("T".into())));
    let mut issues = Vec::new();
    run(&g, &mut issues);
    assert_eq!(issues.len(), 1);
    assert!(
        issues[0].message.contains("can never be matched here"),
        "{}",
        issues[0].message
    );
}

#[test]
fn token_after_push_is_reachable_in_pushed_mode() {
    let mut g = Grammar::default();
    g.add_token(tok_with_action(
        "OPEN",
        lit("<"),
        vec!["default"],
        vec![ModeAction::Push("tag".into())],
    ));
    g.add_token(tok("NAME", lit("x"), vec!["tag"]));
    g.add_rule(rule(
        "main",
        Expr::Concat(vec![Expr::Token("OPEN".into()), Expr::Token("NAME".into())]),
    ));
    let mut issues = Vec::new();
    run(&g, &mut issues);
    assert!(issues.is_empty(), "{:?}", issues);
}

#[test]
fn multi_mode_token_overlaps_pushed_mode() {
    let mut g = Grammar::default();
    g.add_token(tok_with_action(
        "OPEN",
        lit("<"),
        vec!["default"],
        vec![ModeAction::Push("inner".into())],
    ));
    // `AMP` lives in both default and inner — a rule call inside
    // either is fine.
    g.add_token(tok("AMP", lit("&"), vec!["default", "inner"]));
    g.add_rule(rule(
        "main",
        Expr::Concat(vec![Expr::Token("OPEN".into()), Expr::Token("AMP".into())]),
    ));
    let mut issues = Vec::new();
    run(&g, &mut issues);
    assert!(issues.is_empty(), "{:?}", issues);
}

#[test]
fn rule_call_propagates_modes_to_callee() {
    // After OPEN, the lexer is in `tag`. Calling `inner` from there
    // should mark `inner`'s active modes as containing `tag`, so
    // `inner` can use a tag-mode token without complaint.
    let mut g = Grammar::default();
    g.add_token(tok_with_action(
        "OPEN",
        lit("<"),
        vec!["default"],
        vec![ModeAction::Push("tag".into())],
    ));
    g.add_token(tok("NAME", lit("x"), vec!["tag"]));
    let mut inner = rule("inner", Expr::Token("NAME".into()));
    inner.is_fragment = true;
    g.add_rule(inner);
    g.add_rule(rule(
        "main",
        Expr::Concat(vec![Expr::Token("OPEN".into()), Expr::Rule("inner".into())]),
    ));
    let mut issues = Vec::new();
    run(&g, &mut issues);
    assert!(issues.is_empty(), "{:?}", issues);
}

#[test]
fn rule_only_reachable_in_non_default_mode_flagged_as_public_entry() {
    // Public (non-fragment) rule whose body needs a non-default
    // mode. Because every public rule is a potential parse_<rule>
    // entry, the lint flags this — the user should mark the rule
    // as a fragment if it's only meant to be called internally.
    let mut g = Grammar::default();
    g.add_token(tok("NAME", lit("x"), vec!["tag"]));
    g.add_rule(rule("inner", Expr::Token("NAME".into())));
    let mut issues = Vec::new();
    run(&g, &mut issues);
    assert!(!issues.is_empty(), "should have flagged the rule");
}
