//! Lints.
use parsuna::analysis::lints::{
    check_empty_match_tokens, check_non_productive_rules, check_unused_fragments,
};
use parsuna::grammar::ir::{
    CharClass, ClassItem, Expr, Grammar, RuleDef, TokenDef, TokenPattern,
};

fn tok(name: &str, pat: TokenPattern) -> TokenDef {
    TokenDef {
        name: name.into(),
        pattern: pat,
        skip: false,
        is_fragment: false,
        modes: vec!["default".to_string()],
        mode_actions: Vec::new(),
        span: Default::default(),
    }
}

fn rule(name: &str, body: Expr) -> RuleDef {
    RuleDef {
        name: name.into(),
        body,
        is_fragment: false,
        span: Default::default(),
    }
}

fn lit(s: &str) -> TokenPattern {
    TokenPattern::Literal(s.into())
}

fn class_range(lo: char, hi: char) -> TokenPattern {
    TokenPattern::Class(CharClass {
        negated: false,
        items: vec![ClassItem::Range(lo as u32, hi as u32)],
    })
}

// ---- empty-match ----

#[test]
fn empty_match_flags_optional_token() {
    let mut g = Grammar::default();
    g.add_token(tok("BAD", TokenPattern::Opt(Box::new(lit("a")))));
    let mut issues = Vec::new();
    check_empty_match_tokens(&g, &mut issues);
    assert_eq!(issues.len(), 1);
    assert!(issues[0].message.contains("`BAD`"));
}

#[test]
fn empty_match_flags_star_token() {
    let mut g = Grammar::default();
    g.add_token(tok("BAD", TokenPattern::Star(Box::new(lit("a")))));
    let mut issues = Vec::new();
    check_empty_match_tokens(&g, &mut issues);
    assert_eq!(issues.len(), 1);
}

#[test]
fn empty_match_flags_empty_literal() {
    let mut g = Grammar::default();
    g.add_token(tok("BAD", lit("")));
    let mut issues = Vec::new();
    check_empty_match_tokens(&g, &mut issues);
    assert_eq!(issues.len(), 1);
}

#[test]
fn empty_match_passes_plus_and_class() {
    let mut g = Grammar::default();
    g.add_token(tok("OK1", TokenPattern::Plus(Box::new(lit("a")))));
    g.add_token(tok("OK2", class_range('a', 'z')));
    g.add_token(tok("OK3", lit("if")));
    let mut issues = Vec::new();
    check_empty_match_tokens(&g, &mut issues);
    assert!(issues.is_empty(), "{:?}", issues);
}

#[test]
fn empty_match_through_fragment_ref() {
    let mut g = Grammar::default();
    let mut frag = tok("_NULLABLE", TokenPattern::Star(Box::new(lit("a"))));
    frag.is_fragment = true;
    g.add_token(frag);
    g.add_token(tok("BAD", TokenPattern::Ref("_NULLABLE".into())));
    let mut issues = Vec::new();
    check_empty_match_tokens(&g, &mut issues);
    assert_eq!(issues.len(), 1);
    assert!(issues[0].message.contains("`BAD`"));
}

#[test]
fn empty_match_skips_fragment_themselves() {
    // A nullable fragment isn't directly a problem; only the public
    // tokens that consume it would be (covered above).
    let mut g = Grammar::default();
    let mut frag = tok("_NULLABLE", TokenPattern::Star(Box::new(lit("a"))));
    frag.is_fragment = true;
    g.add_token(frag);
    let mut issues = Vec::new();
    check_empty_match_tokens(&g, &mut issues);
    assert!(issues.is_empty(), "{:?}", issues);
}

// ---- unused fragments ----

#[test]
fn unused_fragment_token() {
    let mut g = Grammar::default();
    let mut frag = tok("_HEX_DIGIT", class_range('0', '9'));
    frag.is_fragment = true;
    g.add_token(frag);
    g.add_token(tok("IDENT", class_range('a', 'z')));
    g.add_rule(rule("r", Expr::Token("IDENT".into())));
    let mut issues = Vec::new();
    check_unused_fragments(&g, &mut issues);
    assert_eq!(issues.len(), 1);
    assert!(issues[0].message.contains("_HEX_DIGIT"));
}

#[test]
fn unused_fragment_rule() {
    let mut g = Grammar::default();
    g.add_token(tok("T", lit("t")));
    let mut frag = rule("_unused", Expr::Token("T".into()));
    frag.is_fragment = true;
    g.add_rule(frag);
    g.add_rule(rule("main", Expr::Token("T".into())));
    let mut issues = Vec::new();
    check_unused_fragments(&g, &mut issues);
    assert_eq!(issues.len(), 1);
    assert!(issues[0].message.contains("_unused"));
}

#[test]
fn used_fragment_token_via_pattern_ref() {
    let mut g = Grammar::default();
    let mut frag = tok("_HEX_DIGIT", class_range('0', '9'));
    frag.is_fragment = true;
    g.add_token(frag);
    g.add_token(tok(
        "HEX",
        TokenPattern::Plus(Box::new(TokenPattern::Ref("_HEX_DIGIT".into()))),
    ));
    g.add_rule(rule("r", Expr::Token("HEX".into())));
    let mut issues = Vec::new();
    check_unused_fragments(&g, &mut issues);
    assert!(issues.is_empty(), "{:?}", issues);
}

#[test]
fn used_fragment_rule_via_expr_ref() {
    let mut g = Grammar::default();
    g.add_token(tok("T", lit("t")));
    let mut frag = rule("_helper", Expr::Token("T".into()));
    frag.is_fragment = true;
    g.add_rule(frag);
    g.add_rule(rule(
        "main",
        Expr::Concat(vec![Expr::Token("T".into()), Expr::Rule("_helper".into())]),
    ));
    let mut issues = Vec::new();
    check_unused_fragments(&g, &mut issues);
    assert!(issues.is_empty(), "{:?}", issues);
}

#[test]
fn skip_token_counts_as_live_seed() {
    // A skip token isn't referenced from any rule, but it still needs
    // its fragments — those should be considered used.
    let mut g = Grammar::default();
    let mut digit = tok("_DIGIT", class_range('0', '9'));
    digit.is_fragment = true;
    g.add_token(digit);
    let mut ws = tok(
        "WS",
        TokenPattern::Plus(Box::new(TokenPattern::Ref("_DIGIT".into()))),
    );
    ws.skip = true;
    g.add_token(ws);
    g.add_rule(rule("r", Expr::Empty));
    let mut issues = Vec::new();
    check_unused_fragments(&g, &mut issues);
    assert!(issues.is_empty(), "{:?}", issues);
}

#[test]
fn fragment_chain_only_dead_at_root() {
    // _LEAF only used by _MID, which is only used by _ROOT — and _ROOT
    // is not used. We expect all three flagged in one pass.
    let mut g = Grammar::default();
    let mut leaf = tok("_LEAF", class_range('a', 'z'));
    leaf.is_fragment = true;
    g.add_token(leaf);
    let mut mid = tok("_MID", TokenPattern::Ref("_LEAF".into()));
    mid.is_fragment = true;
    g.add_token(mid);
    let mut root = tok("_ROOT", TokenPattern::Ref("_MID".into()));
    root.is_fragment = true;
    g.add_token(root);
    g.add_token(tok("T", lit("t")));
    g.add_rule(rule("r", Expr::Token("T".into())));
    let mut issues = Vec::new();
    check_unused_fragments(&g, &mut issues);
    assert_eq!(issues.len(), 3, "{:?}", issues);
}

// ---- productivity ----

#[test]
fn productive_via_token_alternative() {
    let mut g = Grammar::default();
    g.add_token(tok("T", lit("t")));
    g.add_rule(rule(
        "a",
        Expr::Alt(vec![
            Expr::Token("T".into()),
            Expr::Concat(vec![Expr::Token("T".into()), Expr::Rule("a".into())]),
        ]),
    ));
    let mut issues = Vec::new();
    check_non_productive_rules(&g, &mut issues);
    assert!(issues.is_empty(), "{:?}", issues);
}

#[test]
fn non_productive_self_only() {
    let mut g = Grammar::default();
    g.add_rule(rule("a", Expr::Rule("a".into())));
    let mut issues = Vec::new();
    check_non_productive_rules(&g, &mut issues);
    assert_eq!(issues.len(), 1);
    assert!(issues[0].message.contains("`a`"));
}

#[test]
fn non_productive_mutual_cycle() {
    let mut g = Grammar::default();
    g.add_rule(rule("a", Expr::Rule("b".into())));
    g.add_rule(rule("b", Expr::Rule("a".into())));
    let mut issues = Vec::new();
    check_non_productive_rules(&g, &mut issues);
    assert_eq!(issues.len(), 2);
}

#[test]
fn productive_via_star_self_reference() {
    // a = T a* — `Star(Rule(a))` is always productive (matches empty),
    // so the Seq is productive on its first iteration via just T.
    let mut g = Grammar::default();
    g.add_token(tok("T", lit("t")));
    g.add_rule(rule(
        "a",
        Expr::Concat(vec![
            Expr::Token("T".into()),
            Expr::Star(Box::new(Expr::Rule("a".into()))),
        ]),
    ));
    let mut issues = Vec::new();
    check_non_productive_rules(&g, &mut issues);
    assert!(issues.is_empty(), "{:?}", issues);
}

#[test]
fn non_productive_plus_self_reference() {
    // a = T a+ — Plus requires its body productive; a is unproductive
    // until proven otherwise, so this never bottoms out.
    let mut g = Grammar::default();
    g.add_token(tok("T", lit("t")));
    g.add_rule(rule(
        "a",
        Expr::Concat(vec![
            Expr::Token("T".into()),
            Expr::Plus(Box::new(Expr::Rule("a".into()))),
        ]),
    ));
    let mut issues = Vec::new();
    check_non_productive_rules(&g, &mut issues);
    assert_eq!(issues.len(), 1);
}
