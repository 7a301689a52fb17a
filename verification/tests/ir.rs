//! The representation of grammars.
use parsuna::grammar::ir::{
    CharClass, ClassItem, Expr, Grammar, RuleDef, TokenDef, TokenPattern,
};
use parsuna::Span;

fn tok(name: &str) -> TokenDef {
    TokenDef {
        name: name.into(),
        pattern: TokenPattern::Empty,
        skip: false,
        is_fragment: false,
        modes: vec!["default".to_string()],
        mode_actions: Vec::new(),
        span: Span::default(),
    }
}

fn rule(name: &str) -> RuleDef {
    RuleDef {
        name: name.into(),
        body: Expr::Empty,
        is_fragment: false,
        span: Span::default(),
    }
}

#[test]
fn token_pattern_seq_collapses_trivial_arities() {
    assert!(matches!(TokenPattern::seq(vec![]), TokenPattern::Empty));
    let lit = TokenPattern::Literal("x".into());
    let one = TokenPattern::seq(vec![lit.clone()]);
    assert!(matches!(one, TokenPattern::Literal(ref s) if s == "x"));
    let many = TokenPattern::seq(vec![lit.clone(), lit]);
    assert!(matches!(many, TokenPattern::Concat(xs) if xs.len() == 2));
}

#[test]
fn token_pattern_alt_collapses_trivial_arities() {
    assert!(matches!(TokenPattern::alt(vec![]), TokenPattern::Empty));
    let lit = TokenPattern::Literal("a".into());
    let one = TokenPattern::alt(vec![lit.clone()]);
    assert!(matches!(one, TokenPattern::Literal(ref s) if s == "a"));
    let many = TokenPattern::alt(vec![lit.clone(), lit]);
    assert!(matches!(many, TokenPattern::Alt(xs) if xs.len() == 2));
}

#[test]
fn token_pattern_is_literal() {
    assert!(TokenPattern::Literal("x".into()).is_literal());
    assert!(!TokenPattern::Empty.is_literal());
    assert!(!TokenPattern::Star(Box::new(TokenPattern::Literal("x".into()))).is_literal());
}

#[test]
fn expr_seq_collapses_trivial_arities() {
    assert!(matches!(Expr::seq(vec![]), Expr::Empty));
    let t = Expr::Token("T".into());
    let one = Expr::seq(vec![t.clone()]);
    assert!(matches!(one, Expr::Token(ref n) if n == "T"));
    let many = Expr::seq(vec![t.clone(), t]);
    assert!(matches!(many, Expr::Concat(xs) if xs.len() == 2));
}

#[test]
fn expr_alt_collapses_trivial_arities() {
    assert!(matches!(Expr::alt(vec![]), Expr::Empty));
    let t = Expr::Token("T".into());
    let one = Expr::alt(vec![t.clone()]);
    assert!(matches!(one, Expr::Token(ref n) if n == "T"));
}

#[test]
fn char_class_contains_chars_and_ranges() {
    let cc = CharClass {
        negated: false,
        items: vec![ClassItem::Char(b'a' as u32), ClassItem::Range(b'0' as u32, b'9' as u32)],
    };
    assert!(cc.contains(b'a' as u32));
    assert!(cc.contains(b'5' as u32));
    assert!(cc.contains(b'9' as u32));
    assert!(!cc.contains(b'b' as u32));
    assert!(!cc.contains(b'/' as u32)); // just below '0'
}

#[test]
fn char_class_negated_inverts() {
    let cc = CharClass {
        negated: true,
        items: vec![ClassItem::Char(b'a' as u32)],
    };
    assert!(!cc.contains(b'a' as u32));
    assert!(cc.contains(b'b' as u32));
    assert!(cc.contains(0));
}

#[test]
fn grammar_lookups_by_name_and_index() {
    let mut g = Grammar::default();
    g.add_token(tok("A"));
    g.add_token(tok("B"));
    g.add_rule(rule("first"));
    g.add_rule(rule("second"));

    assert_eq!(g.tokens.get("A").map(|t| t.name.as_str()), Some("A"));
    assert!(g.tokens.get("Z").is_none());
    assert_eq!(g.tokens.get_index_of("B"), Some(1));
    assert_eq!(g.tokens.get_index_of("Z"), None);

    assert_eq!(
        g.rules.get("second").map(|r| r.name.as_str()),
        Some("second")
    );
    assert_eq!(g.rules.get_index_of("first"), Some(0));
    assert_eq!(g.rules.get_index_of("missing"), None);
}

#[test]
fn tokens_iterate_in_declaration_order_regardless_of_hash() {
    // Insert names whose hash order is unlikely to match insertion order.
    let mut g = Grammar::default();
    for name in &["zeta", "alpha", "mu", "omega", "beta"] {
        g.add_token(tok(name));
    }
    let observed: Vec<&str> = g.tokens.values().map(|t| t.name.as_str()).collect();
    assert_eq!(observed, vec!["zeta", "alpha", "mu", "omega", "beta"]);
}

#[test]
fn rules_iterate_in_declaration_order() {
    let mut g = Grammar::default();
    for name in &["zeta", "alpha", "mu"] {
        g.add_rule(rule(name));
    }
    let observed: Vec<&str> = g.rules.values().map(|r| r.name.as_str()).collect();
    assert_eq!(observed, vec!["zeta", "alpha", "mu"]);
}

#[test]
fn add_token_returns_previous_definition_on_duplicate() {
    let mut g = Grammar::default();
    assert!(g.add_token(tok("A")).is_none());
    let prev = g.add_token(tok("A"));
    assert!(prev.is_some());
    // IndexMap::insert overwrites in place, so the duplicate keeps the
    // original position rather than appending.
    assert_eq!(g.tokens.get_index_of("A"), Some(0));
}
