//! Tokens that can never match.
use parsuna::analysis::shadow::{pattern_matches_exactly, run};
use parsuna::grammar::ir::{CharClass, ClassItem, Grammar, TokenDef, TokenPattern};

fn lit(s: &str) -> TokenPattern {
    TokenPattern::Literal(s.into())
}

fn class_range(lo: char, hi: char) -> TokenPattern {
    TokenPattern::Class(CharClass {
        negated: false,
        items: vec![ClassItem::Range(lo as u32, hi as u32)],
    })
}

fn alpha_plus() -> TokenPattern {
    TokenPattern::Plus(Box::new(class_range('a', 'z')))
}

#[test]
fn literal_matches_itself() {
    assert!(pattern_matches_exactly(&lit("if"), b"if"));
    assert!(!pattern_matches_exactly(&lit("if"), b"i"));
    assert!(!pattern_matches_exactly(&lit("if"), b"iff"));
}

#[test]
fn class_plus_accepts_keyword_string() {
    assert!(pattern_matches_exactly(&alpha_plus(), b"if"));
    assert!(pattern_matches_exactly(&alpha_plus(), b"true"));
    assert!(!pattern_matches_exactly(&alpha_plus(), b"if!"));
    assert!(!pattern_matches_exactly(&alpha_plus(), b""));
}

#[test]
fn star_accepts_empty_and_repeats() {
    let p = TokenPattern::Star(Box::new(lit("ab")));
    assert!(pattern_matches_exactly(&p, b""));
    assert!(pattern_matches_exactly(&p, b"ab"));
    assert!(pattern_matches_exactly(&p, b"abab"));
    assert!(!pattern_matches_exactly(&p, b"aba"));
}

#[test]
fn nested_star_terminates_on_empty_body() {
    // Star(Star(_)) — inner can match empty; outer must not loop.
    let p = TokenPattern::Star(Box::new(TokenPattern::Star(Box::new(lit("x")))));
    assert!(pattern_matches_exactly(&p, b""));
    assert!(pattern_matches_exactly(&p, b"xxx"));
    assert!(!pattern_matches_exactly(&p, b"y"));
}

#[test]
fn alt_picks_any_branch() {
    let p = TokenPattern::Alt(vec![lit(".."), lit("...")]);
    assert!(pattern_matches_exactly(&p, b".."));
    assert!(pattern_matches_exactly(&p, b"..."));
    assert!(!pattern_matches_exactly(&p, b"."));
}

fn tok(name: &str, pat: TokenPattern) -> TokenDef {
    TokenDef {
        name: name.into(),
        pattern: pat,
        skip: false,
        is_fragment: false,
        modes: vec!["default".to_string()],
        mode_actions: Vec::new(),
        span: Default::default(),
    }
}

#[test]
fn flags_keyword_after_ident() {
    let mut g = Grammar::default();
    g.add_token(tok("IDENT", alpha_plus()));
    g.add_token(tok("IF", lit("if")));
    let mut issues = Vec::new();
    run(&g, &mut issues);
    assert_eq!(issues.len(), 1, "{:?}", issues);
    assert!(issues[0].message.contains("`IF`"));
    assert!(issues[0].message.contains("`IDENT`"));
}

#[test]
fn accepts_keyword_before_ident() {
    let mut g = Grammar::default();
    g.add_token(tok("IF", lit("if")));
    g.add_token(tok("IDENT", alpha_plus()));
    let mut issues = Vec::new();
    run(&g, &mut issues);
    assert!(issues.is_empty(), "{:?}", issues);
}

#[test]
fn flags_duplicate_literal_tokens() {
    let mut g = Grammar::default();
    g.add_token(tok("A", lit("x")));
    g.add_token(tok("B", lit("x")));
    let mut issues = Vec::new();
    run(&g, &mut issues);
    assert_eq!(issues.len(), 1);
    assert!(issues[0].message.contains("`B`"));
}

#[test]
fn dot_not_shadowed_by_dotdot() {
    // PUNC=".." declared first; DOT="." stays reachable.
    let mut g = Grammar::default();
    g.add_token(tok("PUNC", lit("..")));
    g.add_token(tok("DOT", lit(".")));
    let mut issues = Vec::new();
    run(&g, &mut issues);
    assert!(issues.is_empty(), "{:?}", issues);
}

#[test]
fn ignores_skip_and_fragment_shadowers() {
    let mut g = Grammar::default();
    let mut frag = tok("_LETTERS", alpha_plus());
    frag.is_fragment = true;
    g.add_token(frag);
    let mut skip = tok("_SKIPPY", alpha_plus());
    skip.skip = true;
    skip.is_fragment = false;
    skip.name = "SKIPPY".into();
    g.add_token(skip);
    g.add_token(tok("IF", lit("if")));
    let mut issues = Vec::new();
    run(&g, &mut issues);
    // Neither a fragment nor a skip token should count as a shadower.
    assert!(issues.is_empty(), "{:?}", issues);
}

#[test]
fn resolves_fragment_in_shadower_pattern() {
    let mut g = Grammar::default();
    let mut frag = tok("_LETTER", class_range('a', 'z'));
    frag.is_fragment = true;
    g.add_token(frag);
    g.add_token(tok(
        "IDENT",
        TokenPattern::Plus(Box::new(TokenPattern::Ref("_LETTER".into()))),
    ));
    g.add_token(tok("IF", lit("if")));
    let mut issues = Vec::new();
    run(&g, &mut issues);
    assert_eq!(issues.len(), 1, "{:?}", issues);
}
