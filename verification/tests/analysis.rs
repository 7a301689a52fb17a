//! The analysis as a whole.
use parsuna::analysis::{analyze, AnalysisOutcome};
use parsuna::grammar::ir::{
    CharClass, ClassItem, Expr, Grammar, RuleDef, TokenDef, TokenPattern,
};
use parsuna::{Diagnostic, Severity, Span};

fn tok(name: &str, pat: TokenPattern) -> TokenDef {
    TokenDef {
        name: name.into(),
        pattern: pat,
        skip: false,
        is_fragment: false,
        modes: vec!["default".to_string()],
        mode_actions: Vec::new(),
        span: Span::default(),
    }
}

fn rule(name: &str, body: Expr) -> RuleDef {
    RuleDef {
        name: name.into(),
        body,
        is_fragment: false,
        span: Span::default(),
    }
}

fn lit(s: &str) -> TokenPattern {
    TokenPattern::Literal(s.into())
}

fn alpha_plus() -> TokenPattern {
    TokenPattern::Plus(Box::new(TokenPattern::Class(CharClass {
        negated: false,
        items: vec![ClassItem::Range(b'a' as u32, b'z' as u32)],
    })))
}

fn minimal() -> Grammar {
    let mut g = Grammar::default();
    g.add_token(tok("T", lit("t")));
    g.add_rule(rule("main", Expr::Token("T".into())));
    g
}

#[test]
fn clean_grammar_yields_grammar_no_diagnostics() {
    let outcome = analyze(minimal());
    assert!(!outcome.has_errors());
    assert!(outcome.diagnostics.is_empty(), "{:?}", outcome.diagnostics);
    assert!(outcome.grammar.is_some());
    let ag = outcome.grammar.unwrap();
    assert_eq!(ag.k, 1);
    assert_eq!(ag.grammar.tokens.len(), 1);
}

#[test]
fn warning_only_grammar_keeps_grammar() {
    // Unused fragment — warning only; grammar still compiles.
    let mut g = minimal();
    let mut frag = tok("_DEAD", lit("d"));
    frag.is_fragment = true;
    g.add_token(frag);
    let outcome = analyze(g);
    assert!(!outcome.has_errors());
    assert_eq!(outcome.diagnostics.len(), 1);
    assert_eq!(outcome.diagnostics[0].severity, Severity::Warning);
    assert!(outcome.grammar.is_some());
}

#[test]
fn validate_error_short_circuits_before_lints() {
    // Undefined token reference — validate fails. Lints/shadow should
    // not run, so we expect exactly the one validate error and no
    // grammar.
    let mut g = Grammar::default();
    g.add_rule(rule("main", Expr::Token("UNDECLARED".into())));
    let outcome = analyze(g);
    assert!(outcome.has_errors());
    assert!(outcome.grammar.is_none());
    assert_eq!(outcome.diagnostics.len(), 1);
    assert!(outcome.diagnostics[0]
        .message
        .contains("undefined token `UNDECLARED`"));
}

#[test]
fn empty_match_lint_blocks_compilation() {
    let mut g = minimal();
    g.add_token(tok("BAD", TokenPattern::Star(Box::new(lit("a")))));
    let outcome = analyze(g);
    assert!(outcome.has_errors());
    assert!(outcome.grammar.is_none());
    assert!(outcome
        .diagnostics
        .iter()
        .any(|d| d.severity == Severity::Error && d.message.contains("`BAD`")));
}

#[test]
fn non_productive_lint_blocks_compilation() {
    let mut g = Grammar::default();
    g.add_token(tok("T", lit("t")));
    // `loops = T loops+;` — Plus needs body productive; recursion never bottoms out.
    g.add_rule(rule(
        "loops",
        Expr::Concat(vec![
            Expr::Token("T".into()),
            Expr::Plus(Box::new(Expr::Rule("loops".into()))),
        ]),
    ));
    let outcome = analyze(g);
    assert!(outcome.has_errors());
    assert!(outcome.grammar.is_none());
    assert!(outcome
        .diagnostics
        .iter()
        .any(|d| d.message.contains("non-productive")));
}

#[test]
fn shadow_lint_blocks_compilation() {
    let mut g = Grammar::default();
    g.add_token(tok("IDENT", alpha_plus()));
    g.add_token(tok("IF", lit("if")));
    g.add_rule(rule(
        "main",
        Expr::Alt(vec![Expr::Token("IF".into()), Expr::Token("IDENT".into())]),
    ));
    let outcome = analyze(g);
    assert!(outcome.has_errors());
    assert!(outcome.grammar.is_none());
    assert!(outcome
        .diagnostics
        .iter()
        .any(|d| d.message.contains("shadowed by earlier-declared")));
}

#[test]
fn warnings_accompany_grammar_on_full_success() {
    // Two unused fragments — both warnings, grammar still produced.
    let mut g = minimal();
    for name in &["_F1", "_F2"] {
        let mut frag = tok(name, lit("x"));
        frag.is_fragment = true;
        g.add_token(frag);
    }
    let outcome = analyze(g);
    assert!(!outcome.has_errors());
    assert_eq!(outcome.diagnostics.len(), 2);
    assert!(outcome
        .diagnostics
        .iter()
        .all(|d| d.severity == Severity::Warning));
    assert!(outcome.grammar.is_some());
}

#[test]
fn ll_conflict_reports_with_grammar_dropped() {
    // Two arms with the same FIRST set: classic LL(1) conflict.
    let mut g = Grammar::default();
    g.add_token(tok("A", lit("a")));
    g.add_rule(rule(
        "main",
        Expr::Alt(vec![
            Expr::Token("A".into()),
            Expr::Token("A".into()),
        ]),
    ));
    let outcome = analyze(g);
    assert!(outcome.has_errors());
    assert!(outcome.grammar.is_none());
}

#[test]
fn has_errors_true_only_for_errors() {
    let outcome = AnalysisOutcome {
        grammar: None,
        diagnostics: vec![Diagnostic::warning("just a tip".to_string())],
    };
    assert!(!outcome.has_errors());

    let outcome = AnalysisOutcome {
        grammar: None,
        diagnostics: vec![
            Diagnostic::warning("tip".to_string()),
            Diagnostic::error("bad".to_string()),
        ],
    };
    assert!(outcome.has_errors());
}
