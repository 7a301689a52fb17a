//! Reading grammar files.
use parsuna::grammar::ir::{ClassItem, Expr, ModeAction, TokenPattern};
use parsuna::grammar::file_table::file_table;
use parsuna::grammar::notation::notation_table;
use parsuna::grammar::parse_grammar;
use parsuna::runtime::events::Event;
use parsuna::runtime::parser::{DropSkips, EmitSkips, Parser, RawEvent};

const WS: u16 = 19;
const COMMENT: u16 = 20;

#[test]
fn parses_simple_token_and_rule() {
    let g = parse_grammar("A = \"a\"; main = A;").expect("ok");
    assert_eq!(g.tokens.len(), 1);
    let a = g.tokens.get("A").expect("A");
    assert!(matches!(a.pattern, TokenPattern::Literal(ref s) if s == "a"));
    assert_eq!(g.rules.len(), 1);
    let main = g.rules.get("main").expect("main");
    assert!(matches!(main.body, Expr::Token(ref n) if n == "A"));
}

#[test]
fn skip_action_marks_token_as_skip() {
    let g = parse_grammar("WS = \" \"+ -> skip; T = \"t\"; main = T;").expect("ok");
    let ws = g.tokens.get("WS").expect("WS");
    assert!(ws.skip);
    assert!(!ws.is_fragment);
}

#[test]
fn unknown_action_is_rejected() {
    let errs = parse_grammar("WS = \" \"+ -> bogus; T = \"t\"; main = T;")
        .err()
        .expect("err");
    assert!(errs.iter().any(|e| e.message.contains("unknown action")));
}

#[test]
fn underscore_prefix_marks_fragment() {
    let g = parse_grammar("_DIGIT = '0'..'9'; NUM = _DIGIT+; main = NUM;").expect("ok");
    let frag = g.tokens.get("_DIGIT").expect("_DIGIT");
    assert!(frag.is_fragment);
    assert!(!frag.skip);
}

#[test]
fn skip_and_fragment_combo_rejected() {
    let errs = parse_grammar("_X = \"x\" -> skip; T = \"t\"; main = T;")
        .err()
        .expect("err");
    assert!(errs
        .iter()
        .any(|e| e.message.contains("skip") && e.message.contains("fragment")));
}

#[test]
fn skip_on_rule_is_rejected() {
    let errs = parse_grammar("T = \"t\"; main = T -> skip;")
        .err()
        .expect("err");
    assert!(errs
        .iter()
        .any(|e| e.message.contains("only applies to tokens")));
}

#[test]
fn quantifiers_become_opt_star_plus_in_rule_body() {
    let g = parse_grammar("A = \"a\"; main = A? A* A+;").expect("ok");
    let body = &g.rules.get("main").expect("main").body;
    let xs = match body {
        Expr::Concat(xs) => xs,
        other => panic!("expected Seq, got {:?}", other),
    };
    assert!(matches!(xs[0], Expr::Opt(_)));
    assert!(matches!(xs[1], Expr::Star(_)));
    assert!(matches!(xs[2], Expr::Plus(_)));
}

#[test]
fn alt_with_pipe_in_rule_body() {
    let g = parse_grammar("A = \"a\"; B = \"b\"; main = A | B;").expect("ok");
    let main = g.rules.get("main").expect("main");
    assert!(matches!(main.body, Expr::Alt(ref xs) if xs.len() == 2));
}

#[test]
fn group_parentheses_in_token_pattern() {
    let g = parse_grammar("T = (\"a\" | \"b\")+; main = T;").expect("ok");
    let pat = &g.tokens.get("T").unwrap().pattern;
    assert!(matches!(pat, TokenPattern::Plus(_)));
}

#[test]
fn char_range_pattern() {
    let g = parse_grammar("D = '0'..'9'; main = D;").expect("ok");
    let pat = &g.tokens.get("D").unwrap().pattern;
    match pat {
        TokenPattern::Class(cc) => {
            assert!(!cc.negated);
            assert_eq!(cc.items.len(), 1);
            assert!(matches!(cc.items[0], ClassItem::Range(0x30, 0x39)));
        }
        _ => panic!("expected Class, got {:?}", pat),
    }
}

#[test]
fn dot_atom_means_negated_empty_class_any_char() {
    let g = parse_grammar("ANY = .; main = ANY;").expect("ok");
    let pat = &g.tokens.get("ANY").unwrap().pattern;
    match pat {
        TokenPattern::Class(cc) => {
            assert!(cc.negated);
            assert!(cc.items.is_empty());
        }
        _ => panic!("expected negated class, got {:?}", pat),
    }
}

#[test]
fn negated_class_with_bang() {
    let g = parse_grammar("X = !'a'; main = X;").expect("ok");
    let pat = &g.tokens.get("X").unwrap().pattern;
    match pat {
        TokenPattern::Class(cc) => {
            assert!(cc.negated);
            assert_eq!(cc.items.len(), 1);
            assert!(matches!(cc.items[0], ClassItem::Char(0x61)));
        }
        _ => panic!("expected negated class, got {:?}", pat),
    }
}

#[test]
fn unicode_escape_in_char_literal() {
    let g = parse_grammar("X = '\\u{0041}'; main = X;").expect("ok");
    let pat = &g.tokens.get("X").unwrap().pattern;
    assert!(matches!(pat, TokenPattern::Literal(ref s) if s == "A"));
}

#[test]
fn string_atom_in_rule_body_is_rejected() {
    let errs = parse_grammar("T = \"t\"; main = \"t\";")
        .err()
        .expect("err");
    assert!(errs
        .iter()
        .any(|e| e.message.contains("string literal atoms")));
}

#[test]
fn char_atom_in_rule_body_is_rejected() {
    let errs = parse_grammar("T = \"t\"; main = 'a';").err().expect("err");
    assert!(errs.iter().any(|e| e.message.contains("character atom")));
}

#[test]
fn parser_duplicate_token_and_rule_names_flagged() {
    let errs = parse_grammar("T = \"t\"; T = \"u\"; r = T; r = T;")
        .err()
        .expect("err");
    assert!(errs.iter().any(|e| e.message == "duplicate token: T"));
    assert!(errs.iter().any(|e| e.message == "duplicate rule: r"));
}

#[test]
fn empty_source_yields_empty_grammar() {
    let g = parse_grammar("").expect("ok");
    assert!(g.tokens.is_empty());
    assert!(g.rules.is_empty());
}

#[test]
fn comments_and_whitespace_are_skipped() {
    let src = "
        // a leading comment
        A = \"a\"; // trailing
        // between
        main = A;
    ";
    let g = parse_grammar(src).expect("ok");
    assert_eq!(g.tokens.len(), 1);
    assert!(g.tokens.get("A").is_some());
    assert_eq!(g.rules.len(), 1);
    assert!(g.rules.get("main").is_some());
}

#[test]
fn multiple_decls_preserve_source_order() {
    let g = parse_grammar("Z = \"z\"; A = \"a\"; second = A; first = Z;").expect("ok");
    let token_names: Vec<&str> = g.tokens.values().map(|t| t.name.as_str()).collect();
    let rule_names: Vec<&str> = g.rules.values().map(|r| r.name.as_str()).collect();
    assert_eq!(token_names, vec!["Z", "A"]);
    assert_eq!(rule_names, vec!["second", "first"]);
}

#[test]
fn negated_class_with_grouped_alternatives() {
    let g = parse_grammar("X = !('a' | 'b'); main = X;").expect("ok");
    let pat = &g.tokens.get("X").unwrap().pattern;
    match pat {
        TokenPattern::Class(cc) => {
            assert!(cc.negated);
            assert_eq!(cc.items.len(), 2);
        }
        _ => panic!("expected negated class, got {:?}", pat),
    }
}

// ----- NegLook (string negation) -----------------------------------

#[test]
fn neg_string_under_star_yields_neg_look() {
    let g = parse_grammar(r#"BLOCK = "/*" !"*/"* "*/"; main = BLOCK;"#).expect("ok");
    let pat = &g.tokens.get("BLOCK").unwrap().pattern;
    // Walk to the Star inside the Seq.
    let TokenPattern::Concat(xs) = pat else {
        panic!("expected Seq, got {:?}", pat)
    };
    let TokenPattern::Star(inner) = &xs[1] else {
        panic!("expected Star at position 1, got {:?}", xs[1])
    };
    match inner.as_ref() {
        TokenPattern::NegLook { chars, strings } => {
            assert!(chars.negated);
            assert!(chars.items.is_empty());
            assert_eq!(strings, &vec!["*/".to_string()]);
        }
        other => panic!("expected NegLook, got {:?}", other),
    }
}

#[test]
fn neg_string_grouped_with_chars_yields_neg_look() {
    let g = parse_grammar(r#"T = !("*/" | '\n')*; B = "x"; main = T B;"#).expect("ok");
    let pat = &g.tokens.get("T").unwrap().pattern;
    let TokenPattern::Star(inner) = pat else {
        panic!("expected Star, got {:?}", pat)
    };
    match inner.as_ref() {
        TokenPattern::NegLook { chars, strings } => {
            assert!(chars.negated);
            assert_eq!(chars.items.len(), 1); // '\n'
            assert_eq!(strings, &vec!["*/".to_string()]);
        }
        other => panic!("expected NegLook, got {:?}", other),
    }
}

#[test]
fn single_codepoint_string_in_neg_collapses_to_chars() {
    // !"x"  is identical to !'x'  — both produce a Class, not a NegLook.
    let g = parse_grammar(r#"T = !"x"*; B = "y"; main = T B;"#).expect("ok");
    let pat = &g.tokens.get("T").unwrap().pattern;
    let TokenPattern::Star(inner) = pat else {
        panic!("expected Star, got {:?}", pat)
    };
    match inner.as_ref() {
        TokenPattern::Class(cc) => {
            assert!(cc.negated);
            assert_eq!(cc.items.len(), 1);
            assert!(matches!(cc.items[0], ClassItem::Char(0x78)));
        }
        other => panic!("expected Class, got {:?}", other),
    }
}

#[test]
fn empty_neg_string_is_rejected() {
    let errs = parse_grammar(r#"T = !""*; B = "x"; main = T B;"#)
        .err()
        .expect("err");
    assert!(
        errs.iter().any(|e| e.message.contains("empty string")),
        "diagnostics: {:?}",
        errs.iter().map(|e| &e.message).collect::<Vec<_>>()
    );
}

#[test]
fn neg_string_with_range_atom_is_rejected() {
    // Mixing a string with a char range inside the same `!(...)` is
    // refused — the AC trie can't handle ranges-on-each-position.
    let errs = parse_grammar(r#"T = !('a'..'z' | "abc")*; B = "x"; main = T B;"#)
        .err()
        .expect("err");
    assert!(
        errs.iter().any(|e| e.message.contains("ranges are not supported")),
        "diagnostics: {:?}",
        errs.iter().map(|e| &e.message).collect::<Vec<_>>()
    );
}

#[test]
fn string_with_escape_unquotes_correctly() {
    let g = parse_grammar(r#"NL = "\n"; main = NL;"#).expect("ok");
    let pat = &g.tokens.get("NL").unwrap().pattern;
    assert!(matches!(pat, TokenPattern::Literal(ref s) if s == "\n"));
}

// ----- Modes & action syntax ---------------------------------------

#[test]
fn inline_mode_pre_tags_single_token() {
    let g = parse_grammar(
        "@mode(tag) NAME = \"x\"; OUTSIDE = \"y\"; main = NAME OUTSIDE;",
    )
    .expect("ok");
    assert_eq!(g.tokens.get("NAME").unwrap().modes, vec!["tag".to_string()]);
    assert_eq!(g.tokens.get("OUTSIDE").unwrap().modes, vec!["default".to_string()]);
}

// ----- Labels ------------------------------------------------------

#[test]
fn labeled_token_yields_label_expr() {
    let g = parse_grammar("A = \"a\"; B = \"b\"; r = name:A B;").expect("ok");
    let body = &g.rules.get("r").unwrap().body;
    let xs = match body {
        Expr::Concat(xs) => xs,
        other => panic!("expected Seq, got {:?}", other),
    };
    match &xs[0] {
        Expr::Label(name, inner) => {
            assert_eq!(name, "name");
            assert!(matches!(inner.as_ref(), Expr::Token(n) if n == "A"));
        }
        other => panic!("expected Label, got {:?}", other),
    }
    assert!(matches!(&xs[1], Expr::Token(n) if n == "B"));
}

#[test]
fn label_with_quantifier_wraps_inner() {
    // `name:A*` parses as `(name:A)*` — label binds tighter than `*`.
    let g = parse_grammar("A = \"a\"; r = name:A*;").expect("ok");
    let body = &g.rules.get("r").unwrap().body;
    match body {
        Expr::Star(inner) => match inner.as_ref() {
            Expr::Label(name, leaf) => {
                assert_eq!(name, "name");
                assert!(matches!(leaf.as_ref(), Expr::Token(n) if n == "A"));
            }
            other => panic!("expected Star(Label), got Star({:?})", other),
        },
        other => panic!("expected Star, got {:?}", other),
    }
}

#[test]
fn mode_pre_with_multiple_modes_records_each() {
    let g = parse_grammar(
        "@mode(a, b, c) X = \"x\"; @mode(a) Y = \"y\"; main = X Y;",
    )
    .expect("ok");
    assert_eq!(
        g.tokens.get("X").unwrap().modes,
        vec!["a".to_string(), "b".to_string(), "c".to_string()]
    );
    assert_eq!(g.tokens.get("Y").unwrap().modes, vec!["a".to_string()]);
}

#[test]
fn mode_pre_repeats_per_decl() {
    // Mode is a per-token attribute, not a scope. Applying it to
    // multiple decls is plain repetition.
    let src = r#"
        @mode(tag) NAME = "x";
        @mode(tag) EQ_T = "=";
        OUTSIDE = "o";
        main = NAME EQ_T OUTSIDE;
    "#;
    let g = parse_grammar(src).expect("ok");
    assert_eq!(g.tokens.get("NAME").unwrap().modes, vec!["tag".to_string()]);
    assert_eq!(g.tokens.get("EQ_T").unwrap().modes, vec!["tag".to_string()]);
    assert_eq!(g.tokens.get("OUTSIDE").unwrap().modes, vec!["default".to_string()]);
}

#[test]
fn push_action_records_mode_action() {
    let g = parse_grammar(
        "ENTER = \"enter\" -> push(tag); T = \"t\"; main = ENTER T;",
    )
    .expect("ok");
    let enter = g.tokens.get("ENTER").unwrap();
    assert_eq!(enter.mode_actions, vec![ModeAction::Push("tag".into())]);
    assert!(!enter.skip);
}

#[test]
fn pop_action_records_mode_action() {
    let g = parse_grammar(
        "@mode(tag) EXIT = \"exit\" -> pop; T = \"t\"; main = T;",
    )
    .expect("ok");
    let exit = g.tokens.get("EXIT").unwrap();
    assert_eq!(exit.mode_actions, vec![ModeAction::Pop]);
}

#[test]
fn pop_then_push_is_a_swap_top() {
    // `-> pop, push(b)` replaces the top of the stack — both actions
    // are kept in source order so codegen can emit them as written.
    let g = parse_grammar(
        "@mode(a) SWAP = \"s\" -> pop, push(b); T = \"t\"; main = T;",
    )
    .expect("ok");
    let swap = g.tokens.get("SWAP").unwrap();
    assert_eq!(
        swap.mode_actions,
        vec![ModeAction::Pop, ModeAction::Push("b".into())]
    );
}

#[test]
fn multiple_pushes_are_kept_in_order() {
    let g = parse_grammar(
        "DEEP = \"d\" -> push(a), push(b); T = \"t\"; main = T;",
    )
    .expect("ok");
    let deep = g.tokens.get("DEEP").unwrap();
    assert_eq!(
        deep.mode_actions,
        vec![ModeAction::Push("a".into()), ModeAction::Push("b".into())]
    );
}

#[test]
fn skip_with_push_is_rejected() {
    let errs = parse_grammar(
        "BUTTS = \"butts\" -> skip, push(foo); T = \"t\"; main = T;",
    )
    .err()
    .expect("err");
    assert!(errs
        .iter()
        .any(|e| e.message.contains("`skip` cannot be combined")));
}

#[test]
fn push_without_arg_is_rejected() {
    let errs = parse_grammar("ENTER = \"e\" -> push; T = \"t\"; main = T;")
        .err()
        .expect("err");
    assert!(errs
        .iter()
        .any(|e| e.message.contains("requires a mode name argument")));
}

#[test]
fn pop_with_arg_is_rejected() {
    let errs = parse_grammar("EXIT = \"e\" -> pop(foo); T = \"t\"; main = T;")
        .err()
        .expect("err");
    assert!(errs
        .iter()
        .any(|e| e.message.contains("`pop` action takes no argument")));
}

#[test]
fn unknown_pre_annotation_is_rejected() {
    let errs = parse_grammar("@bogus(x) T = \"t\"; main = T;")
        .err()
        .expect("err");
    assert!(errs
        .iter()
        .any(|e| e.message.contains("unknown pre-annotation `@bogus`")));
}

#[test]
fn mode_pre_on_rule_is_rejected() {
    let errs = parse_grammar("T = \"t\"; @mode(tag) main = T;")
        .err()
        .expect("err");
    assert!(errs
        .iter()
        .any(|e| e.message.contains("`@mode(...)` only applies to tokens")));
}

// ----- ParserConfig ------------------------------------------------

fn saw_ws(events: Vec<RawEvent>) -> bool {
    events.into_iter().any(|e| match e {
        Event::Token(t) => matches!(t.kind, Some(WS) | Some(COMMENT)),
        _ => false,
    })
}

#[test]
fn parser_config_emit_skips_yields_ws_tokens() {
    let (st, entry) = notation_table();
    let mut p = Parser::new(&st, "  // hi\n", entry, EmitSkips);
    assert!(saw_ws(p.events(1000)), "EmitSkips should yield skip tokens in the stream");
}

#[test]
fn parser_config_drop_skips_silences_ws_tokens() {
    let (st, entry) = notation_table();
    let mut p = Parser::new(&st, "  // hi\n", entry, DropSkips);
    assert!(!saw_ws(p.events(1000)), "DropSkips should silently consume skip tokens");
}

#[test]
fn mode_pre_on_fragment_is_metadata_only() {
    // A fragment with `@mode(foo)` carries the tag for completeness,
    // but since fragments are inlined at lex time the field is
    // effectively metadata.
    let g = parse_grammar(
        "@mode(tag) _NSTART = 'A'..'Z'; NAME = _NSTART; main = NAME;",
    )
    .expect("ok");
    let frag = g.tokens.get("_NSTART").expect("_NSTART");
    assert!(frag.is_fragment);
    assert_eq!(frag.modes, vec!["tag".to_string()]);
}

#[test]
fn the_notation_can_be_lowered() {
    let (st, i) = file_table().expect("the notation");
    assert_eq!(st.entry_states[i].0, "file");
    let (kept, entry) = notation_table();
    assert_eq!(st.entry_states[i].1, entry);
    assert_eq!(st.k, kept.k);
}

#[test]
fn definitions_stand_under_their_names() {
    let g = parse_grammar("A = \"a\"; _B = \"b\"; main = A _c; _c = A;").expect("ok");
    for (name, t) in &g.tokens {
        assert_eq!(name, &t.name);
        assert_eq!(t.is_fragment, name.starts_with('_'));
        assert!(name.trim_start_matches('_').starts_with(|c: char| c.is_ascii_uppercase()));
    }
    for (name, r) in &g.rules {
        assert_eq!(name, &r.name);
        assert_eq!(r.is_fragment, name.starts_with('_'));
        assert!(!name.trim_start_matches('_').starts_with(|c: char| c.is_ascii_uppercase()));
    }
    assert_eq!((g.tokens.len(), g.rules.len()), (2, 2));
}
