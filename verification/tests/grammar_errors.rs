//! What is said of grammar files that cannot be read.
use parsuna::grammar::literal::{unquote_char, unquote_string};
use parsuna::grammar::parse_grammar;
use parsuna::runtime::events::Error;
use parsuna::span::{Pos, Span};

fn errors(src: &str) -> Vec<String> {
    match parse_grammar(src) {
        Ok(_) => Vec::new(),
        Err(list) => list.iter().map(|e| e.render()).collect(),
    }
}

#[test]
fn literals_that_are_no_literals() {
    let cases = [
        ("A = ''; main = A;", "error[1:5-1:7]: empty char literal"),
        ("A = '\\q'; main = A;", "error[1:5-1:9]: unknown escape `\\q`"),
        (
            "A = \"\\u{}\"; main = A;",
            "error[1:5-1:11]: \\u{} escape must contain at least one hex digit",
        ),
        (
            "A = \"\\u{110000}\"; main = A;",
            "error[1:5-1:17]: \\u{110000} is not a valid Unicode codepoint",
        ),
        (
            "A = \"\\u{zz}\"; main = A;",
            "error[1:5-1:13]: invalid hex digit `z` in \\u{...} escape",
        ),
        ("A = \"\\u41\"; main = A;", "error[1:5-1:11]: expected `{` after `\\u` in escape"),
        (
            "A = \"\\u{1234567}\"; main = A;",
            "error[1:5-1:18]: \\u{...} escape has too many hex digits (max 6)",
        ),
        ("A = \"\\u{41\"; main = A;", "error[1:5-1:12]: unterminated \\u{...} escape"),
    ];
    for (src, want) in cases {
        assert_eq!(errors(src), vec![want], "{}", src);
    }
}

#[test]
fn declarations_that_make_no_sense() {
    let cases = [
        (
            "_A = \"a\" -> skip; main = B;",
            "error[1:1-1:3]: token `_A` is both marked `skip` and `_`-prefixed (fragment); pick one",
        ),
        (
            "A = \"a\"; main = A -> skip;",
            "error[1:22-1:26]: action `skip` only applies to tokens, not rules; drop it on `main`",
        ),
        (
            "A = \"a\"; main = A -> pop;",
            "error[1:22-1:25]: actions `push`/`pop` only apply to tokens, not rules; drop them on `main`",
        ),
        (
            "@mode(x) main = A;",
            "error[1:10-1:14]: `@mode(...)` only applies to tokens, not rules; drop it on `main`",
        ),
        (
            "@foo(x) A = \"a\"; main = A;",
            "error[1:2-1:5]: unknown pre-annotation `@foo`; supported pre-annotations: mode",
        ),
        (
            "A = \"a\" -> push; main = A;",
            "error[1:12-1:16]: `push` action requires a mode name argument: `push(mode)`",
        ),
        ("A = \"a\" -> pop(x); main = A;", "error[1:12-1:15]: `pop` action takes no argument"),
    ];
    for (src, want) in cases {
        assert_eq!(errors(src), vec![want], "{}", src);
    }
    assert_eq!(
        errors("A = \"a\"; A = \"b\"; main = A; main = A;"),
        vec!["error[1:10-1:18]: duplicate token: A", "error[1:29-1:38]: duplicate rule: main"]
    );
    assert_eq!(
        errors("_ = \"a\"; main = A;"),
        vec![
            "error[1:5-1:8]: string literal atoms are only valid inside token declarations",
            "error[1:1-1:2]: declaration name `_` has no letter to determine kind",
        ]
    );
}

#[test]
fn syntax_that_is_no_syntax() {
    assert!(errors("A = ; main = A").iter().any(|e| e.as_str() == "error[1:15]: expected SEMI"));
    assert!(errors("A = \"a\"; main = x: ;")
        .iter()
        .any(|e| e.ends_with("label `x:` must be followed by an atom or group")));
}

fn span() -> Span {
    Span::new(Pos::new(0, 1, 1), Pos::new(9, 1, 10))
}

#[test]
fn characters_in_quotes() {
    let mut issues: Vec<Error> = Vec::new();
    assert_eq!(unquote_char("'a'", span(), &mut issues), 0x61);
    assert_eq!(unquote_char("'\\n'", span(), &mut issues), 0x0A);
    assert_eq!(unquote_char("'\\''", span(), &mut issues), 0x27);
    assert_eq!(unquote_char("'\\u{1F600}'", span(), &mut issues), 0x1F600);
    assert_eq!(unquote_char("'€'", span(), &mut issues), 0x20AC);
    assert!(issues.is_empty());
    unquote_char("''", span(), &mut issues);
    assert_eq!(issues.len(), 1);
    assert_eq!(issues[0].message, "empty char literal");
    assert_eq!(issues[0].span, span());
}

#[test]
fn strings_in_quotes() {
    let mut issues: Vec<Error> = Vec::new();
    assert_eq!(unquote_string("\"a\\tb\"", span(), &mut issues), "a\tb");
    assert_eq!(unquote_string("\"\\\"\\\\\"", span(), &mut issues), "\"\\");
    assert_eq!(unquote_string("\"\\u{e9}\\u{41}\"", span(), &mut issues), "éA");
    assert_eq!(unquote_string("\"\"", span(), &mut issues), "");
    assert!(issues.is_empty());
    unquote_string("\"\\u{D800}\"", span(), &mut issues);
    assert_eq!(issues[0].message, "\\u{D800} is not a valid Unicode codepoint");
}
