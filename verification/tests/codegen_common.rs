//! Case conversion and escaping.
use parsuna::codegen::common::{
    escape_string, escape_string_bmp, pascal, screaming_snake, visit,
};
use parsuna::grammar::ir::Expr;

#[test]
fn pascal_capitalizes_words_and_drops_underscores() {
    assert_eq!(pascal("hello_world"), "HelloWorld");
    assert_eq!(pascal("foo"), "Foo");
    assert_eq!(pascal("ABC_DEF"), "AbcDef");
    assert_eq!(pascal(""), "");
    assert_eq!(pascal("_leading"), "Leading");
    assert_eq!(pascal("a_b_c"), "ABC");
}

#[test]
fn screaming_snake_uppercases_and_inserts_underscores() {
    assert_eq!(screaming_snake("helloWorld"), "HELLO_WORLD");
    assert_eq!(screaming_snake("foo"), "FOO");
    assert_eq!(screaming_snake("FooBar"), "FOO_BAR");
    assert_eq!(screaming_snake("already_snake"), "ALREADY_SNAKE");
}

#[test]
fn escape_string_handles_special_chars() {
    assert_eq!(escape_string("hi"), "hi");
    assert_eq!(escape_string("a\"b"), "a\\\"b");
    assert_eq!(escape_string("a\\b"), "a\\\\b");
    assert_eq!(escape_string("\n"), "\\n");
    assert_eq!(escape_string("\r"), "\\r");
    assert_eq!(escape_string("\t"), "\\t");
}

#[test]
fn escape_string_uses_braced_unicode_for_low_controls() {
    // Below 0x20 → `\u{0001}` style.
    assert_eq!(escape_string("\x01"), "\\u{0001}");
}

#[test]
fn escape_string_bmp_uses_unbraced_unicode_for_low_controls() {
    // BMP variant (Java/C# style).
    assert_eq!(escape_string_bmp("\x01"), "\\u0001");
}

#[test]
fn visit_hits_every_subexpression_pre_order() {
    // (A B)? — visits Opt, Seq, A, B
    let e = Expr::Opt(Box::new(Expr::Concat(vec![
        Expr::Token("A".into()),
        Expr::Token("B".into()),
    ])));
    let mut seen: Vec<String> = Vec::new();
    for x in visit(&e) {
        seen.push(match x {
            Expr::Empty => "Empty".into(),
            Expr::Token(n) => format!("Token({})", n),
            Expr::Rule(n) => format!("Rule({})", n),
            Expr::Concat(_) => "Seq".into(),
            Expr::Alt(_) => "Alt".into(),
            Expr::Opt(_) => "Opt".into(),
            Expr::Star(_) => "Star".into(),
            Expr::Plus(_) => "Plus".into(),
            Expr::Label(name, _) => format!("Label({})", name),
        });
    }
    assert_eq!(seen, vec!["Opt", "Seq", "Token(A)", "Token(B)"]);
}

#[test]
fn case_is_changed_beyond_ascii() {
    assert_eq!(pascal("élan_ÉTÉ"), "ÉlanÉté");
    assert_eq!(pascal("ß"), "SS");
    assert_eq!(screaming_snake("élanVital"), "ÉLAN_VITAL");
    assert_eq!(screaming_snake("straße"), "STRASSE");
}

/// Reads the characters of an escaped string back.
fn unescaped(s: &str) -> String {
    let cs: Vec<char> = s.chars().collect();
    let mut out = String::new();
    let mut i = 0;
    while i < cs.len() {
        if cs[i] != '\\' {
            out.push(cs[i]);
            i = i + 1;
            continue;
        }
        match cs[i + 1] {
            'n' => out.push('\n'),
            'r' => out.push('\r'),
            't' => out.push('\t'),
            'u' => {
                let at = if cs[i + 2] == '{' { i + 3 } else { i + 2 };
                let hex: String = cs[at..at + 4].iter().collect();
                out.push(char::from_u32(u32::from_str_radix(&hex, 16).unwrap()).unwrap());
                i = if cs[i + 2] == '{' { at + 3 } else { at + 2 };
            }
            c => out.push(c),
        }
        i = i + 2;
    }
    out
}

#[test]
fn escaping_can_be_undone() {
    let all: String = (0u32..0x100).filter_map(char::from_u32).collect();
    for s in ["", "a\\u0041\"", "\\\\n\n", "é\u{1F389}\u{1}1", all.as_str()] {
        assert_eq!(unescaped(&escape_string(s)), s);
        assert_eq!(unescaped(&escape_string_bmp(s)), s);
    }
}

#[test]
fn escaped_text_can_stand_between_quotes() {
    let all: String = (0u32..0x100).filter_map(char::from_u32).collect();
    for s in ["a\"b", "\\\"", "\u{7}\n", all.as_str()] {
        for e in [escape_string(s), escape_string_bmp(s)] {
            assert!(e.chars().all(|c| c as u32 >= 0x20));
            let mut cs = e.chars();
            while let Some(c) = cs.next() {
                assert_ne!(c, '"');
                if c == '\\' {
                    assert!(cs.next().is_some());
                }
            }
        }
    }
}
