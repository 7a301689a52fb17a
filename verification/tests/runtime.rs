//! Lowered grammars at run time.
use parsuna::analysis::{analyze, AnalyzedGrammar};
use parsuna::grammar::parse_grammar;
use parsuna::lowering::layout::layout;
use parsuna::lowering::optimize::optimize;
use parsuna::lowering::program::build;
use parsuna::lowering::validate::assert_runtime_invariants;
use parsuna::lowering::{
    lower, lower_with_opts, max_event_burst, DfaOpts, LoweringOpts, StateTable,
};
use parsuna::runtime::events::{Error, Event, TOKEN_EOF};
use parsuna::runtime::lexer::{
    utf8_char_len, LexerBackend, Pull, RawToken, Scanner, StreamingLexer, TableMatcher,
};
use parsuna::runtime::parser::{
    expected_message, DropSkips, EmitSkips, FedParser, FedTurn, Parser, RawEvent, Turn, TERMINATED,
};
use parsuna::span::{Pos, Span};

const SUMS: &str = "WS = \" \"+ -> skip;
NUM = '0'..'9'+;
PLUS = \"+\";
LP = \"(\";
RP = \")\";
main = sum;
sum = value (PLUS value)*;
value = n:NUM | LP sum RP;
";

const PAIRS: &str = "WS = \" \"+ -> skip;
A = \"a\";
B = \"b\";
C = \"c\";
main = pair pair;
pair = A B | A C;
";

fn analyzed(src: &str) -> AnalyzedGrammar {
    let g = parse_grammar(src).expect("parse");
    let outcome = analyze(g);
    assert!(!outcome.has_errors(), "{:?}", outcome.diagnostics);
    outcome.grammar.expect("grammar")
}

fn table(src: &str) -> StateTable {
    lower(&analyzed(src))
}

fn show(e: &RawEvent) -> String {
    match e {
        Event::Enter { rule, pos } => format!("+{}@{}", rule, pos.offset),
        Event::Exit { rule, pos } => format!("-{}@{}", rule, pos.offset),
        Event::Token(t) => match (t.kind, t.label) {
            (Some(k), Some(l)) => format!("{}:{}/{}", k, t.text, l),
            (Some(k), None) => format!("{}:{}", k, t.text),
            (None, _) => format!("?:{}", t.text),
        },
        Event::Garbage(t) => format!("garbage:{}", t.text),
        Event::Error(e) => e.render(),
    }
}

fn events_from(st: &StateTable, entry: u32, src: &str) -> Vec<RawEvent> {
    let mut p = Parser::new(st, src, entry, EmitSkips);
    p.events(10_000)
}

fn events(st: &StateTable, src: &str) -> Vec<RawEvent> {
    events_from(st, st.entry_states[0].1, src)
}

fn shown(v: &Vec<RawEvent>) -> Vec<String> {
    v.iter().map(show).collect()
}

fn given(e: &RawEvent) -> Option<&RawToken> {
    match e {
        Event::Token(t) => Some(t),
        Event::Garbage(t) => Some(t),
        _ => None,
    }
}

/// The rules that are open in the end; `None` if one was left that was not the
/// innermost.
fn open_rules(v: &Vec<RawEvent>) -> Option<Vec<u16>> {
    let mut open: Vec<u16> = Vec::new();
    for e in v {
        match e {
            Event::Enter { rule, .. } => open.push(*rule),
            Event::Exit { rule, .. } => {
                if open.pop() != Some(*rule) {
                    return None;
                }
            }
            _ => {}
        }
    }
    Some(open)
}

#[test]
fn events_of_a_sum() {
    let st = table(SUMS);
    assert_eq!(
        shown(&events(&st, "1 + (2)")),
        vec![
            "+0@0", "+1@0", "+2@0", "2:1/1", "1: ", "-2@1", "3:+", "1: ", "+2@4", "4:(", "+1@5",
            "+2@5", "2:2/1", "-2@6", "-1@6", "5:)", "-2@7", "-1@7", "-0@7",
        ]
    );
}

#[test]
fn another_entry_point() {
    let st = table(SUMS);
    assert_eq!(st.entry_states[2].0, "value");
    assert_eq!(
        shown(&events_from(&st, st.entry_states[2].1, "7")),
        vec!["+2@0", "2:7/1", "-2@1"]
    );
}

#[test]
fn an_error_lists_what_could_stand_there() {
    let st = table(SUMS);
    assert_eq!(
        shown(&events(&st, "1 +")),
        vec![
            "+0@0",
            "+1@0",
            "+2@0",
            "2:1/1",
            "1: ",
            "-2@1",
            "3:+",
            "+2@3",
            "error[1:4]: expected NUM | LP",
            "-2@3",
            "-1@3",
            "-0@3",
        ]
    );
    assert_eq!(expected_message(&st, &vec![5, TOKEN_EOF, 99]), "expected RP | EOF | ?");
}

#[test]
fn a_missing_token_is_recovered_from() {
    let st = table("A = \"a\"; B = \"b\"; C = \"c\"; S = \";\"; main = s s; s = A B S | B C S;");
    assert_eq!(
        shown(&events(&st, ";bc;")),
        vec![
            "+0@0",
            "+1@0",
            "error[1:1-1:2]: unexpected token",
            "garbage:;",
            "-1@1",
            "+1@1",
            "2:b",
            "3:c",
            "4:;",
            "-1@4",
            "-0@4",
        ]
    );
    assert_eq!(
        shown(&events(&st, "b;bc;")),
        vec![
            "+0@0",
            "+1@0",
            "2:b",
            "error[1:2-1:3]: expected C",
            "garbage:;",
            "error[1:3-1:4]: expected S",
            "-1@2",
            "+1@2",
            "2:b",
            "3:c",
            "4:;",
            "-1@5",
            "-0@5",
        ]
    );
}

#[test]
fn a_token_found_by_recovery_is_taken() {
    let st = table("A = \"a\"; B = \"b\"; C = \"c\"; main = s B A; s = A B;");
    // `s` is followed by `B`, which is also what is missing in it.
    assert_eq!(
        shown(&events(&st, "acbba")),
        vec![
            "+0@0",
            "+1@0",
            "1:a",
            "error[1:2-1:3]: expected B",
            "garbage:c",
            "2:b",
            "-1@3",
            "2:b",
            "1:a",
            "-0@5",
        ]
    );
}

#[test]
fn text_behind_the_entry_rule_is_garbage() {
    let st = table("A = \"a\"; main = A;");
    assert_eq!(
        shown(&events(&st, "aa")),
        vec![
            "+0@0",
            "1:a",
            "-0@1",
            "error[1:2-1:3]: expected end of input",
            "garbage:a",
        ]
    );
}

#[test]
fn an_unmatched_character_is_an_error_and_garbage() {
    let st = table("A = \"a\"; main = A A;");
    let v = events(&st, "a€a");
    assert_eq!(
        shown(&v),
        vec![
            "+0@0",
            "1:a",
            "error[1:2-1:3]: unexpected character",
            "garbage:€",
            "1:a",
            "-0@5",
        ]
    );
    let lost = given(&v[3]).expect("garbage");
    assert_eq!(lost.kind, None);
    match &v[2] {
        Event::Error(e) => assert_eq!(e.span, lost.span),
        _ => panic!("no error"),
    }
}

#[test]
fn a_parse_that_is_over_stays_over() {
    let st = table("A = \"a\"; main = A;");
    let mut p = Parser::new(&st, "a", st.entry_states[0].1, EmitSkips);
    let mut n = 0;
    loop {
        match p.turn() {
            Turn::Event(_) => n += 1,
            Turn::Again => {}
            Turn::Done => break,
        }
    }
    assert_eq!(n, 3);
    assert!(matches!(p.turn(), Turn::Done));
    assert!(matches!(p.turn(), Turn::Done));
    assert!(p.events(10).is_empty());
}

#[test]
fn events_stop_at_the_limit() {
    let st = table("A = \"a\"; main = A;");
    let mut p = Parser::new(&st, "a", st.entry_states[0].1, EmitSkips);
    // One turn fills the lookahead, one gives `Enter`.
    assert_eq!(shown(&p.events(2)), vec!["+0@0"]);
    assert_eq!(shown(&p.events(100)), vec!["1:a", "-0@1"]);
}

#[test]
fn dropping_skips_drops_nothing_else() {
    let st = table(SUMS);
    for src in ["1 + (2)", " 1 ", "1 + ? 2", ") 1", ""] {
        let with: Vec<String> = events(&st, src)
            .iter()
            .filter(|e| match e {
                Event::Token(t) => t.kind != Some(1),
                _ => true,
            })
            .map(show)
            .collect();
        let mut p = Parser::new(&st, src, st.entry_states[0].1, DropSkips);
        let without: Vec<String> = p.events(10_000).iter().map(show).collect();
        assert_eq!(with, without, "{:?}", src);
    }
}

#[test]
fn events_spell_the_text() {
    let st = table(SUMS);
    assert_eq!(st.k, 1);
    for src in ["1 + (2)", "  12 + ? €3", ") 1", "((1)", ""] {
        let mut at: usize = 0;
        let mut text = String::new();
        for t in events(&st, src).iter().filter_map(given) {
            assert_eq!(t.span.start.offset as usize, at);
            at = t.span.end.offset as usize;
            text.push_str(&t.text);
        }
        assert_eq!(text, src);
    }
}

#[test]
fn every_byte_is_given_once_with_more_lookahead() {
    let st = table(PAIRS);
    assert_eq!(st.k, 2);
    for src in ["ab ac", "a b a c", "aab?", ""] {
        let v = events(&st, src);
        for b in 0..src.len() {
            let n = v
                .iter()
                .filter_map(given)
                .filter(|t| {
                    t.span.start.offset as usize <= b && b < t.span.end.offset as usize
                })
                .count();
            assert_eq!(n, 1, "byte {} of {:?}", b, src);
        }
    }
}

#[test]
fn skip_tokens_can_overtake_with_more_lookahead() {
    let st = table(PAIRS);
    let v = events(&st, "a bac");
    assert_eq!(
        shown(&v),
        vec![
            "1: ", "+0@0", "+1@0", "2:a", "3:b", "-1@3", "+1@3", "2:a", "4:c", "-1@5", "-0@5",
        ]
    );
}

#[test]
fn rules_are_left_in_order() {
    let st = table(SUMS);
    for src in ["1 + (2)", "1 +", ") 1", "((1)", ""] {
        assert_eq!(open_rules(&events(&st, src)), Some(Vec::new()), "{:?}", src);
    }
}

#[test]
fn an_insertion_goes_on_behind_what_is_missing() {
    let st = table(
        "X = \"x\"; Y = \"y\"; Z = \"z\"; W = \"w\"; C = \"c\";
         main = (a | b) C; a = c Y; c = X?; b = Z W;",
    );
    assert_eq!(
        shown(&events(&st, "")),
        vec![
            "+0@0",
            "error[1:1]: expected X | Y | Z",
            "+2@0",
            "-2@0",
            "error[1:1]: expected C",
            "-0@0",
        ]
    );
    assert_eq!(
        shown(&events(&st, "yc")),
        vec!["+0@0", "+1@0", "+2@0", "-2@0", "2:y", "-1@1", "5:c", "-0@2"]
    );
}

#[test]
fn a_rule_that_was_not_entered_is_not_left() {
    let st = table(
        "Y = \"y\"; D = \"d\"; K = \"k\";
         main = _f | D; _f = r Y; r = ; q = r K;",
    );
    assert_eq!(
        shown(&events(&st, "k")),
        vec!["+0@0", "error[1:1-1:2]: unexpected token", "garbage:k", "-0@1"]
    );
    assert_eq!(shown(&events(&st, "")), vec!["+0@0", "error[1:1]: expected Y | D", "-0@0"]);
    assert_eq!(shown(&events(&st, "y")), vec!["+0@0", "+1@0", "-1@0", "1:y", "-0@1"]);
    for src in ["k", "", "y", "d", "dk", "yk", "kyd"] {
        assert_eq!(open_rules(&events(&st, src)), Some(Vec::new()), "{:?}", src);
    }
}

#[test]
fn a_parse_without_an_error_is_a_derivation() {
    let st = table(
        "A = \"a\"; B = \"b\"; C = \"c\";
         main = item+ _end; item = first:A _rest?; _rest = B rest:A; _end = C B;",
    );
    assert_eq!(
        shown(&events(&st, "abaacb")),
        vec![
            "+0@0", "+1@0", "1:a/1", "2:b", "1:a/2", "-1@3", "+1@3", "1:a/1", "-1@4", "3:c", "2:b",
            "-0@6",
        ]
    );
}

#[test]
fn every_sentence_is_accepted_where_the_lookahead_decides() {
    let st = table(
        "WS = \" \"+ -> skip; A = \"a\"; B = \"b\"; C = \"c\"; D = \"d\";
         main = A? part* end; part = B (C | D)+ | none _more; none = ; _more = C; end = D?;",
    );
    assert_eq!(st.k, 1);
    for src in ["", "a", "d", "ad", "bc", "a bcdd c", "c c bd c", "abccbddcbd"] {
        let got = shown(&events(&st, src));
        assert!(!got.iter().any(|e| e.starts_with("error")), "{:?} {:?}", src, got);
    }
    let two = table(
        "A = \"a\"; B = \"b\"; C = \"c\"; D = \"d\";
         main = (A B | A C)? D pair?; pair = A (B | C) | A D;",
    );
    assert_eq!(two.k, 2);
    for src in ["d", "abd", "acd", "dab", "dac", "dad", "abdac", "acdad"] {
        let got = shown(&events(&two, src));
        assert!(!got.iter().any(|e| e.starts_with("error")), "{:?} {:?}", src, got);
    }
    let text = "1 + (2+(3)) + 4";
    assert!(!shown(&events(&table(SUMS), text)).iter().any(|e| e.starts_with("error")));
}

#[test]
fn states_give_one_event_at_a_time() {
    for src in [SUMS, PAIRS] {
        assert_eq!(max_event_burst(&table(src)), 1);
    }
    assert_eq!(max_event_burst(&table("A = \"a\"; _main = A; main = _main;")), 1);
}

#[test]
fn lowered_tables_can_be_run() {
    for src in [SUMS, PAIRS] {
        assert!(assert_runtime_invariants(&table(src)));
    }
}

#[test]
fn options_are_taken_where_they_can_be() {
    let st = table("A = \"a\"; B = \"b\"; main = A? A B;");
    assert_eq!(shown(&events(&st, "aab")), vec!["+0@0", "1:a", "1:a", "2:b", "-0@3"]);
    assert_eq!(shown(&events(&st, "ab"))[2], "error[1:2-1:3]: expected A");
}

#[test]
fn passes_change_no_event() {
    let off = LoweringOpts {
        inline_jumps: false,
        fold_trampolines: false,
        inline_branch_bodies: false,
        eliminate_dead: false,
    };
    let on = LoweringOpts {
        inline_jumps: true,
        fold_trampolines: true,
        inline_branch_bodies: true,
        eliminate_dead: true,
    };
    for (grammar, good) in [(SUMS, "1 + (2)"), (PAIRS, "ab ac")] {
        let ag = analyzed(grammar);
        let plain = layout(build(&ag), &ag, DfaOpts { minimize: true });
        let mut fast = layout(build(&ag), &ag, DfaOpts { minimize: true });
        optimize(&mut fast, on);
        assert!(fast.states.len() < plain.states.len());
        for src in ["1 + (2)", "1 +", ") 1", "((1)", "ab ac", "aab", "abc", "?", ""] {
            assert_eq!(shown(&events(&plain, src)), shown(&events(&fast, src)), "{:?}", src);
        }
        let a = lower_with_opts(&ag, off, DfaOpts { minimize: false });
        let b = lower_with_opts(&ag, on, DfaOpts { minimize: true });
        assert_eq!(shown(&events(&a, good)), shown(&events(&b, good)));
    }
}

#[test]
fn the_longest_match_wins_then_the_first() {
    let st = table("IF = \"if\"; ID = 'a'..'z'+; main = (IF | ID)*;");
    assert_eq!(shown(&events(&st, "if")), vec!["+0@0", "1:if", "-0@2"]);
    assert_eq!(shown(&events(&st, "ifs")), vec!["+0@0", "2:ifs", "-0@3"]);
    assert_eq!(shown(&events(&st, "i")), vec!["+0@0", "2:i", "-0@1"]);
}

#[test]
fn modes_change_what_is_lexed() {
    let st = table(
        "OPEN = \"<\" -> push(tag);
         TEXT = 'a'..'z'+;
         @mode(tag) NAME = 'a'..'z'+;
         @mode(tag) CLOSE = \">\" -> pop;
         main = (OPEN NAME CLOSE | TEXT)*;",
    );
    assert_eq!(
        shown(&events(&st, "a<b>c")),
        vec!["+0@0", "2:a", "1:<", "3:b", "4:>", "2:c", "-0@5"]
    );
}

#[test]
fn recovery_leaves_the_modes_of_the_rule() {
    let st = table(
        "OPEN = \"<\" -> push(tag);
         TEXT = 'a'..'z'+;
         @mode(tag) NAME = 'a'..'z'+;
         @mode(tag) CLOSE = \">\" -> pop;
         main = item*;
         item = tag | TEXT;
         tag = OPEN NAME CLOSE;",
    );
    // The `>` that is missing ends the tag: what follows is text again.
    let v = events(&st, "<a<b>c");
    assert_eq!(open_rules(&v), Some(Vec::new()));
    assert!(v.iter().any(|e| matches!(e, Event::Error(_))));
    let last = v.iter().filter_map(given).last().expect("a token");
    assert_eq!((last.kind, last.text.as_str()), (Some(2), "c"));
}

#[test]
fn length_of_a_character_from_its_first_byte() {
    for c in ['a', 'é', '€', '😀', '\u{7F}', '\u{7FF}', '\u{FFFF}'] {
        let mut buf = [0u8; 4];
        let s = c.encode_utf8(&mut buf);
        assert_eq!(utf8_char_len(s.as_bytes()[0]), c.len_utf8());
    }
    assert_eq!(utf8_char_len(0x80), 1);
    assert_eq!(utf8_char_len(0xFF), 4);
}

#[test]
fn a_scanner_gives_places_and_the_end() {
    let st = table("A = \"a\"; NL = \"\\n\"; main = (A | NL)*;");
    let mut s = Scanner::new("é\na", TableMatcher { modes: &st.modes });
    let t = s.next_token();
    assert_eq!(t.kind, None);
    assert_eq!(t.text, "é");
    assert_eq!(t.span, Span::new(Pos::new(0, 1, 1), Pos::new(2, 1, 2)));
    let t = s.next_token();
    assert_eq!((t.kind, t.text.as_str()), (Some(2), "\n"));
    let t = s.next_token();
    assert_eq!((t.kind, t.text.as_str()), (Some(1), "a"));
    assert_eq!(t.span, Span::new(Pos::new(3, 2, 1), Pos::new(4, 2, 2)));
    for _ in 0..2 {
        let t = s.next_token();
        assert_eq!((t.kind, t.text.as_str()), (Some(TOKEN_EOF), ""));
        assert_eq!(t.span, Span::point(Pos::new(4, 2, 2)));
    }
}

#[test]
fn the_last_mode_stays() {
    let st = table("A = \"a\"; main = A;");
    let mut s = Scanner::new("a", TableMatcher { modes: &st.modes });
    assert_eq!(s.mode_depth(), 1);
    s.pop_mode();
    assert_eq!(s.mode_depth(), 1);
    s.push_mode(1);
    s.push_mode(2);
    s.push_mode(3);
    assert_eq!(s.mode_depth(), 4);
    s.pop_modes_to(2);
    assert_eq!(s.mode_depth(), 2);
    s.pop_modes_to(0);
    assert_eq!(s.mode_depth(), 1);
}

fn streamed(st: &StateTable, bytes: &[u8], size: usize) -> Vec<RawToken> {
    let mut lex = StreamingLexer::new(TableMatcher { modes: &st.modes });
    let mut out: Vec<RawToken> = Vec::new();
    let mut at: usize = 0;
    loop {
        match lex.next_token() {
            Pull::More => {
                if at == bytes.len() {
                    lex.finish();
                } else {
                    let to = (at + size).min(bytes.len());
                    lex.feed(&bytes[at..to].to_vec());
                    at = to;
                }
            }
            Pull::Token(t) => {
                let end = t.kind == Some(TOKEN_EOF);
                out.push(t);
                if end {
                    return out;
                }
            }
        }
    }
}

#[test]
fn streaming_gives_what_a_scanner_gives() {
    let st = table(SUMS);
    let src = "12 + (3 + ?€) ".repeat(3000);
    let mut s = Scanner::new(&src, TableMatcher { modes: &st.modes });
    let mut all: Vec<RawToken> = Vec::new();
    loop {
        let t = s.next_token();
        let end = t.kind == Some(TOKEN_EOF);
        all.push(t);
        if end {
            break;
        }
    }
    for size in [1000, 4096, 100_000] {
        assert_eq!(streamed(&st, src.as_bytes(), size), all);
    }
}

#[test]
fn bytes_that_are_no_text_are_replaced() {
    let st = table("A = \"a\"; main = A;");
    let v = streamed(&st, &[0x61, 0x80, 0x61], 1);
    let texts: Vec<&str> = v.iter().map(|t| t.text.as_str()).collect();
    assert_eq!(texts, vec!["a", "\u{FFFD}", "a", ""]);
    assert_eq!(v[1].kind, None);
}

#[test]
fn an_error_without_a_place() {
    let e = Error::new("oops".to_string());
    assert_eq!(e.render(), "error[0:0]: oops");
    let e = e.at(Span::new(Pos::new(3, 2, 1), Pos::new(5, 2, 3)));
    assert_eq!(e.render(), "error[2:1-2:3]: oops");
}

#[test]
fn the_tokens_of_a_scanner_spell_the_text() {
    let st = table(SUMS);
    let src = "1 + é\n(23 ?+ 4)";
    let mut s = Scanner::new(src, TableMatcher { modes: &st.modes });
    let mut spelled = String::new();
    let mut at = Pos::new(0, 1, 1);
    loop {
        let t = s.next_token();
        assert_eq!(t.span.start, at);
        at = t.span.end;
        spelled.push_str(&t.text);
        if t.kind == Some(TOKEN_EOF) {
            break;
        }
    }
    assert_eq!(spelled, src);
    assert_eq!(at, Pos::new(src.len() as u32, 2, 10));
}

#[test]
fn the_last_mode_of_a_stream_stays() {
    let st = table("A = \"a\"; main = A;");
    let mut s = StreamingLexer::new(TableMatcher { modes: &st.modes });
    assert_eq!(s.mode_depth(), 1);
    s.push_mode(1);
    s.push_mode(2);
    s.push_mode(3);
    assert_eq!(s.mode_depth(), 4);
    s.pop_modes_to(6);
    assert_eq!(s.mode_depth(), 4);
    s.pop_modes_to(2);
    assert_eq!(s.mode_depth(), 2);
    s.pop_modes_to(0);
    assert_eq!(s.mode_depth(), 1);
}

#[test]
fn no_state_is_the_end() {
    assert_eq!(TERMINATED, 0);
    let st = table(SUMS);
    assert!(st.states.values().iter().all(|s| s.id != TERMINATED));
}

#[test]
fn the_next_event_or_the_end() {
    let st = table("A = \"a\"; main = A;");
    let mut p = Parser::new(&st, "a", st.entry_states[0].1, EmitSkips);
    // One turn fills the lookahead.
    assert!(matches!(p.next_event(1), Turn::Again));
    let mut seen: Vec<String> = Vec::new();
    loop {
        match p.next_event(100) {
            Turn::Event(e) => seen.push(show(&e)),
            Turn::Again => panic!("no event"),
            Turn::Done => break,
        }
    }
    assert_eq!(seen, vec!["+0@0", "1:a", "-0@1"]);
    assert!(matches!(p.next_event(100), Turn::Done));
}

#[test]
fn a_parse_need_not_end() {
    // The loop of `item` is entered on the second `A`, no alternative is taken
    // with the end of input behind it, and recovery stops at an `A`, with which
    // the next `item` can begin.
    let st = table("A = \"a\"; C = \"c\"; D = \"d\"; main = item*; item = (A | A C)* D;");
    assert_eq!(st.k, 2);
    let mut p = Parser::new(&st, "aa", st.entry_states[0].1, EmitSkips);
    let seen = p.events(10_000);
    assert!(!matches!(p.next_event(100), Turn::Done), "{:?}", shown(&seen));
}

fn clean(st: &StateTable, src: &str) -> bool {
    events(st, src).iter().all(|e| !matches!(e, Event::Error(_) | Event::Garbage(_)))
}

#[test]
fn a_loop_over_alternatives_sees_what_comes_behind_it() {
    let st = table(
        "A = \"a\"; B = \"b\"; C = \"c\"; main = (A | B)* C; other = A B | A C;",
    );
    assert_eq!(st.k, 2);
    for src in ["c", "ac", "bc", "abc", "abbac"] {
        assert!(clean(&st, src), "{}", src);
    }
    for src in ["", "a", "ab", "ca"] {
        assert!(!clean(&st, src), "{}", src);
    }
    let st = table("A = \"a\"; C = \"c\"; D = \"d\"; main = (A | A C)+ D;");
    assert_eq!(st.k, 2);
    for src in ["ad", "acd", "aacad"] {
        assert!(clean(&st, src), "{}", src);
    }
    let st = table("A = \"a\"; C = \"c\"; main = (A | A C)*;");
    for src in ["", "a", "ac", "aaca"] {
        assert!(clean(&st, src), "{}", src);
    }
}

/// The events of a parser that gets the bytes in pieces, and how often it asked
/// for more.
fn fed_events(st: &StateTable, bytes: &[u8], size: usize) -> (Vec<String>, usize) {
    let mut p = FedParser::new(st, st.entry_states[0].1, EmitSkips);
    let mut out: Vec<String> = Vec::new();
    let mut asked: usize = 0;
    let mut at: usize = 0;
    loop {
        match p.turn() {
            FedTurn::Event(e) => out.push(show(&e)),
            FedTurn::Again => {}
            FedTurn::More => {
                asked += 1;
                if at == bytes.len() {
                    p.finish();
                } else {
                    let to = (at + size).min(bytes.len());
                    p.feed(&bytes[at..to].to_vec());
                    at = to;
                }
            }
            FedTurn::Done => return (out, asked),
        }
    }
}

#[test]
fn a_fed_parser_gives_what_a_parser_gives() {
    let st = table(SUMS);
    for src in ["1 + (2 + 3)", "", "1 + ? 2", "(((", "12"] {
        let all = shown(&events(&st, src));
        for size in [1, 3, 100] {
            assert_eq!(fed_events(&st, src.as_bytes(), size).0, all, "{:?} {}", src, size);
        }
    }
    let long = "12 + (3 + ?) + ".repeat(4000);
    let all = shown(&Parser::new(&st, &long, st.entry_states[0].1, EmitSkips).events(1_000_000));
    let (some, asked) = fed_events(&st, long.as_bytes(), 10_000);
    assert_eq!(some, all);
    assert!(asked >= 6);
}

#[test]
fn a_fed_parser_works_before_all_is_there() {
    let st = table(SUMS);
    let mut p = FedParser::new(&st, st.entry_states[0].1, DropSkips);
    assert!(matches!(p.turn(), FedTurn::More));
    p.feed(&"1 + 2 + ".repeat(5000).into_bytes());
    let mut tokens = 0;
    loop {
        match p.turn() {
            FedTurn::Event(Event::Token(_)) => tokens += 1,
            FedTurn::More => break,
            FedTurn::Done => panic!("done"),
            _ => {}
        }
    }
    assert!(tokens > 1000);
}

#[test]
fn the_text_of_a_token_is_that_of_its_span() {
    let st = table("A = \"a\"; E = \"é\"+; main = (A | E)*;");
    let src = "aéé?a€é";
    let mut s = Scanner::new(src, TableMatcher { modes: &st.modes });
    loop {
        let t = s.next_token();
        let (from, to) = (t.span.start.offset as usize, t.span.end.offset as usize);
        assert_eq!(t.text, &src[from..to]);
        if t.kind.is_none() {
            assert_eq!(t.text.chars().count(), 1);
        }
        if t.kind == Some(TOKEN_EOF) {
            assert_eq!(to, src.len());
            break;
        }
    }
    assert_eq!(s.next_token().kind, Some(TOKEN_EOF));
}

#[test]
fn a_scanner_can_be_moved_on() {
    let st = table("A = \"a\"; main = A;");
    let src = "é\nab\n\nc";
    for cut in 0..=src.len() {
        let mut s = Scanner::new(src, TableMatcher { modes: &st.modes });
        s.advance(cut);
        s.advance(src.len() - cut);
        assert_eq!(s.cur_pos(), Pos::new(src.len() as u32, 4, 2));
    }
}
