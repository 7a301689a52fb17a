//! Reports on grammars and tables.
use parsuna::analysis::{analyze, AnalyzedGrammar};
use parsuna::grammar::ir::{CharClass, ClassItem, TokenPattern};
use parsuna::grammar::parse_grammar;
use parsuna::lowering::dump::{
    lowering_spans, lowering_text, mode_actions_suffix, spans_to_text, DumpSpanKind, SpanBuilder,
};
use parsuna::lowering::lower;
use parsuna::report::automaton::{byte_range_label, dfa_dot, dfa_text};
use parsuna::report::pattern::{format_char, format_class, format_pattern};
use parsuna::report::railroad::{dot_escape, rules_dot};
use parsuna::report::summary::{
    analysis_text, check_text, judge, rules_text, stats_text, tokens_text,
};

const SUMS: &str = "WS = \" \"+ -> skip;
NUM = '0'..'9'+;
PLUS = \"+\";
LP = \"(\";
RP = \")\";
main = sum;
sum = value (PLUS value)*;
value = n:NUM | LP sum RP;
";

fn analyzed(src: &str) -> AnalyzedGrammar {
    let g = parse_grammar(src).expect("parse");
    let outcome = analyze(g);
    assert!(!outcome.has_errors(), "{:?}", outcome.diagnostics);
    outcome.grammar.expect("grammar")
}

#[test]
fn tokens_of_a_grammar() {
    let ag = analyzed(SUMS);
    assert_eq!(
        tokens_text(&ag.grammar),
        "WS   = \" \"+ [skip]\nNUM  = [0-9]+\nPLUS = \"+\"\nLP   = \"(\"\nRP   = \")\"\n"
    );
}

#[test]
fn rules_of_a_grammar_as_trees() {
    let ag = analyzed(SUMS);
    let want = "main
└─ Rule(sum)

sum
└─ Seq
   ├─ Rule(value)
   └─ Star
      └─ Seq
         ├─ Token(PLUS)
         └─ Rule(value)

value
└─ Alt
   ├─ Label(n)
   │  └─ Token(NUM)
   └─ Seq
      ├─ Token(LP)
      ├─ Rule(sum)
      └─ Token(RP)
";
    assert_eq!(rules_text(&ag.grammar), want);
}

#[test]
fn rules_of_a_grammar_as_diagrams() {
    let ag = analyzed("A = \"a\"; m = A? A;");
    let want = "digraph grammar {
  rankdir=LR;
  compound=true;
  node [fontname=\"Menlo,Monaco,Consolas,monospace\"];
  edge [fontname=\"Menlo,Monaco,Consolas,monospace\", arrowsize=0.6];

  subgraph cluster_0 {
    label=\"m\";
    style=\"rounded\";
    labeljust=l;
    // start / end terminals of the production
    r0_start [shape=circle, label=\"\", width=0.2, style=filled, fillcolor=black];
    r0_end [shape=doublecircle, label=\"\", width=0.2];
    r0_a0 [shape=point, width=0.05];
    r0_a1 [shape=point, width=0.05];
    r0_t2 [shape=ellipse, label=\"A\"];
    r0_a0 -> r0_t2;
    r0_t2 -> r0_a1;
    r0_a0 -> r0_a1;
    r0_t3 [shape=ellipse, label=\"A\"];
    r0_a1 -> r0_t3;
    r0_start -> r0_a0;
    r0_t3 -> r0_end;
  }
}
";
    assert_eq!(rules_dot(&ag.grammar), want);
}

#[test]
fn analysis_of_a_grammar() {
    let ag = analyzed("A = \"a\"; B = \"b\"; main = opt B; opt = A?;");
    let want = "nullable:
  main                 no
  opt                  yes

FIRST (k=1):
  main                 {A, B}
  opt                  {A, ε}

FOLLOW:
  main                 {$}
  opt                  {$, B}
";
    assert_eq!(analysis_text(&ag), want);
}

#[test]
fn numbers_of_a_grammar() {
    let ag = analyzed(SUMS);
    let st = lower(&ag);
    let want = "grammar       : 
tokens        : 5 (0 fragments)
rules         : 3 (0 fragments)
LL(k)         : 1
mark kinds    : 3
state table   : 9 states
FIRST pool    : 3 interned
SYNC pool     : 3 interned
lexer DFA     : 6 states, start 1
entry points  : 3
";
    assert_eq!(stats_text(&ag, &st), want);
    assert_eq!(check_text(&ag), "grammar `` OK: 5 tokens, 3 rules, LL(1)\n");
}

#[test]
fn automaton_as_text() {
    let st = lower(&analyzed("A = \"ab\"; m = A;"));
    let want = "DFA: 3 real states, start = 1

state   1  -
                           'a'  -> 2
state   2  -
                           'b'  -> 3
state   3  accept=1(A)
            (terminal — no live transitions)
";
    assert_eq!(dfa_text(&st), want);
}

#[test]
fn automaton_as_graph() {
    let st = lower(&analyzed("A = \"ab\"; m = A;"));
    let want = "digraph lexer_dfa {
  rankdir=LR;
  node [fontname=\"Menlo,Monaco,Consolas,monospace\"];
  edge [fontname=\"Menlo,Monaco,Consolas,monospace\"];
  _start [shape=point, width=0.12];
  _start -> s1;
  s1 [shape=circle, label=\"1\"];
  s1 -> s2 [label=\"'a'\"];
  s2 [shape=circle, label=\"2\"];
  s2 -> s3 [label=\"'b'\"];
  s3 [shape=doublecircle, label=\"3\\nA\"];
}
";
    assert_eq!(dfa_dot(&st), want);
}

#[test]
fn state_table_as_text() {
    let st = lower(&analyzed(SUMS));
    let want = "FIRST-set intern pool (3):
  FIRST_0   {PLUS}
  FIRST_1   {NUM}
  FIRST_2   {LP}

SYNC-set intern pool (3):
  SYNC_0    {EOF}
  SYNC_1    {EOF, RP}
  SYNC_2    {EOF, PLUS, RP}

State table (9 states):
  1  main:enter    ; entry: main
         Enter main
         PushRet main:exit
         Jump sum:enter

  2  main:exit
         Exit main
         Ret

  3  sum:enter    ; entry: sum
         Enter sum
         PushRet sum:star
         Jump value:enter

  4  sum:star
         Star {PLUS} head=sum:star cont=sum:exit
           Expect PLUS sync={EOF, RP}
           Jump value:enter

  5  sum:exit
         Exit sum
         Ret

  6  value:enter    ; entry: value
         Enter value
         Jump value:dispatch

  7  value:dispatch
         Dispatch sync={EOF, PLUS, RP} cont=value:exit
           look(0):
             NUM ->
               Expect NUM sync={EOF, PLUS, RP} label=n
               Ret
             LP ->
               Expect LP sync={EOF, PLUS, RP}
               PushRet value:alt1:expect:RP
               Jump sum:enter
             else -> error

  8  value:exit
         Exit value
         Ret

  9  value:alt1:expect:RP
         Expect RP sync={EOF, PLUS, RP}
         Ret

";
    assert_eq!(lowering_text(&st), want);
    assert_eq!(spans_to_text(&lowering_spans(&st)), lowering_text(&st));
}

#[test]
fn spans_are_joined_to_lines() {
    let mut b = SpanBuilder::new();
    b.kw("Jump");
    b.plain(" ");
    b.label("a:b");
    b.newline();
    b.newline();
    b.comment("; end");
    let lines = b.finish();
    assert_eq!(lines.len(), 3);
    assert_eq!(lines[0].len(), 3);
    assert!(lines[0][0].kind == DumpSpanKind::Keyword);
    assert!(lines[1].is_empty());
    assert_eq!(spans_to_text(&lines), "Jump a:b\n\n; end\n");
}

#[test]
fn lines_of_spans_are_tidy() {
    let mut b = SpanBuilder::new();
    b.plain("");
    b.kw("Ju");
    b.kw("");
    b.kw("mp");
    b.plain(" ");
    b.plain("");
    b.plain(" ");
    b.newline();
    b.label("");
    let lines = b.finish();
    assert_eq!(spans_to_text(&lines), "Jump  \n");
    for line in &lines {
        for (i, span) in line.iter().enumerate() {
            assert!(!span.text.is_empty());
            assert!(i == 0 || line[i - 1].kind != span.kind);
        }
    }
    assert_eq!(lines[0].len(), 2);
}

#[test]
fn mode_actions_are_shown() {
    let st = lower(&analyzed(
        "A = \"a\" -> push(in); @mode(in) B = \"b\" -> pop; main = A B;",
    ));
    assert_eq!(mode_actions_suffix(&st, 1), " → push(in)");
    assert_eq!(mode_actions_suffix(&st, 2), " → pop");
    assert_eq!(mode_actions_suffix(&st, 3), "");
}

#[test]
fn characters_of_a_class() {
    assert_eq!(format_char(0x09), "\\t");
    assert_eq!(format_char(0x0A), "\\n");
    assert_eq!(format_char(0x0D), "\\r");
    assert_eq!(format_char(0x20), "\\ ");
    assert_eq!(format_char(0x22), "\\\"");
    assert_eq!(format_char(0x5C), "\\\\");
    assert_eq!(format_char(0x5D), "\\]");
    assert_eq!(format_char(0x2D), "\\-");
    assert_eq!(format_char(0x41), "A");
    assert_eq!(format_char(0x7F), "\\u007F");
    assert_eq!(format_char(0x1F600), "\\u1F600");
}

#[test]
fn classes_and_patterns() {
    let items = vec![ClassItem::Range(0x61, 0x7A), ClassItem::Char(0x5F)];
    assert_eq!(format_class(&CharClass { negated: false, items }), "[a-z_]");
    let items = vec![ClassItem::Char(0x0A)];
    assert_eq!(format_class(&CharClass { negated: true, items }), "[^\\n]");
    let lit = |s: &str| TokenPattern::Literal(s.to_string());
    assert_eq!(format_pattern(&lit("a\n\"é")), "\"a\\n\\\"é\"");
    let p = TokenPattern::seq(vec![lit("a"), TokenPattern::Opt(Box::new(lit("b")))]);
    assert_eq!(format_pattern(&p), "\"a\" \"b\"?");
    let p = TokenPattern::alt(vec![lit("a"), TokenPattern::Star(Box::new(lit("b")))]);
    assert_eq!(format_pattern(&p), "(\"a\" | \"b\"*)");
}

#[test]
fn bytes_of_an_edge() {
    assert_eq!(byte_range_label(0x61, 0x61), "'a'");
    assert_eq!(byte_range_label(0x30, 0x39), "'0'..'9'");
    assert_eq!(byte_range_label(0x0A, 0x20), "\\n..SP");
    assert_eq!(byte_range_label(0x80, 0xFF), "0x80..0xFF");
}

#[test]
fn labels_of_a_graph() {
    assert_eq!(dot_escape("a\"b\\c\nd"), "a\\\"b\\\\c\\nd");
}

#[test]
fn warnings_can_count_as_errors() {
    let src = "A = \"a\"; _B = \"b\"; main = A;";
    let (diags, g) = judge(analyze(parse_grammar(src).expect("parse")), false);
    assert_eq!(diags.len(), 1);
    assert!(!diags[0].is_error());
    assert!(g.is_some());
    let (diags, g) = judge(analyze(parse_grammar(src).expect("parse")), true);
    assert_eq!(diags.len(), 1);
    assert!(diags[0].is_error());
    assert!(g.is_none());
}
