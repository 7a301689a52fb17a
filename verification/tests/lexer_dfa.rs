//! The lexer automaton.
use parsuna::grammar::ir::{CharClass, ClassItem, TokenPattern};
use parsuna::lowering::aho_corasick::AcAutomaton;
use parsuna::lowering::lexer_dfa::{compile, compile_with_opts, DfaOpts, DfaState, DEAD, START};
use parsuna::lowering::subset::partition_ranges;
use parsuna::lowering::utf8_ranges::{
    class_byte_seqs, complement_codepoints, encode, utf8_byte_sequences, utf8_len,
};
use parsuna::lowering::TokenInfo;

fn step(s: &DfaState, b: u8) -> u32 {
    for arm in &s.arms {
        for &(lo, hi) in &arm.ranges {
            if lo <= b && b <= hi {
                return arm.target;
            }
        }
    }
    DEAD
}

/// Find a state by id (real states only; the dead sentinel never
/// appears in `dfa`).
fn by_id(dfa: &[DfaState], id: u32) -> &DfaState {
    dfa.iter().find(|s| s.id == id).expect("state id not in dfa")
}

fn scan(dfa: &[DfaState], bytes: &[u8]) -> Option<(usize, u16)> {
    let mut state = START;
    let mut pos = 0;
    let mut last: Option<(usize, u16)> = None;
    loop {
        if pos < bytes.len() {
            let next = step(by_id(dfa, state), bytes[pos]);
            if next != DEAD {
                state = next;
                pos += 1;
                if let Some(k) = by_id(dfa, state).accept {
                    last = Some((pos, k));
                }
                continue;
            }
        }
        return last;
    }
}

fn tok(name: &str, pat: TokenPattern) -> TokenInfo {
    TokenInfo {
        name: name.into(),
        display_name: name.into(),
        pattern: pat,
        skip: false,
        kind: 0,
        mode_ids: vec![0],
        mode_actions: Vec::new(),
    }
}

fn toks(xs: Vec<TokenInfo>) -> Vec<TokenInfo> {
    xs.into_iter()
        .enumerate()
        .map(|(i, mut t)| {
            t.kind = (i + 1) as u16;
            t
        })
        .collect()
}

fn lit(s: &str) -> TokenPattern {
    TokenPattern::Literal(s.to_string())
}
fn cls(items: Vec<ClassItem>, neg: bool) -> TokenPattern {
    TokenPattern::Class(CharClass {
        negated: neg,
        items,
    })
}

#[test]
fn output_omits_dead_state_and_starts_at_start() {
    let t = toks(vec![tok("A", lit("a"))]);
    let dfa = compile(&t);
    assert!(!dfa.is_empty());
    assert_eq!(dfa[0].id, START);
    assert!(dfa.iter().all(|s| s.id != DEAD));
}

#[test]
fn longest_match_and_priority() {
    let t = toks(vec![
        tok("IF", lit("if")),
        tok(
            "IDENT",
            TokenPattern::Plus(Box::new(cls(
                vec![ClassItem::Range(b'a' as u32, b'z' as u32)],
                false,
            ))),
        ),
    ]);
    let dfa = compile(&t);

    assert_eq!(scan(&dfa, b"iff"), Some((3, 2)));
    assert_eq!(scan(&dfa, b"if"), Some((2, 1)));
    assert_eq!(scan(&dfa, b"z"), Some((1, 2)));
    assert_eq!(scan(&dfa, b"1"), None);
}

#[test]
fn json_shape_tokens() {
    let digit = cls(vec![ClassItem::Range(b'0' as u32, b'9' as u32)], false);
    let number = TokenPattern::Plus(Box::new(digit));
    let t = toks(vec![
        tok("LBRACE", lit("{")),
        tok("TRUE", lit("true")),
        tok("NUMBER", number),
        tok(
            "WS",
            TokenPattern::Plus(Box::new(cls(vec![ClassItem::Char(b' ' as u32)], false))),
        ),
    ]);
    let dfa = compile(&t);
    assert_eq!(scan(&dfa, b"{"), Some((1, 1)));
    assert_eq!(scan(&dfa, b"true"), Some((4, 2)));
    assert_eq!(scan(&dfa, b"123"), Some((3, 3)));
    assert_eq!(scan(&dfa, b"   x"), Some((3, 4)));
}

#[test]
fn negated_class_accepts_other_bytes() {
    let t = toks(vec![tok(
        "X",
        cls(
            vec![ClassItem::Char(b'a' as u32), ClassItem::Char(b'b' as u32)],
            true,
        ),
    )]);
    let dfa = compile(&t);
    assert_eq!(scan(&dfa, b"c"), Some((1, 1)));
    assert_eq!(scan(&dfa, b"a"), None);
    assert_eq!(scan(&dfa, b"b"), None);
}

#[test]
fn star_and_empty_match() {
    let t = toks(vec![tok("XS", TokenPattern::Star(Box::new(lit("x"))))]);
    let dfa = compile(&t);
    assert_eq!(scan(&dfa, b"xxx"), Some((3, 1)));
    assert_eq!(scan(&dfa, b"y"), None);
}

#[test]
fn arms_collapse_contiguous_bytes_into_ranges() {
    // [a-z]+ — the start state has 26 transitions all going to the
    // same target. They should fold into a single arm with one range.
    let t = toks(vec![tok(
        "ID",
        TokenPattern::Plus(Box::new(cls(
            vec![ClassItem::Range(b'a' as u32, b'z' as u32)],
            false,
        ))),
    )]);
    let dfa = compile(&t);
    let arms = &dfa[0].arms;
    assert_eq!(arms.len(), 1);
    assert_eq!(arms[0].ranges, vec![(b'a', b'z')]);
}

#[test]
fn arms_split_disjoint_byte_groups_into_ranges_per_arm() {
    // ('0'..'9' | 'a'..'f') — one target, two non-contiguous ranges
    // collapse into a single arm carrying both ranges.
    let t = toks(vec![tok(
        "HEX",
        cls(
            vec![
                ClassItem::Range(b'0' as u32, b'9' as u32),
                ClassItem::Range(b'a' as u32, b'f' as u32),
            ],
            false,
        ),
    )]);
    let dfa = compile(&t);
    let arms = &dfa[0].arms;
    assert_eq!(arms.len(), 1);
    assert_eq!(arms[0].ranges, vec![(b'0', b'9'), (b'a', b'f')]);
}

#[test]
fn arms_grouped_by_target_state() {
    // Two literal tokens with different first bytes — distinct targets.
    let t = toks(vec![tok("A", lit("a")), tok("B", lit("b"))]);
    let dfa = compile(&t);
    let arms = &dfa[0].arms;
    assert_eq!(arms.len(), 2);
    // Each arm should be a single-byte range and they should differ.
    for arm in arms {
        assert_eq!(arm.ranges.len(), 1);
        let (lo, hi) = arm.ranges[0];
        assert_eq!(lo, hi);
    }
    assert_ne!(arms[0].target, arms[1].target);
}

#[test]
fn class_byte_seqs_merges_overlapping_codepoint_ranges() {
    let cc = CharClass {
        negated: false,
        items: vec![
            ClassItem::Range(b'a' as u32, b'c' as u32),
            ClassItem::Range(b'b' as u32, b'e' as u32), // overlaps
            ClassItem::Char(b'f' as u32),                // adjacent to the merged run
            ClassItem::Char(b'z' as u32),                // disjoint
        ],
    };
    assert_eq!(
        class_byte_seqs(&cc),
        vec![vec![(b'a', b'f')], vec![(b'z', b'z')]],
    );
}

#[test]
fn class_byte_seqs_expands_two_byte_codepoint_range() {
    // U+00E0..U+00FF: shared lead byte 0xC3, trailing 0xA0..0xBF.
    let cc = CharClass {
        negated: false,
        items: vec![ClassItem::Range(0x00E0, 0x00FF)],
    };
    assert_eq!(
        class_byte_seqs(&cc),
        vec![vec![(0xC3, 0xC3), (0xA0, 0xBF)]],
    );
}

#[test]
fn class_byte_seqs_drops_nothing_for_high_unicode_range() {
    // U+0100..U+017F (Latin Extended-A): shared lead byte 0xC4 / 0xC5.
    let cc = CharClass {
        negated: false,
        items: vec![ClassItem::Range(0x0100, 0x017F)],
    };
    assert_eq!(
        class_byte_seqs(&cc),
        vec![vec![(0xC4, 0xC5), (0x80, 0xBF)]],
    );
}

#[test]
fn class_byte_seqs_splits_range_crossing_byte_length_boundary() {
    // U+007E..U+0080 straddles the 1-byte → 2-byte boundary; expect a
    // 1-byte sequence for U+007E..U+007F and a 2-byte for U+0080.
    let cc = CharClass {
        negated: false,
        items: vec![ClassItem::Range(0x007E, 0x0080)],
    };
    let seqs = class_byte_seqs(&cc);
    assert_eq!(
        seqs,
        vec![
            vec![(0x7E, 0x7F)],
            vec![(0xC2, 0xC2), (0x80, 0x80)],
        ],
    );
}

#[test]
fn negation_complements_over_unicode_excluding_surrogates() {
    let t = toks(vec![tok(
        "X",
        cls(vec![ClassItem::Char(b'a' as u32)], true),
    )]);
    let dfa = compile(&t);
    // ASCII byte that isn't 'a' matches as a 1-byte token.
    assert_eq!(scan(&dfa, b"b"), Some((1, 1)));
    assert_eq!(scan(&dfa, b"a"), None);
    // A 2-byte UTF-8 codepoint matches in one go (longest-match=2).
    assert_eq!(scan(&dfa, "é".as_bytes()), Some((2, 1)));
    // A 4-byte codepoint also matches in one go.
    assert_eq!(scan(&dfa, "🎉".as_bytes()), Some((4, 1)));
}

#[test]
fn dot_matches_any_one_codepoint() {
    // A negated empty class = `.` per the grammar spec.
    let t = toks(vec![tok("ANY", cls(vec![], true))]);
    let dfa = compile(&t);
    assert_eq!(scan(&dfa, b"a"), Some((1, 1)));
    assert_eq!(scan(&dfa, "é".as_bytes()), Some((2, 1)));
    assert_eq!(scan(&dfa, "中".as_bytes()), Some((3, 1)));
    assert_eq!(scan(&dfa, "🎉".as_bytes()), Some((4, 1)));
    // Stray UTF-8 continuation byte: not a valid codepoint start.
    assert_eq!(scan(&dfa, &[0x80]), None);
}

#[test]
fn partition_ranges_splits_overlapping_into_disjoint_pieces() {
    // Two NFA states (1 and 2) with overlapping ranges.
    let edges = vec![((b'a', b'd'), 1usize), ((b'b', b'e'), 2usize)];
    let parts = partition_ranges(&edges);
    let names: Vec<((u8, u8), Vec<usize>)> = parts
        .into_iter()
        .map(|(r, set)| (r, set.into_iter().collect()))
        .collect();
    assert_eq!(
        names,
        vec![
            ((b'a', b'a'), vec![1]),
            ((b'b', b'd'), vec![1, 2]),
            ((b'e', b'e'), vec![2]),
        ]
    );
}

// ---- NegLook ------------------------------------------------------

fn neg_look(strings: Vec<&str>, chars: Vec<ClassItem>) -> TokenPattern {
    TokenPattern::NegLook {
        chars: CharClass {
            negated: true,
            items: chars,
        },
        strings: strings.into_iter().map(String::from).collect(),
    }
}

fn star(p: TokenPattern) -> TokenPattern {
    TokenPattern::Star(Box::new(p))
}
fn plus(p: TokenPattern) -> TokenPattern {
    TokenPattern::Plus(Box::new(p))
}
fn seq(xs: Vec<TokenPattern>) -> TokenPattern {
    TokenPattern::Concat(xs)
}

#[test]
fn neg_look_block_comment_matches_to_terminator() {
    // BLOCK = "/*" !"*/"* "*/";
    let t = toks(vec![tok(
        "BLOCK",
        seq(vec![
            lit("/*"),
            star(neg_look(vec!["*/"], vec![])),
            lit("*/"),
        ]),
    )]);
    let dfa = compile(&t);
    assert_eq!(scan(&dfa, b"/* hi */"), Some((8, 1)));
    assert_eq!(scan(&dfa, b"/**/"), Some((4, 1)));
    // Body contains stars and slashes that don't form `*/`.
    assert_eq!(scan(&dfa, b"/* a / b * c */"), Some((15, 1)));
    // First `*/` wins; nothing after it is consumed.
    assert_eq!(scan(&dfa, b"/* a */ extra */"), Some((7, 1)));
    // Unterminated comment: lex fails (longest match never sees the
    // closing `*/`).
    assert_eq!(scan(&dfa, b"/* unterminated"), None);
}

#[test]
fn neg_look_string_with_escapes_idiom() {
    // STRING = "\"" (!("\"" | "\\") | "\\" .)* "\"";
    // Note: single-codepoint strings ("\"" and "\\" here) collapse
    // into chars at parse time, so this would actually be a Class
    // not a NegLook in practice. We test the multi-byte idiom
    // separately below.
    let t = toks(vec![tok(
        "STRING",
        seq(vec![
            lit("\""),
            star(TokenPattern::Alt(vec![
                TokenPattern::Class(CharClass {
                    negated: true,
                    items: vec![ClassItem::Char(b'"' as u32), ClassItem::Char(b'\\' as u32)],
                }),
                seq(vec![
                    lit("\\"),
                    TokenPattern::Class(CharClass {
                        negated: true,
                        items: vec![],
                    }),
                ]),
            ])),
            lit("\""),
        ]),
    )]);
    let dfa = compile(&t);
    assert_eq!(scan(&dfa, b"\"hello\""), Some((7, 1)));
    assert_eq!(scan(&dfa, b"\"a\\\"b\""), Some((6, 1))); // "a\"b"
}

#[test]
fn neg_look_multi_byte_terminator_only() {
    // T = "<" !"-->"* "-->";
    // `-->` is self-overlapping: a `-` of the body can be mistaken for the
    // beginning of the terminator.
    let t = toks(vec![tok(
        "HTML_COMMENT",
        seq(vec![
            lit("<"),
            star(neg_look(vec!["-->"], vec![])),
            lit("-->"),
        ]),
    )]);
    let dfa = compile(&t);
    // Body is `hi`, then the terminator matches.
    assert_eq!(scan(&dfa, b"<hi-->"), Some((6, 1)));
    // Empty body: terminator immediately after `<`.
    assert_eq!(scan(&dfa, b"<-->"), Some((4, 1)));
    // Unterminated: lex fails.
    assert_eq!(scan(&dfa, b"<not closed"), None);
}

#[test]
fn neg_look_multiple_terminators() {
    // LINE = !("\r\n" | "\n")*  -- bytes that don't start either newline form.
    // Followed by a literal newline so the lex actually terminates.
    let t = toks(vec![tok(
        "LINE",
        seq(vec![
            star(neg_look(vec!["\r\n", "\n"], vec![])),
            TokenPattern::Class(CharClass {
                negated: false,
                items: vec![ClassItem::Char(b'\n' as u32)],
            }),
        ]),
    )]);
    let dfa = compile(&t);
    // Plain LF terminator.
    assert_eq!(scan(&dfa, b"hello\n"), Some((6, 1)));
    // CRLF terminator: `\r\n` is matched against `!"\r\n"` first
    // (which fails on the `\r`), so body stops, then the trailing
    // `\n` doesn't match... actually we'd need a CRLF post-pattern
    // for this one. Just check the LF case.
    assert_eq!(scan(&dfa, b"\n"), Some((1, 1))); // empty line
}

#[test]
fn neg_look_with_chars_atom_alongside_string() {
    // T = "(" !("*/" | '\n')* "*/";
    // The single-byte `\n` folds into chars at parse-time IRL, but
    // the IR allows it directly here.
    let t = toks(vec![tok(
        "BLOCK",
        seq(vec![
            lit("("),
            star(neg_look(vec!["*/"], vec![ClassItem::Char(b'\n' as u32)])),
            lit("*/"),
        ]),
    )]);
    let dfa = compile(&t);
    assert_eq!(scan(&dfa, b"(hi*/"), Some((5, 1)));
    // Newline in body should kill the match.
    assert_eq!(scan(&dfa, b"(hi\n*/"), None);
}

#[test]
fn neg_look_self_overlapping_terminator() {
    // !"aa"* — pattern "aa" is self-overlapping (a suffix `a` is
    // also a prefix of `aa`): no body byte may begin an `aa`, not even
    // together with the terminator.
    let t = toks(vec![tok(
        "T",
        seq(vec![
            star(neg_look(vec!["aa"], vec![])),
            lit("aa"),
        ]),
    )]);
    let dfa = compile(&t);
    // Body is "b" (root), then terminator `aa`.
    assert_eq!(scan(&dfa, b"baa"), Some((3, 1)));
    // Body is empty, terminator immediately.
    assert_eq!(scan(&dfa, b"aa"), Some((2, 1)));
    // Body is "b", terminator at pos 1; trailing `a` left for
    // surrounding context (longest match takes the first valid
    // accept).
    assert_eq!(scan(&dfa, b"baaa"), Some((3, 1)));
}

#[test]
fn neg_look_plus_requires_at_least_one_byte() {
    // T = !"x"+ "x";  — body must have ≥1 non-`x` byte.
    let t = toks(vec![tok(
        "T",
        seq(vec![plus(neg_look(vec!["xy"], vec![])), lit("xy")]),
    )]);
    let dfa = compile(&t);
    // 1+ body bytes + terminator.
    assert_eq!(scan(&dfa, b"axy"), Some((3, 1)));
    assert_eq!(scan(&dfa, b"abcxy"), Some((5, 1)));
    // Zero-length body: Plus rejects, lex fails.
    assert_eq!(scan(&dfa, b"xy"), None);
}

#[test]
fn neg_look_terminator_includes_chars_already_seen() {
    // Stress test: pattern starts with a character that's also valid
    // inside the body.
    let t = toks(vec![tok(
        "T",
        seq(vec![
            lit("("),
            star(neg_look(vec![")."], vec![])),
            lit(")."),
        ]),
    )]);
    let dfa = compile(&t);
    // Body has stray `)` chars that don't form `).`.
    assert_eq!(scan(&dfa, b"(a)b)."), Some((6, 1)));
    assert_eq!(scan(&dfa, b"()."), Some((3, 1))); // empty body
}

#[test]
fn states_are_numbered_in_order() {
    let t = toks(vec![tok("AB", lit("ab")), tok("B", lit("b"))]);
    let met = compile_with_opts(&t, DfaOpts { minimize: false });
    assert_eq!(met.iter().map(|s| s.id).collect::<Vec<u32>>(), vec![1, 2, 3, 4]);
    assert_eq!(
        met.iter().map(|s| s.accept).collect::<Vec<Option<u16>>>(),
        vec![None, None, Some(2), Some(1)]
    );
    assert_eq!((step(&met[0], b'a'), step(&met[0], b'b')), (2, 3));
    assert_eq!((step(&met[1], b'a'), step(&met[1], b'b')), (DEAD, 4));

    let merged = compile(&t);
    assert_eq!(
        merged.iter().map(|s| s.accept).collect::<Vec<Option<u16>>>(),
        vec![None, None, Some(1), Some(2)]
    );
    assert_eq!((step(&merged[0], b'a'), step(&merged[0], b'b')), (2, 4));
    assert_eq!((step(&merged[1], b'a'), step(&merged[1], b'b')), (DEAD, 3));
}

#[test]
fn a_set_that_is_met_again_is_found() {
    let t = toks(vec![tok("AS", TokenPattern::Plus(Box::new(lit("a"))))]);
    let met = compile_with_opts(&t, DfaOpts { minimize: false });
    let last = step(by_id(&met, step(&met[0], b'a')), b'a');
    assert_ne!(last, DEAD);
    assert_eq!(step(by_id(&met, last), b'a'), last);
    assert!(met.len() <= 3);
}

#[test]
fn states_that_behave_alike_are_merged() {
    let t = toks(vec![tok("XZ", TokenPattern::Alt(vec![lit("xz"), lit("yz")]))]);
    assert_eq!(compile_with_opts(&t, DfaOpts { minimize: false }).len(), 5);
    let dfa = compile(&t);
    assert_eq!(dfa.len(), 3);
    assert_eq!((step(&dfa[0], b'x'), step(&dfa[0], b'y')), (2, 2));
    assert_eq!((step(&dfa[1], b'z'), dfa[2].accept), (3, Some(1)));
}

#[test]
fn lengths_of_encodings() {
    for (c, n) in [(0x41, 1), (0x7F, 1), (0x80, 2), (0x7FF, 2), (0x800, 3), (0xFFFF, 3), (0x10000, 4)] {
        assert_eq!(utf8_len(c), n);
        assert_eq!(encode(c).len(), n);
    }
    assert_eq!(encode(0x20AC), vec![0xE2, 0x82, 0xAC]);
}

#[test]
fn a_range_is_split_below_between_and_above() {
    let mut out = Vec::new();
    utf8_byte_sequences(0x20AC, 0x4E01, &mut out);
    assert_eq!(
        out,
        vec![
            vec![(0xE2, 0xE2), (0x82, 0x82), (0xAC, 0xBF)],
            vec![(0xE2, 0xE2), (0x83, 0xBE), (0x80, 0xBF)],
            vec![(0xE2, 0xE2), (0xBF, 0xBF), (0x80, 0xBF)],
            vec![(0xE3, 0xE3), (0x80, 0xBF), (0x80, 0xBF)],
            vec![(0xE4, 0xE4), (0x80, 0x80), (0x80, 0xBF)],
            vec![(0xE4, 0xE4), (0x81, 0xB7), (0x80, 0xBF)],
            vec![(0xE4, 0xE4), (0xB8, 0xB8), (0x80, 0x81)],
        ]
    );
}

#[test]
fn a_body_can_end_in_the_beginning_of_what_closes_it() {
    let dfa = compile(&toks(vec![tok(
        "HTML",
        TokenPattern::Concat(vec![
            TokenPattern::Literal("<".into()),
            TokenPattern::Star(Box::new(neg_look(vec!["-->"], vec![]))),
            TokenPattern::Literal("-->".into()),
        ]),
    )]));
    assert_eq!(scan(&dfa, b"<hi-->"), Some((6, 1)));
    assert_eq!(scan(&dfa, b"<-->"), Some((4, 1)));
    assert_eq!(scan(&dfa, b"<--->"), Some((5, 1)));
    assert_eq!(scan(&dfa, b"<--> -->"), Some((4, 1)));
    assert_eq!(scan(&dfa, b"<--"), None);
    let block = compile(&toks(vec![tok(
        "BLOCK",
        seq(vec![lit("/*"), star(neg_look(vec!["*/"], vec![])), lit("*/")]),
    )]));
    assert_eq!(scan(&block, b"/***/"), Some((5, 1)));
    assert_eq!(scan(&block, b"/****/ */"), Some((6, 1)));
}

#[test]
fn states_that_no_token_comes_of_are_left_out() {
    let nothing = cls(vec![], false);
    let dfa = compile(&toks(vec![
        tok("A", TokenPattern::Literal("a".into())),
        tok(
            "B",
            TokenPattern::Concat(vec![TokenPattern::Literal("bc".into()), nothing]),
        ),
    ]));
    assert_eq!(dfa.len(), 2);
    assert_eq!(scan(&dfa, b"a"), Some((1, 1)));
    assert_eq!(scan(&dfa, b"bc"), None);
}

#[test]
fn merging_keeps_what_is_lexed_in_no_more_states() {
    let tokens = || {
        toks(vec![
            tok("IF", TokenPattern::Literal("if".into())),
            tok(
                "IDENT",
                TokenPattern::Plus(Box::new(cls(vec![ClassItem::Range('a' as u32, 'z' as u32)], false))),
            ),
        ])
    };
    let small = compile(&tokens());
    let plain = compile_with_opts(&tokens(), DfaOpts { minimize: false });
    assert!(small.len() <= plain.len());
    for w in [&b"if"[..], b"iff", b"z", b"1", b"i"] {
        assert_eq!(scan(&small, w), scan(&plain, w));
    }
    assert_eq!(scan(&small, b"iff"), Some((3, 2)));
    assert_eq!(scan(&small, b"if"), Some((2, 1)));
}

#[test]
fn the_complement_of_a_complement_is_the_class() {
    let rest = CharClass {
        negated: true,
        items: vec![
            ClassItem::Range(0, 0x60),
            ClassItem::Range(0x63, 0xE8),
            ClassItem::Range(0xEA, 0x10FFFF),
        ],
    };
    assert_eq!(class_byte_seqs(&rest), vec![vec![(0x61, 0x62)], vec![(0xC3, 0xC3), (0xA9, 0xA9)]]);
}

#[test]
fn forbidden_strings_are_spotted() {
    let ac = AcAutomaton::build(&vec![b"ab".to_vec(), b"ba".to_vec(), b"bcd".to_vec()]);
    // One state for each beginning: nothing, a, ab, b, ba, bc and bcd.
    assert_eq!(ac.goto.len(), 7);
    let mut at: usize = 0;
    let mut ends: Vec<bool> = Vec::new();
    for b in b"cabcbabcd" {
        at = ac.goto[at][*b as usize];
        ends.push(ac.accept[at]);
    }
    assert_eq!(ends, vec![false, false, true, false, false, true, true, false, true]);
}

#[test]
fn a_complement_can_be_undone() {
    let ranges = vec![(0x61u32, 0x7A), (0xE9, 0xE9), (0x1F600, 0x10FFFF)];
    let rest = complement_codepoints(&ranges);
    assert_eq!(
        rest,
        vec![(0, 0x60), (0x7B, 0xE8), (0xEA, 0xD7FF), (0xE000, 0x1F5FF)],
    );
    assert_eq!(complement_codepoints(&rest), ranges);
    assert_eq!(complement_codepoints(&Vec::new()), vec![(0, 0xD7FF), (0xE000, 0x10FFFF)]);
}

#[test]
fn compiling_uses_the_default_options() {
    let t = toks(vec![tok("A", lit("ab")), tok("B", lit("cb"))]);
    let a = compile(&t);
    let b = compile_with_opts(&t, DfaOpts::default());
    assert_eq!(a.len(), b.len());
    for (x, y) in a.iter().zip(b.iter()) {
        assert_eq!((x.id, x.accept), (y.id, y.accept));
        for byte in 0..=255u8 {
            assert_eq!(step(x, byte), step(y, byte));
        }
    }
}
