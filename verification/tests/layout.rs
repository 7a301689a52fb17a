//! States with numbers.
use parsuna::analysis::{analyze, AnalyzedGrammar};
use parsuna::grammar::parse_grammar;
use parsuna::lowering::layout::layout;
use parsuna::lowering::program::build;
use parsuna::lowering::table::StateId;
use parsuna::lowering::{
    Body, DfaOpts, DispatchLeaf, DispatchTree, Instr, StateTable, Tail, START,
};

fn analyze_src(src: &str) -> AnalyzedGrammar {
    let g = parse_grammar(src).expect("parse");
    let outcome = analyze(g);
    assert!(!outcome.has_errors(), "{:?}", outcome.diagnostics);
    outcome.grammar.expect("grammar")
}

fn lay(src: &str) -> (AnalyzedGrammar, StateTable) {
    let ag = analyze_src(src);
    let prog = build(&ag);
    let st = layout(prog, &ag, DfaOpts::default());
    (ag, st)
}

#[test]
fn state_ids_are_dense_starting_from_one() {
    let (_, st) = lay("T = \"t\"; main = T;");
    let ids: Vec<StateId> = st.states.values().iter().map(|s| s.id).collect();
    // BTreeMap iterates in sorted order; ids should start at 1 and be contiguous.
    assert!(!ids.is_empty());
    assert_eq!(ids[0], 1);
    for w in ids.windows(2) {
        assert_eq!(w[1], w[0] + 1, "non-dense: {:?}", ids);
    }
}

#[test]
fn block_last_op_uses_tail_form() {
    // Layout no longer emits a standalone trailing `[Ret]` state per
    // block — the block's last op carries its own terminator (a
    // direct `Ret`, a tail-call `Jump`, or `cont: None` for branchy
    // ops). The state at `entry_id + ops.len() - 1` is the block's
    // last op, and its body's tail should be `Ret` (for the rules
    // in this grammar, every body ends with `Exit`, which lowers to
    // `Body { instrs: [Exit], tail: Ret }`).
    let (ag, st) = lay("T = \"t\"; a = T; main = a T;");
    let prog = build(&ag);
    for (rule_name, entry_id) in &st.entry_states {
        let bid = *prog.rule_entry.get(rule_name).expect("entry");
        let block = &prog.blocks[bid.0 as usize];
        let last_id = *entry_id + (block.ops.len() - 1) as StateId;
        let last = st.states.get(&last_id).expect("last state of block");
        assert!(
            matches!(last.body.tail, Tail::Ret),
            "block last op didn't tail in Ret: {:?}",
            last.body
        );
    }
}

#[test]
fn entry_states_only_for_public_rules() {
    let (_, st) = lay("T = \"t\"; _helper = T; main = T _helper;");
    let names: Vec<&str> = st.entry_states.iter().map(|(n, _)| n.as_str()).collect();
    assert!(names.contains(&"main"));
    assert!(!names.contains(&"_helper"));
}

#[test]
fn straight_line_op_emits_action_followed_by_jump_to_fallthrough() {
    // `main = T;` — the body is a single Expect then the block's Ret.
    // The Expect state's body should be { instrs: [Expect], tail: Jump(next) }.
    let (_, st) = lay("T = \"t\"; main = T;");
    let entry_id = st.entry_states[0].1;
    let entry = st.states.get(&entry_id).expect("entry state");
    // The Enter wrapper is first; find an Expect Body anywhere with a Jump tail.
    let saw_expect_then_jump = st.states.values().iter().any(|s| {
        s.body.instrs.len() == 1
            && matches!(s.body.instrs[0], Instr::Expect { .. })
            && matches!(s.body.tail, Tail::Jump(_))
    });
    assert!(
        saw_expect_then_jump,
        "no Expect followed by Jump anywhere; entry={:?}",
        entry.body
    );
}

#[test]
fn lexer_dfa_compiled_alongside_state_table() {
    let (_, st) = lay("T = \"t\"; main = T;");
    // DFA always has at least the dead state plus a real start.
    assert!(!st.lexer_dfa().is_empty());
    assert_eq!(st.lexer_dfa()[0].id, START);
}

#[test]
fn grammar_name_carried_into_state_table() {
    let mut g = parse_grammar("T = \"t\"; main = T;").expect("parse");
    g.name = "custom_name".into();
    let outcome = analyze(g);
    let ag = outcome.grammar.unwrap();
    let prog = build(&ag);
    let st = layout(prog, &ag, DfaOpts::default());
    assert_eq!(st.grammar_name, "custom_name");
}

#[test]
fn k_value_carried_from_analyzed_grammar() {
    let (ag, st) = lay("T = \"t\"; main = T;");
    assert_eq!(st.k, ag.k);
}

fn named(b: &Body, out: &mut Vec<StateId>) {
    for i in b.instrs.iter() {
        if let Instr::PushRet(s) = i {
            out.push(*s);
        }
    }
    match &b.tail {
        Tail::Ret => {}
        Tail::Jump(s) => out.push(*s),
        Tail::Star { body, cont, head, .. } => {
            out.push(*head);
            out.extend(cont.iter());
            named(body, out);
        }
        Tail::Opt { body, cont, .. } => {
            out.extend(cont.iter());
            named(body, out);
        }
        Tail::Dispatch { tree, cont, .. } => {
            out.extend(cont.iter());
            named_in_tree(tree, out);
        }
    }
}

fn named_in_tree(t: &DispatchTree, out: &mut Vec<StateId>) {
    match t {
        DispatchTree::Leaf(DispatchLeaf::Arm(b)) => named(b, out),
        DispatchTree::Leaf(_) => {}
        DispatchTree::Switch { arms, default, .. } => {
            for (_, t) in arms.iter() {
                named_in_tree(t, out);
            }
            if let DispatchLeaf::Arm(b) = default {
                named(b, out);
            }
        }
    }
}

#[test]
fn every_state_that_is_named_is_there() {
    let (_, st) = lay(
        "A = \"a\"; B = \"b\"; C = \"c\"; main = item* (A B | A C)?; item = B item C | C+;",
    );
    let ids: Vec<StateId> = st.states.values().iter().map(|s| s.id).collect();
    let mut names: Vec<StateId> = Vec::new();
    for s in st.states.values().iter() {
        named(&s.body, &mut names);
    }
    assert!(!names.is_empty());
    names.extend(st.entry_states.iter().map(|e| e.1));
    for n in names {
        assert!(ids.contains(&n), "{}", n);
    }
}
