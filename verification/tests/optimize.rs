//! Optimisation of state tables.
use parsuna::analysis::{analyze, AnalyzedGrammar};
use parsuna::grammar::parse_grammar;
use parsuna::lowering::optimize::{inline_jumps, optimize};
use parsuna::lowering::table::{ModeInfo, StateId, StateMap};
use parsuna::lowering::{
    lower, Body, DfaState, DispatchLeaf, DispatchTree, Instr, LoweringOpts, State, StateTable, Tail,
};
use parsuna::name_map::NameMap;

fn analyze_src(src: &str) -> AnalyzedGrammar {
    let g = parse_grammar(src).expect("parse");
    let outcome = analyze(g);
    assert!(!outcome.has_errors(), "{:?}", outcome.diagnostics);
    outcome.grammar.expect("grammar")
}

fn empty_dfa() -> Vec<DfaState> {
    vec![DfaState {
        id: 0,
        arms: vec![],
        accept: None,
    }]
}

fn make_state(id: StateId, instrs: Vec<Instr>, tail: Tail) -> State {
    State {
        id,
        label: format!("s{}", id),
        rule: "r".into(),
        body: Body { instrs, tail },
    }
}

fn empty_table_with(states: StateMap, entry: StateId) -> StateTable {
    StateTable {
        grammar_name: "x".into(),
        tokens: vec![],
        rule_kinds: vec![],
        labels: vec![],
        first_sets: vec![],
        sync_sets: vec![],
        rule_sync: NameMap::new(),
        states,
        entry_states: vec![("main".into(), entry)],
        k: 1,
        modes: vec![ModeInfo {
            id: 0,
            name: "default".into(),
            dfa: empty_dfa(),
        }],
    }
}

fn optimize_default(table: &mut StateTable) {
    optimize(table, LoweringOpts::default());
}

#[test]
fn pushret_to_ret_only_state_is_stripped() {
    let mut states = StateMap::new();
    states.insert(
        1,
        make_state(1, vec![Instr::PushRet(6), Instr::Enter(0)], Tail::Jump(5)),
    );
    states.insert(5, make_state(5, vec![Instr::Exit(0)], Tail::Ret));
    states.insert(6, make_state(6, vec![], Tail::Ret));
    let mut table = empty_table_with(states, 1);
    optimize_default(&mut table);
    let s1 = &table.states.get(&1).unwrap().body;
    assert!(
        !s1.instrs.iter().any(|op| matches!(op, Instr::PushRet(6))),
        "{:?}",
        s1
    );
    assert!(
        !table.states.contains_key(&6),
        "trampoline state 6 still present"
    );
}

#[test]
fn pushret_does_not_strip_when_target_is_an_entry() {
    let mut states = StateMap::new();
    states.insert(1, make_state(1, vec![Instr::PushRet(2)], Tail::Jump(3)));
    states.insert(2, make_state(2, vec![], Tail::Ret));
    states.insert(3, make_state(3, vec![], Tail::Ret));
    let mut table = empty_table_with(states, 1);
    table.entry_states.push(("alt".into(), 2));
    optimize_default(&mut table);
    assert!(table
        .states
        .get(&1)
        .unwrap()
        .body
        .instrs
        .iter()
        .any(|op| matches!(op, Instr::PushRet(2))));
    assert!(table.states.contains_key(&2));
}

#[test]
fn pushret_does_not_strip_when_target_does_real_work() {
    let mut states = StateMap::new();
    states.insert(1, make_state(1, vec![Instr::PushRet(2)], Tail::Jump(3)));
    states.insert(2, make_state(2, vec![Instr::Exit(0)], Tail::Ret));
    states.insert(3, make_state(3, vec![], Tail::Ret));
    let mut table = empty_table_with(states, 1);
    optimize_default(&mut table);
    assert!(table
        .states
        .get(&1)
        .unwrap()
        .body
        .instrs
        .iter()
        .any(|op| matches!(op, Instr::PushRet(2))));
    assert!(table.states.contains_key(&2));
}

#[test]
fn single_pred_opt_body_is_inlined() {
    // 1's body is empty + a tail Opt with body=Jump(5). State 5's
    // body is `[Expect, Ret]`. Inlining replaces the Opt's body
    // with 5's body and DCE drops 5.
    let opt = Tail::Opt {
        first: 0,
        body: Box::new(Body::jump(5)),
        cont: Some(2),
    };
    let mut states = StateMap::new();
    states.insert(1, make_state(1, vec![], opt));
    states.insert(2, make_state(2, vec![Instr::Exit(0)], Tail::Ret));
    let target_body = Body {
        instrs: vec![Instr::Expect {
            kind: 1,
            token_name: "X".into(),
            sync: 0,
            label: None,
        }],
        tail: Tail::Ret,
    };
    states.insert(
        5,
        State {
            id: 5,
            label: "s5".into(),
            rule: "r".into(),
            body: target_body.clone(),
        },
    );
    let mut table = empty_table_with(states, 1);
    optimize_default(&mut table);
    let s1 = table.states.get(&1).unwrap();
    let body = match &s1.body.tail {
        Tail::Opt { body, .. } => body.clone(),
        other => panic!("expected Opt, got {:?}", other),
    };
    assert_eq!(*body, target_body);
    assert!(!table.states.contains_key(&5));
}

#[test]
fn multi_pred_branch_target_is_duplicated_into_each_caller() {
    let opt1 = Tail::Opt {
        first: 0,
        body: Box::new(Body::jump(5)),
        cont: Some(2),
    };
    let opt2 = Tail::Opt {
        first: 0,
        body: Box::new(Body::jump(5)),
        cont: Some(4),
    };
    let mut states = StateMap::new();
    states.insert(1, make_state(1, vec![], opt1));
    states.insert(2, make_state(2, vec![Instr::Exit(0)], Tail::Ret));
    states.insert(3, make_state(3, vec![], opt2));
    states.insert(4, make_state(4, vec![Instr::Exit(1)], Tail::Ret));
    let target_body = Body {
        instrs: vec![Instr::Enter(0)],
        tail: Tail::Ret,
    };
    states.insert(
        5,
        State {
            id: 5,
            label: "s5".into(),
            rule: "r".into(),
            body: target_body.clone(),
        },
    );
    let mut table = empty_table_with(states, 1);
    table.entry_states.push(("alt".into(), 3));
    optimize_default(&mut table);
    for src in [1, 3] {
        let s = table.states.get(&src).unwrap();
        let body = match &s.body.tail {
            Tail::Opt { body, .. } => body.clone(),
            other => panic!("state {} did not get an Opt: {:?}", src, other),
        };
        assert_eq!(*body, target_body, "state {} body: {:?}", src, s.body);
    }
    assert!(!table.states.contains_key(&5));
}

#[test]
fn star_cont_to_ret_only_is_rewritten_to_none() {
    let star = Tail::Star {
        first: 0,
        body: Box::new(Body::jump(50)),
        cont: Some(2),
        head: 1,
    };
    let mut states = StateMap::new();
    states.insert(1, make_state(1, vec![], star));
    states.insert(2, make_state(2, vec![], Tail::Ret));
    states.insert(50, make_state(50, vec![Instr::Exit(0)], Tail::Ret));
    let mut table = empty_table_with(states, 1);
    optimize_default(&mut table);
    let s1 = table.states.get(&1).unwrap();
    assert!(
        matches!(
            s1.body.tail,
            Tail::Star {
                cont: None,
                head: 1,
                ..
            }
        ),
        "{:?}",
        s1.body
    );
    assert!(!table.states.contains_key(&2));
}

#[test]
fn optimize_real_lowering_keeps_entries() {
    let ag = analyze_src("T = \"t\"; main = T;");
    let st = lower(&ag);
    for (_, id) in &st.entry_states {
        assert!(st.states.contains_key(id), "entry {} missing post-optimize", id);
    }
}

#[test]
fn optimize_eliminate_dead_drops_states_no_entry_can_reach() {
    let mut states = StateMap::new();
    states.insert(1, make_state(1, vec![], Tail::Jump(2)));
    states.insert(2, make_state(2, vec![], Tail::Ret));
    states.insert(99, make_state(99, vec![], Tail::Ret));
    let mut table = empty_table_with(states, 1);
    optimize_default(&mut table);
    assert!(table.states.contains_key(&1));
    assert!(!table.states.contains_key(&99));
}

#[test]
fn jump_chain_is_absorbed_into_first_state() {
    let mut states = StateMap::new();
    states.insert(1, make_state(1, vec![], Tail::Jump(2)));
    states.insert(2, make_state(2, vec![], Tail::Jump(3)));
    states.insert(3, make_state(3, vec![], Tail::Ret));
    let mut table = empty_table_with(states, 1);
    inline_jumps(&mut table);
    let s1 = &table.states.get(&1).unwrap().body;
    assert!(matches!(s1.tail, Tail::Ret), "{:?}", s1);
}

#[test]
fn jump_chain_breaks_on_self_loop() {
    let mut states = StateMap::new();
    states.insert(1, make_state(1, vec![], Tail::Jump(1)));
    let mut table = empty_table_with(states, 1);
    inline_jumps(&mut table);
    let s1 = &table.states.get(&1).unwrap().body;
    assert!(matches!(s1.tail, Tail::Jump(1)));
    assert!(s1.instrs.is_empty());
}

#[test]
fn jump_chain_absorbs_branchy_target() {
    // 1 -> Jump(2); 2's body's tail is Dispatch. inline_jumps
    // absorbs the branchy target into 1's tail.
    let dispatch = Tail::Dispatch {
        tree: DispatchTree::Leaf(DispatchLeaf::Fallthrough),
        sync: 0,
        cont: Some(99),
        insertions: vec![],
    };
    let mut states = StateMap::new();
    states.insert(1, make_state(1, vec![], Tail::Jump(2)));
    states.insert(2, make_state(2, vec![], dispatch));
    states.insert(99, make_state(99, vec![], Tail::Ret));
    let mut table = empty_table_with(states, 1);
    inline_jumps(&mut table);
    let s1 = &table.states.get(&1).unwrap().body;
    assert!(matches!(s1.tail, Tail::Dispatch { .. }), "{:?}", s1);
}

#[test]
fn jump_chain_duplicates_branchy_target_into_every_caller() {
    // 1 -> Jump(2); 3 -> Jump(2); 2's tail is Dispatch. Both 1 and 3
    // absorb a copy of the dispatch — aggressive policy duplicates
    // instead of leaving the shared target alone.
    let dispatch = || Tail::Dispatch {
        tree: DispatchTree::Leaf(DispatchLeaf::Fallthrough),
        sync: 0,
        cont: Some(99),
        insertions: vec![],
    };
    let mut states = StateMap::new();
    states.insert(1, make_state(1, vec![], Tail::Jump(2)));
    states.insert(2, make_state(2, vec![], dispatch()));
    states.insert(3, make_state(3, vec![], Tail::Jump(2)));
    states.insert(99, make_state(99, vec![], Tail::Ret));
    let mut table = empty_table_with(states, 1);
    table.entry_states.push(("alt".into(), 3));
    inline_jumps(&mut table);
    for src in [1, 3] {
        let s = &table.states.get(&src).unwrap().body;
        assert!(
            matches!(s.tail, Tail::Dispatch { .. }),
            "state {} did not absorb dispatch: {:?}",
            src,
            s
        );
    }
}

#[test]
fn star_target_inlined_and_head_state_preserved() {
    // 1 -> [Enter, Jump(2)]; 2's tail is a Star with head=2.
    // inline_jumps absorbs 2's Star into 1. The Star's `head`
    // keeps pointing at 2, so 2 stays alive (eliminate_dead reaches
    // it via the spliced Star) and the loop re-evaluation lands at 2
    // instead of re-running 1's prologue.
    let star = Tail::Star {
        first: 0,
        body: Box::new(Body::jump(50)),
        cont: Some(99),
        head: 2,
    };
    let mut states = StateMap::new();
    states.insert(1, make_state(1, vec![Instr::Enter(0)], Tail::Jump(2)));
    states.insert(2, make_state(2, vec![], star));
    // 50 is the Star body. Make it a non-trivial state so branch
    // inlining doesn't fold it into the Star (this test is about
    // splice + head-preservation, not branch inlining).
    states.insert(50, make_state(50, vec![Instr::Exit(0)], Tail::Ret));
    // Make 99 do real work so its `cont` isn't tail-rewritten —
    // we want to see the Star in state 1's tail unchanged.
    states.insert(99, make_state(99, vec![Instr::Exit(0)], Tail::Ret));
    let mut table = empty_table_with(states, 1);
    table.entry_states.push(("body_alt".into(), 50));
    optimize_default(&mut table);
    let s1 = &table.states.get(&1).unwrap().body;
    assert!(
        matches!(s1.tail, Tail::Star { head: 2, .. }),
        "{:?}",
        s1
    );
    assert!(table.states.contains_key(&2), "head target dropped");
}

#[test]
fn entry_state_is_not_inlined_even_when_single_ref() {
    let mut states = StateMap::new();
    states.insert(1, make_state(1, vec![], Tail::Jump(2)));
    states.insert(2, make_state(2, vec![], Tail::Ret));
    let mut table = empty_table_with(states, 1);
    table.entry_states.push(("alt".into(), 2));
    optimize_default(&mut table);
    assert!(table.states.contains_key(&2), "entry state 2 was dropped");
}

#[test]
fn multi_pred_jump_chain_is_fully_absorbed() {
    // No duplication budget: every intermediate gets pulled into
    // state 1, even though each is referenced from a side caller.
    let mut states = StateMap::new();
    states.insert(1, make_state(1, vec![], Tail::Jump(2)));
    for id in 2..=7 {
        states.insert(
            id,
            make_state(id, vec![Instr::PushRet(99)], Tail::Jump(id + 1)),
        );
    }
    states.insert(8, make_state(8, vec![], Tail::Ret));
    states.insert(99, make_state(99, vec![], Tail::Ret));
    for (alt_id, target) in (100..).zip(2..=8) {
        states.insert(alt_id, make_state(alt_id, vec![], Tail::Jump(target)));
    }
    let mut table = empty_table_with(states, 1);
    inline_jumps(&mut table);
    let s1 = &table.states.get(&1).unwrap().body;
    let push_rets = s1
        .instrs
        .iter()
        .filter(|op| matches!(op, Instr::PushRet(_)))
        .count();
    assert_eq!(push_rets, 6, "{:?}", s1);
    assert!(matches!(s1.tail, Tail::Ret), "{:?}", s1);
}
