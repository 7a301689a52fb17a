//! Splicing of jump chains.
use parsuna::analysis::{analyze, AnalyzedGrammar};
use parsuna::grammar::parse_grammar;
use parsuna::lowering::fuse::{
    fuse, splice_chains, FlatState, FlatTable, Leaf, Op, Tree, DUPLICATION_BUDGET,
};
use parsuna::lowering::lower;
use parsuna::lowering::table::StateId;

fn analyze_src(src: &str) -> AnalyzedGrammar {
    let g = parse_grammar(src).expect("parse");
    let outcome = analyze(g);
    assert!(!outcome.has_errors(), "{:?}", outcome.diagnostics);
    outcome.grammar.expect("grammar")
}

fn make_state(id: StateId, ops: Vec<Op>) -> FlatState {
    FlatState {
        id,
        label: format!("s{}", id),
        ops,
    }
}

fn empty_table_with(states: Vec<FlatState>, entry: StateId) -> FlatTable {
    FlatTable {
        states,
        entry_states: vec![("main".into(), entry)],
    }
}

fn has_state(table: &FlatTable, id: StateId) -> bool {
    table.get(id).is_some()
}

#[test]
fn duplication_budget_is_positive() {
    assert!(DUPLICATION_BUDGET > 0);
}

#[test]
fn fuse_real_lowering_reaches_fixpoint_and_keeps_entries() {
    let ag = analyze_src("T = \"t\"; main = T;");
    let st = lower(&ag);
    for (_, id) in &st.entry_states {
        assert!(st.states.contains_key(id), "entry {} missing post-fuse", id);
    }
}

#[test]
fn fuse_eliminate_dead_drops_states_no_entry_can_reach() {
    let mut states = Vec::new();
    states.push(make_state(1, vec![Op::Jump(2)]));
    states.push(make_state(2, vec![Op::Ret]));
    states.push(make_state(99, vec![Op::Ret]));
    let mut table = empty_table_with(states, 1);
    fuse(&mut table);
    assert!(has_state(&table, 1));
    assert!(!has_state(&table, 99));
}

#[test]
fn splice_chains_absorbs_jump_chain_into_first_state() {
    // 1 -> Jump(2); 2 -> Jump(3); 3 -> Ret.
    let mut states = Vec::new();
    states.push(make_state(1, vec![Op::Jump(2)]));
    states.push(make_state(2, vec![Op::Jump(3)]));
    states.push(make_state(3, vec![Op::Ret]));
    let mut table = empty_table_with(states, 1);
    splice_chains(&mut table);
    let s1_ops = &table.get(1).unwrap().ops;
    assert!(matches!(s1_ops.last(), Some(Op::Ret)), "{:?}", s1_ops);
}

#[test]
fn single_ref_branchy_target_is_inlined() {
    // 1 -> Jump(2); 2 starts with Dispatch but is referenced only from 1.
    // The relaxed splicer inlines unconditionally.
    let dispatch = Op::Dispatch {
        tree: Tree::Leaf(Leaf::Fallthrough),
        sync: 0,
        next: 99,
    };
    let mut states = Vec::new();
    states.push(make_state(1, vec![Op::Jump(2)]));
    states.push(make_state(2, vec![dispatch]));
    states.push(make_state(99, vec![Op::Ret]));
    let mut table = empty_table_with(states, 1);
    splice_chains(&mut table);
    let s1_ops = &table.get(1).unwrap().ops;
    assert!(
        matches!(s1_ops.last(), Some(Op::Dispatch { .. })),
        "{:?}",
        s1_ops
    );
}

#[test]
fn multi_ref_branchy_target_is_left_alone() {
    // 1 -> Jump(2); 3 -> Jump(2); 2 starts with Dispatch.
    // Two predecessors means inlining would duplicate the dispatch —
    // splicer must bail on the branchy first op for both callers.
    let dispatch = || Op::Dispatch {
        tree: Tree::Leaf(Leaf::Fallthrough),
        sync: 0,
        next: 99,
    };
    let mut states = Vec::new();
    states.push(make_state(1, vec![Op::Jump(2)]));
    states.push(make_state(2, vec![dispatch()]));
    states.push(make_state(3, vec![Op::Jump(2)]));
    states.push(make_state(99, vec![Op::Ret]));
    let mut table = empty_table_with(states, 1);
    // Mark 3 reachable too so eliminate_dead doesn't prune it before
    // we can inspect.
    table.entry_states.push(("alt".into(), 3));
    splice_chains(&mut table);
    assert!(matches!(
        table.get(1).unwrap().ops.last(),
        Some(Op::Jump(2))
    ));
    assert!(matches!(
        table.get(3).unwrap().ops.last(),
        Some(Op::Jump(2))
    ));
}

#[test]
fn single_ref_star_target_is_inlined_and_head_preserved() {
    // 1 -> [Enter(0); Jump(2)]; 2 -> [Star{head: 2}]. State 2 has one
    // external Jump-ref (from 1) plus a self-ref via head, so it splices
    // into 1. The Star's `head` keeps pointing at 2, so 2 stays alive
    // (eliminate_dead can reach it via the spliced Star), and the loop
    // re-evaluation lands at 2 instead of re-running 1's prologue.
    let star = Op::Star {
        first: 0,
        body: 50,
        next: 99,
        head: 2,
    };
    let mut states = Vec::new();
    states.push(make_state(1, vec![Op::Enter(0), Op::Jump(2)]));
    states.push(make_state(2, vec![star]));
    states.push(make_state(50, vec![Op::Ret]));
    states.push(make_state(99, vec![Op::Ret]));
    let mut table = empty_table_with(states, 1);
    fuse(&mut table);
    let s1_ops = &table.get(1).unwrap().ops;
    // Star spliced into state 1.
    assert!(
        matches!(s1_ops.last(), Some(Op::Star { head: 2, .. })),
        "{:?}",
        s1_ops
    );
    // State 2 remains because the spliced Star references it via head.
    assert!(has_state(&table, 2), "head target dropped");
}

#[test]
fn entry_state_target_is_not_inlined_even_when_single_ref() {
    // 1 (entry) -> Jump(2); 2 (also entry) -> Ret. Even with one
    // textual Jump-reference, state 2 must remain because it is a
    // public entry point.
    let mut states = Vec::new();
    states.push(make_state(1, vec![Op::Jump(2)]));
    states.push(make_state(2, vec![Op::Ret]));
    let mut table = empty_table_with(states, 1);
    table.entry_states.push(("alt".into(), 2));
    // 2 is non-branchy so the multi-ref/branchy gate would still let
    // it splice — the entry-state guard is what saves it.
    // (Splicing into 1 is fine; the must is that 2 stays in the map.)
    fuse(&mut table);
    assert!(has_state(&table, 2), "entry state 2 was dropped");
}

#[test]
fn splice_chains_breaks_self_loop() {
    let mut states = Vec::new();
    states.push(make_state(1, vec![Op::Jump(1)]));
    let mut table = empty_table_with(states, 1);
    splice_chains(&mut table);
    let s1_ops = &table.get(1).unwrap().ops;
    assert_eq!(s1_ops.len(), 1);
}

#[test]
fn duplicating_splice_respects_budget() {
    // Each intermediate state 2..=7 has [Enter(0), Jump(next)] so
    // every splice nets one extra op into state 1; state 8 ends the
    // chain with Ret. Each intermediate is also referenced by a
    // synthetic side-caller so total refs == 2 — splices count
    // against the duplication budget. With budget = 6 we expect 6
    // splices, leaving state 1's tail as Jump(8) (state 8's Ret is
    // not reached).
    let mut states = Vec::new();
    states.push(make_state(1, vec![Op::Jump(2)]));
    for id in 2..=7 {
        states.push(make_state(id, vec![Op::Enter(0), Op::Jump(id + 1)]));
    }
    states.push(make_state(8, vec![Op::Ret]));
    for (alt_id, target) in (100..).zip(2..=8) {
        states.push(make_state(alt_id, vec![Op::Jump(target)]));
    }
    let mut table = empty_table_with(states, 1);
    splice_chains(&mut table);
    let s1_ops = &table.get(1).unwrap().ops;
    // 1 original Jump replaced by [Enter, Jump], then 5 more splices
    // each net +1 op. Total: 2 + 5 = 7 ops. Tail is still a Jump.
    assert_eq!(s1_ops.len(), 1 + DUPLICATION_BUDGET);
    assert!(matches!(s1_ops.last(), Some(Op::Jump(_))), "{:?}", s1_ops);
}
