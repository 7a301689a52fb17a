//! What a state can begin with.
use parsuna::lowering::state_first::compute;
use parsuna::lowering::table::{ModeInfo, StateMap};
use parsuna::lowering::{Body, DfaState, FirstSet, Instr, State, StateTable, SyncSet, Tail};
use parsuna::name_map::NameMap;

fn empty_dfa() -> Vec<DfaState> {
    vec![DfaState {
        id: 0,
        arms: vec![],
        accept: None,
    }]
}

fn empty_table(
    states: StateMap,
    rule_sync: NameMap<u32>,
    sync_sets: Vec<SyncSet>,
    first_sets: Vec<FirstSet>,
) -> StateTable {
    StateTable {
        grammar_name: "x".into(),
        tokens: vec![],
        rule_kinds: vec![],
        labels: vec![],
        first_sets,
        sync_sets,
        rule_sync,
        states,
        entry_states: vec![],
        k: 1,
        modes: vec![ModeInfo {
            id: 0,
            name: "default".into(),
            dfa: empty_dfa(),
        }],
    }
}

#[test]
fn expect_in_instrs_pins_first_to_its_kind() {
    let mut states = StateMap::new();
    states.insert(
        1,
        State {
            id: 1,
            label: "s1".into(),
            rule: "r".into(),
            body: Body {
                instrs: vec![
                    Instr::Enter(0),
                    Instr::Expect {
                        kind: 7,
                        token_name: "X".into(),
                        sync: 0,
                        label: None,
                    },
                ],
                tail: Tail::Jump(2),
            },
        },
    );
    states.insert(
        2,
        State {
            id: 2,
            label: "s2".into(),
            rule: "r".into(),
            body: Body {
                instrs: vec![Instr::Exit(0)],
                tail: Tail::Ret,
            },
        },
    );
    let table = empty_table(states, NameMap::new(), vec![], vec![]);
    let firsts = compute(&table);
    assert_eq!(
        firsts.get(&1).unwrap().iter().copied().collect::<Vec<_>>(),
        vec![7]
    );
}

#[test]
fn ret_state_first_is_rule_follow() {
    // s1: [Exit]; Ret. Rule "r" has FOLLOW = {3, 5}.
    let mut states = StateMap::new();
    states.insert(
        1,
        State {
            id: 1,
            label: "s1".into(),
            rule: "r".into(),
            body: Body {
                instrs: vec![Instr::Exit(0)],
                tail: Tail::Ret,
            },
        },
    );
    let mut rule_sync = NameMap::new();
    rule_sync.put("r", 0);
    let sync_sets = vec![SyncSet {
        id: 0,
        kinds: vec![3, 5],
    }];
    let table = empty_table(states, rule_sync, sync_sets, vec![]);
    let firsts = compute(&table);
    assert_eq!(
        firsts.get(&1).unwrap().iter().copied().collect::<Vec<_>>(),
        vec![3, 5]
    );
}

#[test]
fn star_first_unions_body_and_continuation() {
    // s1: []; Star { first: [9], cont: Some(2) }.
    // s2: [Expect 4]; Ret.
    let mut states = StateMap::new();
    states.insert(
        1,
        State {
            id: 1,
            label: "s1".into(),
            rule: "r".into(),
            body: Body {
                instrs: vec![],
                tail: Tail::Star {
                    first: 0,
                    body: Box::new(Body::jump(3)),
                    cont: Some(2),
                    head: 1,
                },
            },
        },
    );
    states.insert(
        2,
        State {
            id: 2,
            label: "s2".into(),
            rule: "r".into(),
            body: Body {
                instrs: vec![Instr::Expect {
                    kind: 4,
                    token_name: "Y".into(),
                    sync: 0,
                    label: None,
                }],
                tail: Tail::Ret,
            },
        },
    );
    states.insert(
        3,
        State {
            id: 3,
            label: "s3".into(),
            rule: "r".into(),
            body: Body {
                instrs: vec![Instr::Expect {
                    kind: 9,
                    token_name: "Z".into(),
                    sync: 0,
                    label: None,
                }],
                tail: Tail::Ret,
            },
        },
    );
    let first_sets = vec![FirstSet {
        id: 0,
        seqs: vec![vec![9]],
        has_references: false,
    }];
    let table = empty_table(states, NameMap::new(), vec![], first_sets);
    let firsts = compute(&table);
    let s1 = firsts.get(&1).unwrap();
    assert!(s1.contains(&9), "star body kind missing: {:?}", s1);
    assert!(s1.contains(&4), "star cont kind missing: {:?}", s1);
}
