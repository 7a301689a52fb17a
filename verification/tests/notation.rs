//! The table of the grammar notation, kept as numbers, is what the notation's
//! own grammar is lowered to.
use parsuna::analysis::analyze;
use parsuna::grammar::notation::{notation_table, NAMES, NUMBERS};
use parsuna::grammar::syntax::syntax_grammar;
use parsuna::lowering::pipeline::try_lower;
use parsuna::lowering::recovery::PostFirst;
use parsuna::lowering::table::{
    Body, DispatchLeaf, DispatchTree, Instr, StateTable, Tail,
};

fn put_kinds(v: &[u16], out: &mut Vec<u32>) {
    out.push(v.len() as u32);
    for k in v {
        out.push(*k as u32);
    }
}

fn put_cont(c: &Option<u32>, out: &mut Vec<u32>) {
    out.push(c.unwrap_or(0));
}

fn put_body(b: &Body, out: &mut Vec<u32>) {
    out.push(b.instrs.len() as u32);
    for i in b.instrs.iter() {
        match i {
            Instr::Enter(k) => out.extend([0, *k as u32]),
            Instr::Exit(k) => out.extend([1, *k as u32]),
            Instr::Expect { kind, sync, label, .. } => {
                out.extend([2, *kind as u32, *sync, label.unwrap_or(0) as u32])
            }
            Instr::PushRet(s) => out.extend([3, *s]),
        }
    }
    match &b.tail {
        Tail::Ret => out.push(0),
        Tail::Jump(s) => out.extend([1, *s]),
        Tail::Star { first, body, cont, head } => {
            out.extend([2, *first, *head]);
            put_cont(cont, out);
            put_body(body, out);
        }
        Tail::Opt { first, body, cont } => {
            out.extend([3, *first]);
            put_cont(cont, out);
            put_body(body, out);
        }
        Tail::Dispatch { tree, sync, cont, insertions } => {
            out.extend([4, *sync]);
            put_cont(cont, out);
            out.push(insertions.len() as u32);
            for i in insertions.iter() {
                put_kinds(&i.candidate_kinds, out);
                put_kinds(&i.kinds_to_match, out);
                match i.post_first {
                    PostFirst::Ret => out.extend([0, 0]),
                    PostFirst::Jump(s) => out.extend([0, s]),
                    PostFirst::PushRetAndJump { push, jump } => out.extend([push, jump]),
                }
            }
            put_tree(tree, out);
        }
    }
}

fn put_leaf(l: &DispatchLeaf, out: &mut Vec<u32>) {
    match l {
        DispatchLeaf::Error => out.push(0),
        DispatchLeaf::Fallthrough => out.push(1),
        DispatchLeaf::Arm(b) => {
            out.push(2);
            put_body(b, out);
        }
    }
}

fn put_tree(t: &DispatchTree, out: &mut Vec<u32>) {
    match t {
        DispatchTree::Leaf(l) => {
            out.push(0);
            put_leaf(l, out);
        }
        DispatchTree::Switch { depth, arms, default } => {
            out.extend([1, *depth as u32, arms.len() as u32]);
            for (k, t) in arms.iter() {
                out.push(*k as u32);
                put_tree(t, out);
            }
            put_leaf(default, out);
        }
    }
}

fn numbers_of(st: &StateTable, entry: u32) -> Vec<u32> {
    let mut out: Vec<u32> = vec![st.k as u32];
    out.push(st.tokens.len() as u32);
    for t in st.tokens.iter() {
        assert!(t.mode_actions.is_empty());
        out.push(t.skip as u32);
    }
    out.push(st.first_sets.len() as u32);
    for f in st.first_sets.iter() {
        out.push(f.seqs.len() as u32);
        for s in f.seqs.iter() {
            put_kinds(s, &mut out);
        }
    }
    out.push(st.sync_sets.len() as u32);
    for s in st.sync_sets.iter() {
        put_kinds(&s.kinds, &mut out);
    }
    out.push(st.states.len() as u32);
    for s in st.states.values().iter() {
        out.push(s.id);
        put_body(&s.body, &mut out);
    }
    assert_eq!(st.modes.len(), 1);
    for m in st.modes.iter() {
        out.push(m.dfa.len() as u32);
        for s in m.dfa.iter() {
            out.push(s.accept.unwrap_or(0) as u32);
            let n: usize = s.arms.iter().map(|a| a.ranges.len()).sum();
            out.push(n as u32);
            for a in s.arms.iter() {
                for (lo, hi) in a.ranges.iter() {
                    out.extend([*lo as u32, *hi as u32, a.target]);
                }
            }
        }
    }
    out.push(entry);
    out
}

#[test]
fn the_notation_is_lowered_to_its_table() {
    let expected: Vec<u32> =
        NUMBERS.split_whitespace().map(|x| x.parse::<u32>().expect("number")).collect();
    let ag = analyze(syntax_grammar()).grammar.expect("grammar");
    let st = try_lower(&ag).expect("table");
    let entry = st.entry_states.iter().find(|e| e.0 == "file").expect("file").1;
    assert_eq!(numbers_of(&st, entry), expected);
    let names: Vec<&str> = st.tokens.iter().map(|t| t.name.as_str()).collect();
    let shown: Vec<&str> = st.tokens.iter().map(|t| t.display_name.as_str()).collect();
    assert_eq!(names.join(" "), NAMES);
    assert_eq!(shown.join(" "), NAMES);
}

#[test]
fn the_table_is_read_as_it_is_written() {
    let expected: Vec<u32> =
        NUMBERS.split_whitespace().map(|x| x.parse::<u32>().expect("number")).collect();
    let (st, entry) = notation_table();
    assert_eq!(numbers_of(&st, entry), expected);
    let shown: Vec<&str> = st.tokens.iter().map(|t| t.display_name.as_str()).collect();
    assert_eq!(shown.join(" "), NAMES);
}
