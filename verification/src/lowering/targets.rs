//! Every state that a laid-out table names is in it.
use vstd::prelude::*;

use crate::analysis::AnalyzedGrammar;
use crate::lowering::dispatch::{self, Entry};
use crate::lowering::layout::{self, Plan};
use crate::lowering::lexer_dfa::DfaOpts;
use crate::lowering::optimize;
use crate::lowering::program::{OpView, Program, TargetView};
use crate::lowering::remaining;
use crate::lowering::table::{self, BodyView, LeafView, StateTable, TailView, TreeView};
use crate::names;

verus! {

/// The states are all in the set.
spec fn all_in(l: Seq<u32>, good: Set<u32>) -> bool {
    forall|t: u32| #[trigger] l.contains(t) ==> good.contains(t)
}

proof fn lemma_in_both(a: Seq<u32>, b: Seq<u32>, good: Set<u32>)
    requires
        all_in(a, good),
        all_in(b, good),
    ensures
        all_in(a + b, good),
{
    assert forall|t: u32| #[trigger] (a + b).contains(t) implies good.contains(t) by {
        let i = choose|i: int| 0 <= i < (a + b).len() && (a + b)[i] == t;
        if i < a.len() {
            assert(a.contains(a[i]));
        } else {
            assert(b.contains(b[i - a.len()]));
        }
    }
}

proof fn lemma_trees_in(subs: Seq<TreeView>, n: nat, good: Set<u32>)
    requires
        n <= subs.len(),
        forall|i: int|
            0 <= i < subs.len() ==> all_in(optimize::tree_targets(#[trigger] subs[i]), good),
    ensures
        all_in(optimize::trees_targets(subs, n), good),
    decreases n,
{
    if n > 0 {
        lemma_trees_in(subs, (n - 1) as nat, good);
        assert(all_in(optimize::tree_targets(subs[n - 1]), good));
        lemma_in_both(
            optimize::trees_targets(subs, (n - 1) as nat),
            optimize::tree_targets(subs[n - 1]),
            good,
        );
    }
}

/// A body that only goes to a state names that state.
proof fn lemma_jump_in(s: u32, good: Set<u32>)
    requires
        good.contains(s),
    ensures
        all_in(optimize::body_targets(table::jump_body(s)), good),
        all_in(optimize::leaf_targets(dispatch::arm_leaf(s)), good),
{
    let b = table::jump_body(s);
    assert(b.instrs.len() == 0);
    assert(optimize::instr_targets(b.instrs) =~= Seq::<u32>::empty());
    assert(optimize::tail_targets(b.tail) == seq![s]);
    assert(optimize::body_targets(b) =~= seq![s]);
}

proof fn lemma_kept_entries(entries: Seq<Entry>, depth: int, kind: u16, good: Set<u32>)
    requires
        forall|i: int| 0 <= i < entries.len() ==> good.contains((#[trigger] entries[i]).1),
    ensures
        ({
            let l = dispatch::with_kind(entries, depth, kind);
            forall|i: int| 0 <= i < l.len() ==> good.contains((#[trigger] l[i]).1)
        }),
    decreases entries.len(),
{
    if entries.len() > 0 {
        let p = entries.drop_last();
        assert forall|i: int| 0 <= i < p.len() implies good.contains((#[trigger] p[i]).1) by {
            assert(p[i] == entries[i]);
        }
        lemma_kept_entries(p, depth, kind, good);
        let before = dispatch::with_kind(p, depth, kind);
        let l = dispatch::with_kind(entries, depth, kind);
        assert(good.contains(entries[entries.len() - 1].1));
        assert forall|i: int| 0 <= i < l.len() implies good.contains((#[trigger] l[i]).1) by {
            if i < before.len() {
                assert(l[i] == before[i]);
            }
        }
    }
}

proof fn lemma_end_at(entries: Seq<Entry>, depth: int)
    ensures
        0 <= dispatch::end_at(entries, depth) <= entries.len(),
    decreases entries.len(),
{
    if entries.len() > 0 {
        lemma_end_at(entries.drop_last(), depth);
    }
}

/// A dispatch tree names the states of its entries.
proof fn lemma_trie_in(
    entries: Seq<Entry>,
    depth: usize,
    outer: LeafView,
    bound: nat,
    good: Set<u32>,
)
    requires
        forall|i: int| 0 <= i < entries.len() ==> good.contains((#[trigger] entries[i]).1),
        all_in(optimize::leaf_targets(outer), good),
    ensures
        all_in(optimize::tree_targets(dispatch::trie(entries, depth, outer, bound)), good),
    decreases bound - depth,
{
    let deeper = dispatch::going_on(entries, depth as int);
    let default = dispatch::default_at(entries, depth as int, outer);
    lemma_end_at(entries, depth as int);
    assert(all_in(optimize::leaf_targets(default), good)) by {
        let e = dispatch::end_at(entries, depth as int);
        if e < entries.len() {
            lemma_jump_in(entries[e].1, good);
        }
    }
    let t = dispatch::trie(entries, depth, outer, bound);
    if !(deeper.len() == 0 || depth >= bound || depth >= usize::MAX) {
        let subs = t->Switch_2;
        let kinds = t->Switch_1;
        assert forall|i: int| 0 <= i < deeper.len() implies good.contains(
            (#[trigger] deeper[i]).1,
        ) by {
            assert(deeper[i] == entries[i]);
        }
        assert forall|i: int| 0 <= i < subs.len() implies all_in(
            optimize::tree_targets(#[trigger] subs[i]),
            good,
        ) by {
            lemma_kept_entries(deeper, depth as int, kinds[i], good);
            lemma_trie_in(
                dispatch::with_kind(deeper, depth as int, kinds[i]),
                (depth + 1) as usize,
                default,
                bound,
                good,
            );
        }
        lemma_trees_in(subs, subs.len(), good);
        lemma_in_both(
            optimize::leaf_targets(default),
            optimize::trees_targets(subs, subs.len()),
            good,
        );
    }
}

proof fn lemma_entries_in(arms: Seq<(u32, u32)>, pool: Seq<table::FirstSet>, good: Set<u32>)
    requires
        forall|i: int| 0 <= i < arms.len() ==> good.contains((#[trigger] arms[i]).1),
    ensures
        ({
            let l = dispatch::arm_entries(arms, pool);
            forall|i: int| 0 <= i < l.len() ==> good.contains((#[trigger] l[i]).1)
        }),
    decreases arms.len(),
{
    if arms.len() > 0 {
        let p = arms.drop_last();
        assert forall|i: int| 0 <= i < p.len() implies good.contains((#[trigger] p[i]).1) by {
            assert(p[i] == arms[i]);
        }
        lemma_entries_in(p, pool, good);
        assert(good.contains(arms[arms.len() - 1].1));
        let before = dispatch::arm_entries(p, pool);
        let l = dispatch::arm_entries(arms, pool);
        assert forall|i: int| 0 <= i < l.len() implies good.contains((#[trigger] l[i]).1) by {
            if i < before.len() {
                assert(l[i] == before[i]);
            }
        }
    }
}

/// The state of one step names the states that its step goes to, and those
/// next to it.
proof fn lemma_op_in(p: Plan, op: OpView, here: u32, is_tail: bool, good: Set<u32>)
    requires
        remaining::op_arrives(p, op),
        forall|id: u32| remaining::in_plan(p, id) ==> #[trigger] good.contains(id),
        good.contains(here),
        !is_tail ==> good.contains((here + 1) as u32),
    ensures
        all_in(optimize::body_targets(layout::op_body(p, op, here, is_tail)), good),
{
    let b = layout::op_body(p, op, here, is_tail);
    let fall = (here + 1) as u32;
    assert(all_in(optimize::instr_targets(b.instrs), good)) by {
        if b.instrs.len() == 1 {
            let before = b.instrs.drop_last();
            assert(before.len() == 0);
            assert(optimize::instr_targets(before) =~= Seq::<u32>::empty());
            assert(b.instrs.last() == b.instrs[0]);
        } else {
            assert(b.instrs.len() == 0);
        }
    }
    assert(all_in(optimize::tail_targets(b.tail), good)) by {
        match op {
            OpView::Opt(_, t) => {
                let s = layout::state_of(p, t);
                assert(good.contains(s));
                lemma_jump_in(s, good);
                let x = optimize::body_targets(table::jump_body(s));
                let c = b.tail->Opt_2;
                assert(all_in(optimize::cont_targets(c), good));
                lemma_in_both(x, optimize::cont_targets(c), good);
            },
            OpView::Star(_, t) => {
                let s = layout::state_of(p, t);
                assert(good.contains(s));
                lemma_jump_in(s, good);
                let x = optimize::body_targets(table::jump_body(s));
                let c = b.tail->Star_2;
                assert(all_in(optimize::cont_targets(c), good));
                lemma_in_both(x, optimize::cont_targets(c), good);
                assert(all_in(seq![here], good));
                lemma_in_both(x + optimize::cont_targets(c), seq![here], good);
            },
            OpView::Dispatch(arms, has_eps, _) => {
                let states = layout::arm_states(p, arms);
                assert forall|i: int| 0 <= i < states.len() implies good.contains(
                    (#[trigger] states[i]).1,
                ) by {
                    assert(remaining::arrives(p, arms[i].1));
                    assert(states[i].1 == layout::state_of(p, arms[i].1));
                }
                lemma_entries_in(states, p.pool, good);
                let entries = dispatch::arm_entries(states, p.pool);
                let outer = dispatch::outer_default(has_eps);
                lemma_trie_in(entries, 0, outer, dispatch::longest(entries), good);
                let c = b.tail->Dispatch_2;
                assert(all_in(optimize::cont_targets(c), good));
                lemma_in_both(
                    optimize::cont_targets(c),
                    optimize::tree_targets(b.tail->Dispatch_0),
                    good,
                );
            },
            OpView::Call(t) => {
                assert(good.contains(layout::state_of(p, t)));
            },
            _ => {},
        }
    }
    lemma_in_both(optimize::instr_targets(b.instrs), optimize::tail_targets(b.tail), good);
}

/// Every state that a laid-out table names, in a state or as an entry point,
/// is a state of the table.
pub proof fn law_laid_out_names_its_states(
    st: StateTable,
    prog: Program,
    ag: AnalyzedGrammar,
    opts: DfaOpts,
)
    requires
        layout::is_layout(st, prog, ag, opts),
        layout::program_ok(prog),
        layout::program_slots(prog) < u32::MAX,
        forall|n: Seq<char>|
            names::list_view(prog.rule_order@).contains(n)
                ==> #[trigger] prog.rule_entry@.contains_key(n),
    ensures
        forall|i: int, t: u32|
            0 <= i < st.states@.len() && #[trigger] optimize::body_targets(
                st.states@[i].body,
            ).contains(t) ==> table::has_state(st.states@, t),
        forall|i: int|
            0 <= i < st.entry_states@.len() ==> table::has_state(
                st.states@,
                (#[trigger] st.entry_states@[i]).1,
            ),
{
    let p = layout::plan_of(prog);
    let states = st.states@;
    let total = layout::slots_upto(p.blocks, p.order, p.order.len());
    let good = Set::new(|id: u32| remaining::in_plan(p, id));
    layout::lemma_state_ids(p, p.order.len());
    remaining::lemma_states_do(p, p.order.len());
    remaining::lemma_plan_arrives(prog);
    assert forall|id: u32| #[trigger] good.contains(id) implies table::has_state(states, id) by {
        assert(states[id - 1].id == id);
    }
    assert forall|i: int, t: u32|
        0 <= i < states.len() && #[trigger] optimize::body_targets(
            states[i].body,
        ).contains(t) implies table::has_state(states, t) by {
        let id = states[i].id;
        assert(id == i + 1);
        assert(remaining::in_plan(p, id));
        assert(remaining::does(p, states[i]));
        let todo = remaining::todo(p, id);
        if todo.len() == 0 {
            let b: BodyView = layout::only(TailView::Ret);
            assert(optimize::instr_targets(b.instrs) =~= Seq::<u32>::empty());
            assert(optimize::body_targets(b) =~= Seq::<u32>::empty());
        } else {
            assert(remaining::op_arrives(p, todo[0].0));
            lemma_op_in(p, todo[0].0, id, todo.len() == 1, good);
        }
        assert(good.contains(t));
    }
    let entries = layout::entries_upto(prog, prog.rule_order@.len());
    lemma_entries_known(prog, prog.rule_order@.len());
    assert forall|i: int| 0 <= i < st.entry_states@.len() implies table::has_state(
        states,
        (#[trigger] st.entry_states@[i]).1,
    ) by {
        assert(layout::entries_view(st.entry_states@)[i] == entries[i]);
        assert(good.contains(entries[i].1));
    }
}

proof fn lemma_entries_known(prog: Program, n: nat)
    requires
        layout::program_ok(prog),
        layout::program_slots(prog) < u32::MAX,
        n <= prog.rule_order@.len(),
        forall|n: Seq<char>|
            names::list_view(prog.rule_order@).contains(n)
                ==> #[trigger] prog.rule_entry@.contains_key(n),
    ensures
        forall|i: int|
            0 <= i < layout::entries_upto(prog, n).len() ==> remaining::in_plan(
                layout::plan_of(prog),
                (#[trigger] layout::entries_upto(prog, n)[i]).1,
            ),
    decreases n,
{
    if n > 0 {
        lemma_entries_known(prog, (n - 1) as nat);
        let l = names::list_view(prog.rule_order@);
        let name = l[n - 1];
        assert(l.contains(name));
        assert(prog.rule_entry@.contains_key(name));
        remaining::lemma_rule_arrives(prog, name);
        let p = layout::plan_of(prog);
        assert(layout::state_of(p, TargetView::Rule(name)) == layout::entry_of(
            p,
            prog.rule_entry@[name].0,
        ));
        let before = layout::entries_upto(prog, (n - 1) as nat);
        let known = layout::entries_upto(prog, n);
        assert forall|i: int| 0 <= i < known.len() implies remaining::in_plan(
            p,
            (#[trigger] known[i]).1,
        ) by {
            if i < before.len() {
                assert(known[i] == before[i]);
            }
        }
    }
}

} // verus!
