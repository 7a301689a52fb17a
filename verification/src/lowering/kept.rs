//! What the optimizing passes keep.
use vstd::prelude::*;

use crate::lowering::optimize::{self, LoweringOpts};
use crate::lowering::reach;
use crate::lowering::table::{self, BodyView, InstrView, LeafView, StateView, TailView, TreeView};
use crate::lowering::validate;

verus! {

proof fn lemma_folded_events(states: Seq<StateView>, entries: Seq<u32>, l: Seq<InstrView>)
    ensures
        validate::instrs_events(optimize::instrs_folded(states, entries, l))
            == validate::instrs_events(l),
        validate::has_expect(optimize::instrs_folded(states, entries, l)) <==> validate::has_expect(
            l,
        ),
    decreases l.len(),
{
    if l.len() > 0 {
        let p = l.drop_last();
        let before = optimize::instrs_folded(states, entries, p);
        let r = optimize::instrs_folded(states, entries, l);
        lemma_folded_events(states, entries, p);
        lemma_expect_push(p, l.last());
        assert(p.push(l.last()) =~= l);
        lemma_expect_push(before, l.last());
        if r != before {
            assert(r.drop_last() =~= before);
        }
    }
}

proof fn lemma_expect_push(l: Seq<InstrView>, x: InstrView)
    ensures
        validate::has_expect(l.push(x)) <==> validate::has_expect(l) || x is Expect,
{
    let r = l.push(x);
    if validate::has_expect(l) {
        let i = choose|i: int| 0 <= i < l.len() && (#[trigger] l[i]) is Expect;
        assert(r[i] is Expect);
    }
    if x is Expect {
        assert(r[l.len() as int] is Expect);
    }
    if validate::has_expect(r) {
        let i = choose|i: int| 0 <= i < r.len() && (#[trigger] r[i]) is Expect;
        if i < l.len() {
            assert(l[i] is Expect);
        }
    }
}

proof fn lemma_renumbered_instrs(states: Seq<StateView>, l: Seq<InstrView>)
    ensures
        validate::instrs_events(optimize::instrs_renumbered(states, l)) == validate::instrs_events(
            l,
        ),
        validate::has_expect(optimize::instrs_renumbered(states, l)) <==> validate::has_expect(l),
    decreases l.len(),
{
    let r = optimize::instrs_renumbered(states, l);
    if l.len() > 0 {
        lemma_renumbered_instrs(states, l.drop_last());
        assert(r.drop_last() =~= optimize::instrs_renumbered(states, l.drop_last()));
    }
    if validate::has_expect(l) {
        let i = choose|i: int| 0 <= i < l.len() && (#[trigger] l[i]) is Expect;
        assert(r[i] is Expect);
    }
    if validate::has_expect(r) {
        let i = choose|i: int| 0 <= i < r.len() && (#[trigger] r[i]) is Expect;
        assert(l[i] is Expect);
    }
}

proof fn lemma_renumbered_body(states: Seq<StateView>, b: BodyView)
    ensures
        validate::body_events(optimize::body_renumbered(states, b)) == validate::body_events(b),
        validate::no_peek_after_expect(optimize::body_renumbered(states, b))
            == validate::no_peek_after_expect(b),
    decreases b, 1nat,
{
    lemma_renumbered_instrs(states, b.instrs);
    lemma_renumbered_tail(states, b.tail);
}

proof fn lemma_renumbered_tail(states: Seq<StateView>, t: TailView)
    ensures
        validate::tail_events(optimize::tail_renumbered(states, t)) == validate::tail_events(t),
        validate::tail_no_peek(optimize::tail_renumbered(states, t)) == validate::tail_no_peek(t),
        validate::reads_ahead(optimize::tail_renumbered(states, t)) == validate::reads_ahead(t),
    decreases t, 0nat,
{
    match t {
        TailView::Star(_, b, _, _) => lemma_renumbered_body(states, *b),
        TailView::Opt(_, b, _) => lemma_renumbered_body(states, *b),
        TailView::Dispatch(tree, _, _, _) => lemma_renumbered_tree(states, tree),
        _ => {},
    }
}

proof fn lemma_renumbered_leaf(states: Seq<StateView>, l: LeafView)
    ensures
        validate::leaf_events(optimize::leaf_renumbered(states, l)) == validate::leaf_events(l),
        validate::leaf_no_peek(optimize::leaf_renumbered(states, l)) == validate::leaf_no_peek(l),
    decreases l, 0nat,
{
    if let LeafView::Arm(b) = l {
        lemma_renumbered_body(states, *b);
    }
}

proof fn lemma_renumbered_tree(states: Seq<StateView>, t: TreeView)
    ensures
        validate::tree_events(optimize::tree_renumbered(states, t)) == validate::tree_events(t),
        validate::tree_no_peek(optimize::tree_renumbered(states, t)) == validate::tree_no_peek(t),
    decreases t, 0nat,
{
    match t {
        TreeView::Leaf(l) => lemma_renumbered_leaf(states, l),
        TreeView::Switch(_, _, subs, default) => {
            let next = optimize::trees_renumbered(states, subs);
            lemma_renumbered_leaf(states, default);
            lemma_renumbered_trees(states, subs, subs.len());
            assert forall|i: int| 0 <= i < subs.len() implies validate::tree_no_peek(
                #[trigger] next[i],
            ) == validate::tree_no_peek(subs[i]) by {
                lemma_renumbered_tree(states, subs[i]);
            }
            if validate::tree_no_peek(t) {
                assert forall|i: int| 0 <= i < next.len() implies validate::tree_no_peek(
                    #[trigger] next[i],
                ) by {
                    assert(validate::tree_no_peek(subs[i]));
                }
            }
            let r = optimize::tree_renumbered(states, t);
            assert(r->Switch_2 == next);
            if validate::tree_no_peek(r) {
                assert forall|i: int| 0 <= i < subs.len() implies validate::tree_no_peek(
                    #[trigger] subs[i],
                ) by {
                    assert(validate::tree_no_peek(next[i]));
                }
            }
        },
    }
}

proof fn lemma_renumbered_trees(states: Seq<StateView>, subs: Seq<TreeView>, n: nat)
    requires
        n <= subs.len(),
    ensures
        validate::trees_events(optimize::trees_renumbered(states, subs), n)
            == validate::trees_events(subs, n),
    decreases subs, n,
{
    if n > 0 {
        lemma_renumbered_trees(states, subs, (n - 1) as nat);
        lemma_renumbered_tree(states, subs[n - 1]);
    }
}

/// Taking in the bodies that jumps lead to keeps to the rules.
pub proof fn lemma_absorbed_valid(states: Seq<StateView>, body: BodyView, visited: Seq<u32>)
    requires
        validate::valid_body(body),
    ensures
        validate::valid_body(optimize::absorbed(states, body, visited)),
    decreases states.len() - visited.len(),
{
    if let TailView::Jump(t) = body.tail {
        if !(visited.contains(t) || visited.len() >= states.len()) {
            if let Some(next) = table::body_of(states, t) {
                if validate::valid_body(optimize::spliced(body, next)) {
                    lemma_absorbed_valid(states, optimize::spliced(body, next), visited.push(t));
                }
            }
        }
    }
}

/// A round keeps every state within the rules of the runtime.
pub proof fn law_round_keeps_valid(
    states: Seq<StateView>,
    entries: Seq<u32>,
    opts: LoweringOpts,
)
    requires
        table::ascending(states),
        validate::all_valid(states),
    ensures
        validate::all_valid(optimize::one_round(states, entries, opts)),
{
    let a = if opts.inline_jumps {
        optimize::jumps_inlined(states)
    } else {
        states
    };
    assert forall|i: int| 0 <= i < a.len() implies validate::valid_body(
        (#[trigger] a[i]).body,
    ) by {
        assert(validate::valid_body(states[i].body));
        lemma_absorbed_valid(states, states[i].body, seq![states[i].id]);
    }
    let b = if opts.fold_trampolines {
        optimize::trampolines_folded(a, entries)
    } else {
        a
    };
    assert forall|i: int| 0 <= i < b.len() implies validate::valid_body(
        (#[trigger] b[i]).body,
    ) by {
        assert(validate::valid_body(a[i].body));
        lemma_folded_events(a, entries, a[i].body.instrs);
    }
    let c = if opts.inline_branch_bodies {
        optimize::branches_inlined(b, entries)
    } else {
        b
    };
    assert forall|i: int| 0 <= i < c.len() implies validate::valid_body(
        (#[trigger] c[i]).body,
    ) by {
        assert(validate::valid_body(b[i].body));
    }
    let d = optimize::one_round(states, entries, opts);
    if opts.eliminate_dead {
        assert forall|i: int, j: int| 0 <= i < j < c.len() implies (#[trigger] c[i]).id < (
        #[trigger] c[j]).id by {
            assert(c[i].id == states[i].id && c[j].id == states[j].id);
        }
        optimize::lemma_kept_ascending(c, entries, c);
        assert forall|i: int| 0 <= i < d.len() implies validate::valid_body(
            (#[trigger] d[i]).body,
        ) by {
            assert(d.contains(d[i]));
            let j = choose|j: int| 0 <= j < c.len() && c[j] == d[i];
            assert(validate::valid_body(c[j].body));
        }
    }
}

/// The passes keep every state within the rules of the runtime, however often
/// they run.
pub proof fn law_rounds_keep_valid(
    states: Seq<StateView>,
    entries: Seq<u32>,
    opts: LoweringOpts,
    n: nat,
)
    requires
        table::ascending(states),
        validate::all_valid(states),
    ensures
        validate::all_valid(optimize::rounds(states, entries, opts, n)),
        table::ascending(optimize::rounds(states, entries, opts, n)),
        optimize::rounds(states, entries, opts, n).len() <= states.len(),
    decreases n,
{
    let next = optimize::one_round(states, entries, opts);
    law_round_keeps_valid(states, entries, opts);
    optimize::lemma_round_names(states, entries, opts);
    if !(n == 0 || next == states) {
        law_rounds_keep_valid(next, entries, opts, (n - 1) as nat);
    }
}

/// Renumbering keeps every state within the rules of the runtime, and numbers
/// the states from one without a gap.
pub proof fn law_compacting_keeps_valid(states: Seq<StateView>)
    requires
        validate::all_valid(states),
        states.len() < u32::MAX,
    ensures
        validate::all_valid(optimize::compacted(states)),
        forall|i: int|
            0 <= i < optimize::compacted(states).len() ==> (#[trigger] optimize::compacted(
                states,
            )[i]).id == i + 1,
{
    let r = optimize::compacted(states);
    assert forall|i: int| 0 <= i < r.len() implies validate::valid_body((#[trigger] r[i]).body) by {
        assert(validate::valid_body(states[i].body));
        lemma_renumbered_body(states, states[i].body);
    }
}

/// A round keeps every entry point that has a state.
pub proof fn law_round_keeps_entries(
    states: Seq<StateView>,
    entries: Seq<u32>,
    opts: LoweringOpts,
    e: u32,
)
    requires
        table::ascending(states),
        entries.contains(e),
        table::has_state(states, e),
    ensures
        table::has_state(optimize::one_round(states, entries, opts), e),
{
    let a = if opts.inline_jumps {
        optimize::jumps_inlined(states)
    } else {
        states
    };
    let b = if opts.fold_trampolines {
        optimize::trampolines_folded(a, entries)
    } else {
        a
    };
    let c = if opts.inline_branch_bodies {
        optimize::branches_inlined(b, entries)
    } else {
        b
    };
    let i = choose|i: int| 0 <= i < states.len() && (#[trigger] states[i]).id == e;
    assert(a[i].id == e && b[i].id == e && c[i].id == e);
    if opts.eliminate_dead {
        assert forall|p: int, q: int| 0 <= p < q < c.len() implies (#[trigger] c[p]).id < (
        #[trigger] c[q]).id by {
            assert(c[p].id == states[p].id && c[q].id == states[q].id);
        }
        optimize::lemma_kept_ascending(c, entries, c);
        reach::lemma_entry_reached(optimize::edges_of(c), entries, e);
        assert(c.contains(c[i]));
        let d = optimize::dead_eliminated(c, entries);
        assert(d.contains(c[i]));
        let j = choose|j: int| 0 <= j < d.len() && d[j] == c[i];
        assert(d[j].id == e);
    }
}

/// The passes keep every entry point that has a state, however often they
/// run.
pub proof fn law_rounds_keep_entries(
    states: Seq<StateView>,
    entries: Seq<u32>,
    opts: LoweringOpts,
    n: nat,
    e: u32,
)
    requires
        table::ascending(states),
        entries.contains(e),
        table::has_state(states, e),
    ensures
        table::has_state(optimize::rounds(states, entries, opts, n), e),
    decreases n,
{
    let next = optimize::one_round(states, entries, opts);
    law_round_keeps_entries(states, entries, opts, e);
    optimize::lemma_round_names(states, entries, opts);
    if !(n == 0 || next == states) {
        law_rounds_keep_entries(next, entries, opts, (n - 1) as nat, e);
    }
}

/// After renumbering an entry point leads to the state that it led to.
pub proof fn law_compacting_keeps_entries(states: Seq<StateView>, i: int)
    requires
        table::ascending(states),
        states.len() < u32::MAX,
        0 <= i < states.len(),
    ensures
        optimize::new_id(states, states[i].id) == optimize::compacted(states)[i].id,
{
    optimize::lemma_new_id_at(states, i);
}

} // verus!
