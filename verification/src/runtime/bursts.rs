//! How many events one state gives.
use vstd::prelude::*;

use crate::lowering::pipeline;
use crate::lowering::recovery::InsertionView;
use crate::lowering::table::{BodyView, LeafView, StateTable, StateView, TailView, TreeView};
use crate::lowering::validate;
use crate::runtime::laws::{self, RawView};
use crate::runtime::parser::{self, CursorView};
use crate::runtime::tree;

verus! {

/// Without an error among them, there are no more events than that.
spec fn bounded(events: Seq<RawView>, most: nat) -> bool {
    tree::clean(events) ==> events.len() <= most
}

proof fn lemma_joined(a: Seq<RawView>, b: Seq<RawView>, m: nat, n: nat)
    requires
        a.len() <= m,
        bounded(b, n),
    ensures
        bounded(a + b, m + n),
{
    let both = a + b;
    if tree::clean(both) {
        assert forall|i: int| 0 <= i < b.len() implies !((#[trigger] b[i]) is Error) by {
            assert(b[i] == both[a.len() + i]);
        }
    }
}

proof fn lemma_body_burst(st: StateTable, c: CursorView, b: BodyView)
    ensures
        bounded(laws::body_trace(st, c, b), pipeline::body_burst(b)),
    decreases b, 1nat,
{
    let n = b.instrs.len();
    assert(b.instrs.take(n as int) =~= b.instrs);
    laws::lemma_instrs_trace(st, c, b.instrs, n);
    let d = parser::instrs_step(st, c, b.instrs, n).0;
    lemma_tail_burst(st, d, b.tail);
    lemma_joined(
        laws::instrs_trace(st, c, b.instrs, n),
        laws::tail_trace(st, d, b.tail),
        validate::instrs_events(b.instrs),
        pipeline::tail_burst(b.tail),
    );
}

proof fn lemma_tail_burst(st: StateTable, c: CursorView, t: TailView)
    ensures
        bounded(laws::tail_trace(st, c, t), pipeline::tail_burst(t)),
    decreases t, 0nat,
{
    match t {
        TailView::Star(_, x, _, head) => lemma_body_burst(st, parser::pushed(c, head), *x),
        TailView::Opt(_, x, cont) => lemma_body_burst(st, parser::calling(c, cont), *x),
        TailView::Dispatch(tree, sync, cont, l) => lemma_tree_burst(st, c, tree, sync, cont, l),
        _ => {},
    }
}

proof fn lemma_leaf_burst(
    st: StateTable,
    c: CursorView,
    leaf: LeafView,
    sync: u32,
    cont: Option<u32>,
    l: Seq<InsertionView>,
)
    ensures
        bounded(
            laws::leaf_trace(st, c, leaf, sync, cont, l),
            pipeline::leaf_burst(leaf),
        ),
    decreases leaf, 0nat,
{
    match leaf {
        LeafView::Arm(x) => lemma_body_burst(st, parser::calling(c, cont), *x),
        LeafView::Fallthrough => {},
        LeafView::Error => {
            let events = laws::leaf_trace(st, c, leaf, sync, cont, l);
            assert(events[0] is Error);
        },
    }
}

proof fn lemma_tree_burst(
    st: StateTable,
    c: CursorView,
    tree: TreeView,
    sync: u32,
    cont: Option<u32>,
    l: Seq<InsertionView>,
)
    ensures
        bounded(
            laws::tree_trace(st, c, tree, sync, cont, l),
            pipeline::tree_burst(tree),
        ),
    decreases tree, 0nat,
{
    match tree {
        TreeView::Leaf(leaf) => lemma_leaf_burst(st, c, leaf, sync, cont, l),
        TreeView::Switch(depth, kinds, subs, default) => {
            let j = parser::arm_for(kinds, parser::look_kind(c, depth as int));
            if 0 <= j < subs.len() {
                lemma_tree_burst(st, c, subs[j], sync, cont, l);
                lemma_trees_burst(subs, subs.len(), j);
            } else {
                lemma_leaf_burst(st, c, default, sync, cont, l);
            }
        },
    }
}

proof fn lemma_trees_burst(subs: Seq<TreeView>, n: nat, j: int)
    requires
        0 <= j < n <= subs.len(),
    ensures
        pipeline::tree_burst(subs[j]) <= pipeline::trees_burst(subs, n),
    decreases n,
{
    if j < n - 1 {
        lemma_trees_burst(subs, (n - 1) as nat, j);
    }
}

proof fn lemma_states_burst(states: Seq<StateView>, n: nat, i: int)
    requires
        0 <= i < n <= states.len(),
    ensures
        pipeline::body_burst(states[i].body) <= pipeline::states_burst(states, n),
    decreases n,
{
    if i < n - 1 {
        lemma_states_burst(states, (n - 1) as nat, i);
    }
}

/// No state gives more events, as long as it raises no error, than
/// [`pipeline::max_event_burst`] says.
pub proof fn law_burst_bounds_events(st: StateTable, c: CursorView, i: int)
    requires
        0 <= i < st.states@.len(),
        tree::clean(laws::body_trace(st, c, st.states@[i].body)),
    ensures
        laws::body_trace(st, c, st.states@[i].body).len() <= pipeline::states_burst(
            st.states@,
            st.states@.len(),
        ),
{
    lemma_body_burst(st, c, st.states@[i].body);
    lemma_states_burst(st.states@, st.states@.len(), i);
}

proof fn lemma_body_events(b: BodyView)
    ensures
        pipeline::body_burst(b) <= validate::body_events(b),
    decreases b, 1nat,
{
    lemma_tail_events(b.tail);
}

proof fn lemma_tail_events(t: TailView)
    ensures
        pipeline::tail_burst(t) <= validate::tail_events(t),
    decreases t, 0nat,
{
    match t {
        TailView::Star(_, x, _, _) => lemma_body_events(*x),
        TailView::Opt(_, x, _) => lemma_body_events(*x),
        TailView::Dispatch(tree, _, _, _) => lemma_tree_events(tree),
        _ => {},
    }
}

proof fn lemma_tree_events(t: TreeView)
    ensures
        pipeline::tree_burst(t) <= validate::tree_events(t),
    decreases t, 0nat,
{
    match t {
        TreeView::Leaf(LeafView::Arm(x)) => lemma_body_events(*x),
        TreeView::Switch(_, _, subs, default) => {
            if let LeafView::Arm(x) = default {
                lemma_body_events(*x);
            }
            lemma_trees_events(subs, subs.len());
        },
        _ => {},
    }
}

proof fn lemma_trees_events(subs: Seq<TreeView>, n: nat)
    requires
        n <= subs.len(),
    ensures
        pipeline::trees_burst(subs, n) <= validate::trees_events(subs, n),
    decreases subs, n,
{
    if n > 0 {
        lemma_trees_events(subs, (n - 1) as nat);
        lemma_tree_events(subs[n - 1]);
    }
}

/// In a valid table no state gives more than one event.
pub proof fn law_valid_bursts_are_single(st: StateTable)
    requires
        validate::all_valid(st.states@),
    ensures
        pipeline::states_burst(st.states@, st.states@.len()) <= 1,
{
    lemma_single(st.states@, st.states@.len());
}

proof fn lemma_single(states: Seq<StateView>, n: nat)
    requires
        n <= states.len(),
        validate::all_valid(states),
    ensures
        pipeline::states_burst(states, n) <= 1,
    decreases n,
{
    if n > 0 {
        lemma_single(states, (n - 1) as nat);
        lemma_body_events(states[n - 1].body);
    }
}

} // verus!
