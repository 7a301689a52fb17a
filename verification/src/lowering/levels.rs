//! Rules are left in the order in which they were entered.
//!
//! Each state is given the rules that have to be left between it and its
//! return, the innermost last. A body is level if it agrees with that on every
//! path: what it enters it leaves, or hands on to the state that it goes to.
use vstd::prelude::*;

use crate::lowering::layout;
use crate::lowering::optimize::{self, LoweringOpts};
use crate::lowering::reach;
use crate::lowering::recovery;
use crate::lowering::state_first::Firsts;
use crate::lowering::table::{
    self, BodyView, InstrView, LeafView, StateTable, StateView, TailView, TreeView,
};
use crate::lowering::validate;

verus! {

/// For each state, the kinds of the rules to be left before it returns.
pub type Owed = Map<u32, Seq<u16>>;

/// What is left to leave above a return state: nothing, since the return state
/// takes over all of it.
pub open spec fn above(o: Owed, s: u32, cur: Seq<u16>) -> Option<Seq<u16>> {
    if goes(o, s, cur) {
        Some(Seq::empty())
    } else {
        None
    }
}

/// What has to be left behind one step.
pub open spec fn instr_owed(o: Owed, i: InstrView, cur: Seq<u16>) -> Option<Seq<u16>> {
    match i {
        InstrView::Enter(k) => Some(cur.push(k)),
        InstrView::Exit(k) => if cur.len() > 0 && cur.last() == k {
            Some(cur.drop_last())
        } else {
            None
        },
        InstrView::Expect(_, _, _, _) => Some(cur),
        InstrView::PushRet(s) => above(o, s, cur),
    }
}

/// What has to be left behind the first `n` steps.
pub open spec fn instrs_owed(o: Owed, l: Seq<InstrView>, n: nat, cur: Seq<u16>) -> Option<
    Seq<u16>,
>
    decreases n,
{
    if n == 0 || n > l.len() {
        Some(cur)
    } else {
        match instrs_owed(o, l, (n - 1) as nat, cur) {
            Some(d) => instr_owed(o, l[n - 1], d),
            None => None,
        }
    }
}

/// Going on at the state is level.
pub open spec fn goes(o: Owed, s: u32, cur: Seq<u16>) -> bool {
    o.contains_key(s) && o[s] == cur
}

/// Going on at the continuation, or returning if there is none, is level.
pub open spec fn goes_on(o: Owed, cont: Option<u32>, cur: Seq<u16>) -> bool {
    match cont {
        Some(s) => goes(o, s, cur),
        None => cur.len() == 0,
    }
}

/// What is left to do before the continuation.
pub open spec fn above_cont(o: Owed, cont: Option<u32>, cur: Seq<u16>) -> Option<Seq<u16>> {
    match cont {
        Some(s) => above(o, s, cur),
        None => Some(cur),
    }
}

/// The body is level where `cur` has to be left.
pub open spec fn body_level(o: Owed, b: BodyView, cur: Seq<u16>) -> bool
    decreases b, 1nat,
{
    match instrs_owed(o, b.instrs, b.instrs.len(), cur) {
        Some(d) => tail_level(o, b.tail, d),
        None => false,
    }
}

/// The end of a body is level.
pub open spec fn tail_level(o: Owed, t: TailView, cur: Seq<u16>) -> bool
    decreases t, 0nat,
{
    match t {
        TailView::Jump(s) => goes(o, s, cur),
        TailView::Ret => cur.len() == 0,
        TailView::Star(_, b, cont, head) => goes_on(o, cont, cur) && match above(o, head, cur) {
            Some(d) => body_level(o, *b, d),
            None => false,
        },
        TailView::Opt(_, b, cont) => goes_on(o, cont, cur) && match above_cont(o, cont, cur) {
            Some(d) => body_level(o, *b, d),
            None => false,
        },
        TailView::Dispatch(tree, _, cont, _) => goes_on(o, cont, cur) && match above_cont(
            o,
            cont,
            cur,
        ) {
            Some(d) => tree_level(o, tree, d),
            None => false,
        },
    }
}

/// A leaf is level.
pub open spec fn leaf_level(o: Owed, l: LeafView, cur: Seq<u16>) -> bool
    decreases l, 0nat,
{
    match l {
        LeafView::Arm(b) => body_level(o, *b, cur),
        _ => true,
    }
}

/// Every leaf of a tree is level.
pub open spec fn tree_level(o: Owed, t: TreeView, cur: Seq<u16>) -> bool
    decreases t, 0nat,
{
    match t {
        TreeView::Leaf(l) => leaf_level(o, l, cur),
        TreeView::Switch(_, _, subs, default) => leaf_level(o, default, cur) && forall|i: int|
            0 <= i < subs.len() ==> tree_level(o, #[trigger] subs[i], cur),
    }
}

/// Every state is level, and just the states have a level.
pub open spec fn all_level(o: Owed, states: Seq<StateView>) -> bool {
    &&& forall|i: int|
        0 <= i < states.len() ==> o.contains_key((#[trigger] states[i]).id) && body_level(
            o,
            states[i].body,
            o[states[i].id],
        )
    &&& forall|s: u32| #[trigger] o.contains_key(s) ==> table::has_state(states, s)
}

proof fn lemma_owed_spliced(o: Owed, a: Seq<InstrView>, b: Seq<InstrView>, n: nat, cur: Seq<u16>)
    requires
        n <= b.len(),
        instrs_owed(o, a, a.len(), cur) is Some,
    ensures
        instrs_owed(o, a + b, a.len() + n, cur) == instrs_owed(
            o,
            b,
            n,
            instrs_owed(o, a, a.len(), cur)->0,
        ),
    decreases n,
{
    if n == 0 {
        lemma_owed_prefix(o, a, a + b, a.len(), cur);
    } else {
        lemma_owed_spliced(o, a, b, (n - 1) as nat, cur);
        assert((a + b)[a.len() + n - 1] == b[n - 1]);
        assert((a.len() + n - 1) as nat == a.len() + (n - 1) as nat);
    }
}

/// What has to be left depends on the steps so far.
pub proof fn lemma_owed_prefix(o: Owed, a: Seq<InstrView>, b: Seq<InstrView>, n: nat, cur: Seq<u16>)
    requires
        n <= a.len(),
        n <= b.len(),
        forall|i: int| 0 <= i < n ==> #[trigger] a[i] == b[i],
    ensures
        instrs_owed(o, a, n, cur) == instrs_owed(o, b, n, cur),
    decreases n,
{
    if n > 0 {
        lemma_owed_prefix(o, a, b, (n - 1) as nat, cur);
        assert(a[n - 1] == b[n - 1]);
    }
}

/// The body of a state is level.
proof fn lemma_level_at(o: Owed, states: Seq<StateView>, s: u32)
    requires
        all_level(o, states),
    ensures
        match table::body_of(states, s) {
            Some(b) => o.contains_key(s) && body_level(o, b, o[s]),
            None => true,
        },
{
    if table::body_of(states, s) is Some {
        let i = lemma_body_at(states, s);
        assert(o.contains_key(states[i].id));
    }
}

proof fn lemma_body_at(states: Seq<StateView>, s: u32) -> (i: int)
    requires
        table::body_of(states, s) is Some,
    ensures
        0 <= i < states.len(),
        states[i].id == s,
        table::body_of(states, s) == Some(states[i].body),
    decreases states.len(),
{
    if states.last().id == s {
        states.len() - 1
    } else {
        lemma_body_at(states.drop_last(), s)
    }
}

proof fn lemma_absorbed_level(
    o: Owed,
    states: Seq<StateView>,
    body: BodyView,
    visited: Seq<u32>,
    cur: Seq<u16>,
)
    requires
        all_level(o, states),
        body_level(o, body, cur),
    ensures
        body_level(o, optimize::absorbed(states, body, visited), cur),
    decreases states.len() - visited.len(),
{
    if let TailView::Jump(t) = body.tail {
        if !(visited.contains(t) || visited.len() >= states.len()) {
            if let Some(next) = table::body_of(states, t) {
                lemma_level_at(o, states, t);
                let joint = optimize::spliced(body, next);
                lemma_owed_spliced(o, body.instrs, next.instrs, next.instrs.len(), cur);
                assert(joint.instrs.len() == body.instrs.len() + next.instrs.len());
                assert(body_level(o, joint, cur));
                if validate::valid_body(joint) {
                    lemma_absorbed_level(o, states, joint, visited.push(t), cur);
                }
            }
        }
    }
}

/// A state that only returns has no rule to leave.
proof fn lemma_only_returns(o: Owed, states: Seq<StateView>, entries: Seq<u32>, s: u32)
    requires
        all_level(o, states),
        optimize::only_returns(states, entries, s),
    ensures
        o.contains_key(s),
        o[s].len() == 0,
{
    lemma_level_at(o, states, s);
    let b = layout::only(TailView::Ret);
    assert(body_level(o, b, o[s]));
    assert(instrs_owed(o, b.instrs, b.instrs.len(), o[s]) == Some(o[s]));
}

proof fn lemma_folded_owed(
    o: Owed,
    states: Seq<StateView>,
    entries: Seq<u32>,
    l: Seq<InstrView>,
    cur: Seq<u16>,
)
    requires
        all_level(o, states),
        instrs_owed(o, l, l.len(), cur) is Some,
    ensures
        ({
            let f = optimize::instrs_folded(states, entries, l);
            instrs_owed(o, f, f.len(), cur) == instrs_owed(o, l, l.len(), cur)
        }),
    decreases l.len(),
{
    if l.len() > 0 {
        let p = l.drop_last();
        let before = optimize::instrs_folded(states, entries, p);
        let f = optimize::instrs_folded(states, entries, l);
        lemma_owed_prefix(o, p, l, p.len(), cur);
        lemma_folded_owed(o, states, entries, p, cur);
        if f.len() > before.len() {
            lemma_owed_prefix(o, before, f, before.len(), cur);
            assert(f.last() == l.last());
        } else {
            let s = l.last()->PushRet_0;
            lemma_only_returns(o, states, entries, s);
            let d = instrs_owed(o, p, p.len(), cur)->0;
            assert(d =~= Seq::<u16>::empty());
        }
    }
}

proof fn lemma_folded_cont(
    o: Owed,
    states: Seq<StateView>,
    entries: Seq<u32>,
    cont: Option<u32>,
    cur: Seq<u16>,
)
    requires
        all_level(o, states),
        goes_on(o, cont, cur),
    ensures
        goes_on(o, optimize::cont_folded(states, entries, cont), cur),
        above_cont(o, optimize::cont_folded(states, entries, cont), cur) == above_cont(
            o,
            cont,
            cur,
        ),
{
    if let Some(s) = cont {
        if optimize::only_returns(states, entries, s) {
            lemma_only_returns(o, states, entries, s);
            assert(cur.skip(0) =~= cur);
        }
    }
}

proof fn lemma_folded_level(
    o: Owed,
    states: Seq<StateView>,
    entries: Seq<u32>,
    b: BodyView,
    cur: Seq<u16>,
)
    requires
        all_level(o, states),
        body_level(o, b, cur),
    ensures
        body_level(o, optimize::body_folded(states, entries, b), cur),
{
    lemma_folded_owed(o, states, entries, b.instrs, cur);
    let d = instrs_owed(o, b.instrs, b.instrs.len(), cur)->0;
    match b.tail {
        TailView::Star(_, _, c, _) => lemma_folded_cont(o, states, entries, c, d),
        TailView::Opt(_, _, c) => lemma_folded_cont(o, states, entries, c, d),
        TailView::Dispatch(_, _, c, _) => lemma_folded_cont(o, states, entries, c, d),
        _ => {},
    }
}

proof fn lemma_branch_level(
    o: Owed,
    states: Seq<StateView>,
    entries: Seq<u32>,
    b: BodyView,
    depth: nat,
    cur: Seq<u16>,
)
    requires
        all_level(o, states),
        body_level(o, b, cur),
    ensures
        body_level(o, optimize::branch_inlined(states, entries, b, depth), cur),
    decreases depth, b, 1nat,
{
    match optimize::branch_target(states, entries, b) {
        Some(next) => {
            if depth > 0 {
                let s = b.tail->Jump_0;
                lemma_level_at(o, states, s);
                assert(instrs_owed(o, b.instrs, b.instrs.len(), cur) == Some(cur));
                let d = instrs_owed(o, next.instrs, next.instrs.len(), cur)->0;
                lemma_tail_inlined(o, states, entries, next.tail, (depth - 1) as nat, d);
            }
        },
        None => {
            let d = instrs_owed(o, b.instrs, b.instrs.len(), cur)->0;
            lemma_tail_inlined(o, states, entries, b.tail, depth, d);
        },
    }
}

proof fn lemma_tail_inlined(
    o: Owed,
    states: Seq<StateView>,
    entries: Seq<u32>,
    t: TailView,
    depth: nat,
    cur: Seq<u16>,
)
    requires
        all_level(o, states),
        tail_level(o, t, cur),
    ensures
        tail_level(o, optimize::tail_inlined(states, entries, t, depth), cur),
    decreases depth, t, 0nat,
{
    match t {
        TailView::Star(_, b, _, head) => {
            lemma_branch_level(o, states, entries, *b, depth, above(o, head, cur)->0);
        },
        TailView::Opt(_, b, cont) => {
            lemma_branch_level(o, states, entries, *b, depth, above_cont(o, cont, cur)->0);
        },
        TailView::Dispatch(tree, _, cont, _) => {
            lemma_tree_inlined(o, states, entries, tree, depth, above_cont(o, cont, cur)->0);
        },
        _ => {},
    }
}

proof fn lemma_leaf_inlined(
    o: Owed,
    states: Seq<StateView>,
    entries: Seq<u32>,
    l: LeafView,
    depth: nat,
    cur: Seq<u16>,
)
    requires
        all_level(o, states),
        leaf_level(o, l, cur),
    ensures
        leaf_level(o, optimize::leaf_inlined(states, entries, l, depth), cur),
    decreases depth, l, 0nat,
{
    if let LeafView::Arm(b) = l {
        lemma_branch_level(o, states, entries, *b, depth, cur);
    }
}

proof fn lemma_tree_inlined(
    o: Owed,
    states: Seq<StateView>,
    entries: Seq<u32>,
    t: TreeView,
    depth: nat,
    cur: Seq<u16>,
)
    requires
        all_level(o, states),
        tree_level(o, t, cur),
    ensures
        tree_level(o, optimize::tree_inlined(states, entries, t, depth), cur),
    decreases depth, t, 0nat,
{
    match t {
        TreeView::Leaf(l) => lemma_leaf_inlined(o, states, entries, l, depth, cur),
        TreeView::Switch(_, _, subs, default) => {
            lemma_leaf_inlined(o, states, entries, default, depth, cur);
            let next = optimize::trees_inlined(states, entries, subs, depth);
            assert forall|i: int| 0 <= i < next.len() implies tree_level(
                o,
                #[trigger] next[i],
                cur,
            ) by {
                assert(tree_level(o, subs[i], cur));
                lemma_tree_inlined(o, states, entries, subs[i], depth, cur);
            }
        },
    }
}

/// The levels agree on the states.
spec fn agree(o: Owed, q: Owed, l: Seq<u32>) -> bool {
    forall|s: u32| #[trigger]
        l.contains(s) && o.contains_key(s) ==> q.contains_key(s) && q[s] == o[s]
}

proof fn lemma_agree_parts(o: Owed, q: Owed, a: Seq<u32>, b: Seq<u32>)
    requires
        agree(o, q, a + b),
    ensures
        agree(o, q, a),
        agree(o, q, b),
{
    assert forall|s: u32| #[trigger] a.contains(s) && o.contains_key(s) implies q.contains_key(s)
        && q[s] == o[s] by {
        let i = choose|i: int| 0 <= i < a.len() && a[i] == s;
        assert((a + b)[i] == s);
        assert((a + b).contains(s));
    }
    assert forall|s: u32| #[trigger] b.contains(s) && o.contains_key(s) implies q.contains_key(s)
        && q[s] == o[s] by {
        let i = choose|i: int| 0 <= i < b.len() && b[i] == s;
        assert((a + b)[a.len() + i] == s);
        assert((a + b).contains(s));
    }
}

proof fn lemma_owed_agree(o: Owed, q: Owed, l: Seq<InstrView>, cur: Seq<u16>)
    requires
        agree(o, q, optimize::instr_targets(l)),
        instrs_owed(o, l, l.len(), cur) is Some,
    ensures
        instrs_owed(q, l, l.len(), cur) == instrs_owed(o, l, l.len(), cur),
    decreases l.len(),
{
    if l.len() > 0 {
        let p = l.drop_last();
        lemma_owed_prefix(o, p, l, p.len(), cur);
        lemma_owed_prefix(q, p, l, p.len(), cur);
        match l.last() {
            InstrView::PushRet(s) => {
                let t = optimize::instr_targets(p);
                assert(optimize::instr_targets(l) =~= t + seq![s]);
                lemma_agree_parts(o, q, t, seq![s]);
                assert(seq![s][0] == s);
                assert(seq![s].contains(s));
            },
            _ => {},
        }
        lemma_owed_agree(o, q, p, cur);
    }
}

proof fn lemma_cont_agree(o: Owed, q: Owed, cont: Option<u32>, cur: Seq<u16>)
    requires
        agree(o, q, optimize::cont_targets(cont)),
        goes_on(o, cont, cur),
    ensures
        goes_on(q, cont, cur),
        above_cont(q, cont, cur) == above_cont(o, cont, cur),
{
    if let Some(s) = cont {
        assert(seq![s][0] == s);
        assert(seq![s].contains(s));
    }
}

proof fn lemma_body_agree(o: Owed, q: Owed, b: BodyView, cur: Seq<u16>)
    requires
        agree(o, q, optimize::body_targets(b)),
        body_level(o, b, cur),
    ensures
        body_level(q, b, cur),
    decreases b, 1nat,
{
    lemma_agree_parts(o, q, optimize::instr_targets(b.instrs), optimize::tail_targets(b.tail));
    lemma_owed_agree(o, q, b.instrs, cur);
    lemma_tail_agree(o, q, b.tail, instrs_owed(o, b.instrs, b.instrs.len(), cur)->0);
}

proof fn lemma_tail_agree(o: Owed, q: Owed, t: TailView, cur: Seq<u16>)
    requires
        agree(o, q, optimize::tail_targets(t)),
        tail_level(o, t, cur),
    ensures
        tail_level(q, t, cur),
    decreases t, 0nat,
{
    match t {
        TailView::Jump(s) => {
            assert(seq![s][0] == s);
            assert(seq![s].contains(s));
        },
        TailView::Ret => {},
        TailView::Star(_, b, cont, head) => {
            let inner = optimize::body_targets(*b) + optimize::cont_targets(cont);
            lemma_agree_parts(o, q, inner, seq![head]);
            lemma_agree_parts(o, q, optimize::body_targets(*b), optimize::cont_targets(cont));
            assert(seq![head][0] == head);
            assert(seq![head].contains(head));
            lemma_cont_agree(o, q, cont, cur);
            lemma_body_agree(o, q, *b, above(o, head, cur)->0);
        },
        TailView::Opt(_, b, cont) => {
            lemma_agree_parts(o, q, optimize::body_targets(*b), optimize::cont_targets(cont));
            lemma_cont_agree(o, q, cont, cur);
            lemma_body_agree(o, q, *b, above_cont(o, cont, cur)->0);
        },
        TailView::Dispatch(tree, _, cont, _) => {
            lemma_agree_parts(o, q, optimize::cont_targets(cont), optimize::tree_targets(tree));
            lemma_cont_agree(o, q, cont, cur);
            lemma_tree_agree(o, q, tree, above_cont(o, cont, cur)->0);
        },
    }
}

proof fn lemma_leaf_agree(o: Owed, q: Owed, l: LeafView, cur: Seq<u16>)
    requires
        agree(o, q, optimize::leaf_targets(l)),
        leaf_level(o, l, cur),
    ensures
        leaf_level(q, l, cur),
    decreases l, 0nat,
{
    if let LeafView::Arm(b) = l {
        lemma_body_agree(o, q, *b, cur);
    }
}

proof fn lemma_tree_agree(o: Owed, q: Owed, t: TreeView, cur: Seq<u16>)
    requires
        agree(o, q, optimize::tree_targets(t)),
        tree_level(o, t, cur),
    ensures
        tree_level(q, t, cur),
    decreases t, 0nat,
{
    match t {
        TreeView::Leaf(l) => lemma_leaf_agree(o, q, l, cur),
        TreeView::Switch(_, _, subs, default) => {
            let all = optimize::trees_targets(subs, subs.len());
            lemma_agree_parts(o, q, optimize::leaf_targets(default), all);
            lemma_leaf_agree(o, q, default, cur);
            assert forall|i: int| 0 <= i < subs.len() implies tree_level(
                q,
                #[trigger] subs[i],
                cur,
            ) by {
                lemma_agree_sub(o, q, subs, subs.len(), i);
                lemma_tree_agree(o, q, subs[i], cur);
            }
        },
    }
}

proof fn lemma_agree_sub(o: Owed, q: Owed, subs: Seq<TreeView>, n: nat, i: int)
    requires
        0 <= i < n <= subs.len(),
        agree(o, q, optimize::trees_targets(subs, n)),
    ensures
        agree(o, q, optimize::tree_targets(subs[i])),
    decreases n,
{
    lemma_agree_parts(
        o,
        q,
        optimize::trees_targets(subs, (n - 1) as nat),
        optimize::tree_targets(subs[n - 1]),
    );
    if i < n - 1 {
        lemma_agree_sub(o, q, subs, (n - 1) as nat, i);
    }
}

/// The levels of the states of the list only.
pub open spec fn among(o: Owed, states: Seq<StateView>) -> Owed {
    o.restrict(Set::new(|s: u32| table::has_state(states, s)))
}

/// A round keeps the states level.
pub proof fn law_round_keeps_level(
    o: Owed,
    states: Seq<StateView>,
    entries: Seq<u32>,
    opts: LoweringOpts,
)
    requires
        table::ascending(states),
        all_level(o, states),
    ensures
        all_level(
            among(o, optimize::one_round(states, entries, opts)),
            optimize::one_round(states, entries, opts),
        ),
{
    let a = if opts.inline_jumps {
        optimize::jumps_inlined(states)
    } else {
        states
    };
    assert(all_level(o, a)) by {
        lemma_same_ids(states, a);
        assert forall|i: int| 0 <= i < a.len() implies o.contains_key((#[trigger] a[i]).id)
            && body_level(o, a[i].body, o[a[i].id]) by {
            assert(o.contains_key(states[i].id));
            let at = o[states[i].id];
            lemma_absorbed_level(o, states, states[i].body, seq![states[i].id], at);
        }
    }
    let b = if opts.fold_trampolines {
        optimize::trampolines_folded(a, entries)
    } else {
        a
    };
    assert(all_level(o, b)) by {
        lemma_same_ids(a, b);
        assert forall|i: int| 0 <= i < b.len() implies o.contains_key((#[trigger] b[i]).id)
            && body_level(o, b[i].body, o[b[i].id]) by {
            assert(o.contains_key(a[i].id));
            lemma_folded_level(o, a, entries, a[i].body, o[a[i].id]);
        }
    }
    let c = if opts.inline_branch_bodies {
        optimize::branches_inlined(b, entries)
    } else {
        b
    };
    assert(all_level(o, c)) by {
        lemma_same_ids(b, c);
        assert forall|i: int| 0 <= i < c.len() implies o.contains_key((#[trigger] c[i]).id)
            && body_level(o, c[i].body, o[c[i].id]) by {
            assert(o.contains_key(b[i].id));
            let x = b[i].body;
            let d = instrs_owed(o, x.instrs, x.instrs.len(), o[b[i].id])->0;
            lemma_tail_inlined(o, b, entries, x.tail, usize::MAX as nat, d);
        }
    }
    assert forall|i: int| 0 <= i < c.len() implies (#[trigger] c[i]).id == states[i].id by {
        assert(a[i].id == states[i].id && b[i].id == a[i].id);
    }
    let d = optimize::one_round(states, entries, opts);
    let q = among(o, d);
    if opts.eliminate_dead {
        assert forall|i: int, j: int| 0 <= i < j < c.len() implies (#[trigger] c[i]).id < (
        #[trigger] c[j]).id by {
            assert(states[i].id < states[j].id);
        }
        lemma_elimination_level(o, c, entries);
    } else {
        assert forall|i: int| 0 <= i < d.len() implies q.contains_key((#[trigger] d[i]).id)
            && body_level(q, d[i].body, q[d[i].id]) by {
            assert(o.contains_key(c[i].id));
            assert(table::has_state(d, d[i].id));
            assert(agree(o, q, optimize::body_targets(d[i].body)));
            lemma_body_agree(o, q, d[i].body, o[d[i].id]);
        }
    }
}

proof fn lemma_same_ids(a: Seq<StateView>, b: Seq<StateView>)
    requires
        a.len() == b.len(),
        forall|i: int| 0 <= i < a.len() ==> (#[trigger] a[i]).id == b[i].id,
    ensures
        forall|s: u32| table::has_state(a, s) ==> #[trigger] table::has_state(b, s),
{
    assert forall|s: u32| table::has_state(a, s) implies #[trigger] table::has_state(b, s) by {
        let i = choose|i: int| 0 <= i < a.len() && (#[trigger] a[i]).id == s;
        assert(b[i].id == s);
    }
}

proof fn lemma_elimination_level(o: Owed, c: Seq<StateView>, entries: Seq<u32>)
    requires
        table::ascending(c),
        all_level(o, c),
    ensures
        all_level(
            among(o, optimize::dead_eliminated(c, entries)),
            optimize::dead_eliminated(c, entries),
        ),
{
    let d = optimize::dead_eliminated(c, entries);
    let q = among(o, d);
    let edges = optimize::edges_of(c);
    optimize::lemma_kept_ascending(c, entries, c);
    assert forall|i: int| 0 <= i < d.len() implies q.contains_key((#[trigger] d[i]).id)
        && body_level(q, d[i].body, q[d[i].id]) by {
        assert(d.contains(d[i]));
        let j = choose|j: int| 0 <= j < c.len() && c[j] == d[i];
        assert(o.contains_key(c[j].id));
        assert(table::has_state(d, d[i].id));
        let l = optimize::body_targets(d[i].body);
        assert forall|s: u32| #[trigger] l.contains(s) && o.contains_key(s) implies q.contains_key(
            s,
        ) && q[s] == o[s] by {
            assert(edges[j].0 == d[i].id && edges[j].1 == l);
            assert(reach::refers(edges, d[i].id, s));
            reach::lemma_reached_step(edges, entries, d[i].id, s);
            let m = choose|m: int| 0 <= m < c.len() && (#[trigger] c[m]).id == s;
            assert(c.contains(c[m]));
            assert(d.contains(c[m]));
            let n = choose|n: int| 0 <= n < d.len() && d[n] == c[m];
            assert(d[n].id == s);
        }
        lemma_body_agree(o, q, d[i].body, o[d[i].id]);
    }
}

/// The passes keep the states level, however often they run.
pub proof fn law_rounds_keep_level(
    o: Owed,
    states: Seq<StateView>,
    entries: Seq<u32>,
    opts: LoweringOpts,
    n: nat,
)
    requires
        table::ascending(states),
        all_level(o, states),
    ensures
        all_level(
            among(o, optimize::rounds(states, entries, opts, n)),
            optimize::rounds(states, entries, opts, n),
        ),
    decreases n,
{
    let next = optimize::one_round(states, entries, opts);
    law_round_keeps_level(o, states, entries, opts);
    optimize::lemma_round_names(states, entries, opts);
    if !(n == 0 || next == states) {
        let q = among(o, next);
        law_rounds_keep_level(q, next, entries, opts, (n - 1) as nat);
        let last = optimize::rounds(next, entries, opts, (n - 1) as nat);
        assert forall|s: u32| #[trigger] table::has_state(last, s) implies table::has_state(
            next,
            s,
        ) by {
            lemma_rounds_among(next, entries, opts, (n - 1) as nat, s);
        }
        assert(among(q, last) =~= among(o, last));
    }
}

pub proof fn lemma_rounds_among(
    states: Seq<StateView>,
    entries: Seq<u32>,
    opts: LoweringOpts,
    n: nat,
    s: u32,
)
    requires
        table::ascending(states),
        table::has_state(optimize::rounds(states, entries, opts, n), s),
    ensures
        table::has_state(states, s),
    decreases n,
{
    let next = optimize::one_round(states, entries, opts);
    optimize::lemma_round_names(states, entries, opts);
    if !(n == 0 || next == states) {
        lemma_rounds_among(next, entries, opts, (n - 1) as nat, s);
    }
    let i = choose|i: int| 0 <= i < next.len() && (#[trigger] next[i]).id == s;
    assert(next[i].id == s);
}

/// The levels under the new numbers.
pub open spec fn renumbered(o: Owed, states: Seq<StateView>) -> Owed {
    Map::new(|s: u32| 0 < s <= states.len(), |s: u32| o[states[s - 1].id])
}

/// A state has its level under its new number.
pub proof fn lemma_renumbered_at(o: Owed, states: Seq<StateView>, s: u32)
    requires
        table::ascending(states),
        states.len() < u32::MAX,
        all_level(o, states),
        o.contains_key(s),
    ensures
        renumbered(o, states).contains_key(optimize::new_id(states, s)),
        renumbered(o, states)[optimize::new_id(states, s)] == o[s],
{
    assert(table::has_state(states, s));
    let i = choose|i: int| 0 <= i < states.len() && (#[trigger] states[i]).id == s;
    optimize::lemma_new_id_at(states, i);
}

proof fn lemma_renumbered_owed(
    o: Owed,
    states: Seq<StateView>,
    l: Seq<InstrView>,
    n: nat,
    cur: Seq<u16>,
)
    requires
        table::ascending(states),
        states.len() < u32::MAX,
        all_level(o, states),
        n <= l.len(),
        instrs_owed(o, l, n, cur) is Some,
    ensures
        instrs_owed(
            renumbered(o, states),
            optimize::instrs_renumbered(states, l),
            n,
            cur,
        ) == instrs_owed(o, l, n, cur),
    decreases n,
{
    if n > 0 {
        lemma_renumbered_owed(o, states, l, (n - 1) as nat, cur);
        if let InstrView::PushRet(s) = l[n - 1] {
            lemma_renumbered_at(o, states, s);
        }
    }
}

proof fn lemma_renumbered_cont(o: Owed, states: Seq<StateView>, cont: Option<u32>, cur: Seq<u16>)
    requires
        table::ascending(states),
        states.len() < u32::MAX,
        all_level(o, states),
        goes_on(o, cont, cur),
    ensures
        goes_on(renumbered(o, states), optimize::cont_renumbered(states, cont), cur),
        above_cont(renumbered(o, states), optimize::cont_renumbered(states, cont), cur)
            == above_cont(o, cont, cur),
{
    if let Some(s) = cont {
        lemma_renumbered_at(o, states, s);
    }
}

proof fn lemma_renumbered_body(o: Owed, states: Seq<StateView>, b: BodyView, cur: Seq<u16>)
    requires
        table::ascending(states),
        states.len() < u32::MAX,
        all_level(o, states),
        body_level(o, b, cur),
    ensures
        body_level(renumbered(o, states), optimize::body_renumbered(states, b), cur),
    decreases b, 1nat,
{
    lemma_renumbered_owed(o, states, b.instrs, b.instrs.len(), cur);
    let d = instrs_owed(o, b.instrs, b.instrs.len(), cur)->0;
    lemma_renumbered_tail(o, states, b.tail, d);
}

proof fn lemma_renumbered_tail(o: Owed, states: Seq<StateView>, t: TailView, cur: Seq<u16>)
    requires
        table::ascending(states),
        states.len() < u32::MAX,
        all_level(o, states),
        tail_level(o, t, cur),
    ensures
        tail_level(renumbered(o, states), optimize::tail_renumbered(states, t), cur),
    decreases t, 0nat,
{
    match t {
        TailView::Jump(s) => lemma_renumbered_at(o, states, s),
        TailView::Ret => {},
        TailView::Star(_, b, cont, head) => {
            lemma_renumbered_cont(o, states, cont, cur);
            lemma_renumbered_at(o, states, head);
            lemma_renumbered_body(o, states, *b, above(o, head, cur)->0);
        },
        TailView::Opt(_, b, cont) => {
            lemma_renumbered_cont(o, states, cont, cur);
            lemma_renumbered_body(o, states, *b, above_cont(o, cont, cur)->0);
        },
        TailView::Dispatch(tree, _, cont, _) => {
            lemma_renumbered_cont(o, states, cont, cur);
            lemma_renumbered_tree(o, states, tree, above_cont(o, cont, cur)->0);
        },
    }
}

proof fn lemma_renumbered_leaf(o: Owed, states: Seq<StateView>, l: LeafView, cur: Seq<u16>)
    requires
        table::ascending(states),
        states.len() < u32::MAX,
        all_level(o, states),
        leaf_level(o, l, cur),
    ensures
        leaf_level(renumbered(o, states), optimize::leaf_renumbered(states, l), cur),
    decreases l, 0nat,
{
    if let LeafView::Arm(b) = l {
        lemma_renumbered_body(o, states, *b, cur);
    }
}

proof fn lemma_renumbered_tree(o: Owed, states: Seq<StateView>, t: TreeView, cur: Seq<u16>)
    requires
        table::ascending(states),
        states.len() < u32::MAX,
        all_level(o, states),
        tree_level(o, t, cur),
    ensures
        tree_level(renumbered(o, states), optimize::tree_renumbered(states, t), cur),
    decreases t, 0nat,
{
    match t {
        TreeView::Leaf(l) => lemma_renumbered_leaf(o, states, l, cur),
        TreeView::Switch(_, _, subs, default) => {
            lemma_renumbered_leaf(o, states, default, cur);
            let next = optimize::trees_renumbered(states, subs);
            assert forall|i: int| 0 <= i < next.len() implies tree_level(
                renumbered(o, states),
                #[trigger] next[i],
                cur,
            ) by {
                assert(tree_level(o, subs[i], cur));
                lemma_renumbered_tree(o, states, subs[i], cur);
            }
        },
    }
}

/// Renumbering keeps the states level.
pub proof fn law_compacting_keeps_level(o: Owed, states: Seq<StateView>)
    requires
        table::ascending(states),
        states.len() < u32::MAX,
        all_level(o, states),
    ensures
        all_level(renumbered(o, states), optimize::compacted(states)),
{
    let q = renumbered(o, states);
    let r = optimize::compacted(states);
    assert forall|i: int| 0 <= i < r.len() implies q.contains_key((#[trigger] r[i]).id)
        && body_level(q, r[i].body, q[r[i].id]) by {
        assert(o.contains_key(states[i].id));
        lemma_renumbered_body(o, states, states[i].body, o[states[i].id]);
    }
    assert forall|s: u32| #[trigger] q.contains_key(s) implies table::has_state(r, s) by {
        assert(r[s - 1].id == s);
    }
}

proof fn lemma_stamped_body(
    o: Owed,
    st: StateTable,
    f: Firsts,
    rule: Seq<char>,
    b: BodyView,
    cur: Seq<u16>,
)
    requires
        body_level(o, b, cur),
    ensures
        body_level(o, recovery::body_stamped(st, f, rule, b), cur),
    decreases b, 1nat,
{
    let d = instrs_owed(o, b.instrs, b.instrs.len(), cur)->0;
    match b.tail {
        TailView::Star(_, x, _, head) => {
            lemma_stamped_body(o, st, f, rule, *x, above(o, head, d)->0);
        },
        TailView::Opt(_, x, cont) => {
            lemma_stamped_body(o, st, f, rule, *x, above_cont(o, cont, d)->0);
        },
        TailView::Dispatch(tree, _, cont, _) => {
            lemma_stamped_tree(o, st, f, rule, tree, above_cont(o, cont, d)->0);
        },
        _ => {},
    }
}

proof fn lemma_stamped_leaf(
    o: Owed,
    st: StateTable,
    f: Firsts,
    rule: Seq<char>,
    l: LeafView,
    cur: Seq<u16>,
)
    requires
        leaf_level(o, l, cur),
    ensures
        leaf_level(o, recovery::leaf_stamped(st, f, rule, l), cur),
    decreases l, 0nat,
{
    if let LeafView::Arm(b) = l {
        lemma_stamped_body(o, st, f, rule, *b, cur);
    }
}

proof fn lemma_stamped_tree(
    o: Owed,
    st: StateTable,
    f: Firsts,
    rule: Seq<char>,
    t: TreeView,
    cur: Seq<u16>,
)
    requires
        tree_level(o, t, cur),
    ensures
        tree_level(o, recovery::tree_stamped(st, f, rule, t), cur),
    decreases t, 0nat,
{
    match t {
        TreeView::Leaf(l) => lemma_stamped_leaf(o, st, f, rule, l, cur),
        TreeView::Switch(_, _, subs, default) => {
            lemma_stamped_leaf(o, st, f, rule, default, cur);
            let next = recovery::trees_stamped(st, f, rule, subs);
            assert forall|i: int| 0 <= i < next.len() implies tree_level(
                o,
                #[trigger] next[i],
                cur,
            ) by {
                assert(tree_level(o, subs[i], cur));
                lemma_stamped_tree(o, st, f, rule, subs[i], cur);
            }
        },
    }
}

/// Stamping insertions keeps the states level.
pub proof fn law_stamping_keeps_level(o: Owed, st: StateTable, f: Firsts)
    requires
        all_level(o, st.states@),
    ensures
        all_level(o, recovery::stamped(st, f)),
{
    let states = st.states@;
    let r = recovery::stamped(st, f);
    assert forall|i: int| 0 <= i < r.len() implies o.contains_key((#[trigger] r[i]).id)
        && body_level(o, r[i].body, o[r[i].id]) by {
        assert(o.contains_key(states[i].id));
        lemma_stamped_body(o, st, f, states[i].rule, states[i].body, o[states[i].id]);
    }
    lemma_same_ids(states, r);
}

} // verus!
