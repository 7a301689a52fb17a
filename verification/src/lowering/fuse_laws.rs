//! What fusing does to a state.
use vstd::prelude::*;

use crate::lowering::fuse::{self, FlatView, Leaf, OpView, TreeView, DUPLICATION_BUDGET};

verus! {

/// Each instruction sequence ends in a jump to the next state of `chain`, once what
/// the states before it hold has taken the place of the jump to them.
pub open spec fn chains(states: Seq<FlatView>, ops: Seq<OpView>, chain: Seq<u32>) -> bool
    decreases chain.len(),
{
    chain.len() == 0 || {
        &&& ops.len() > 0
        &&& ops.last() == OpView::Jump(chain[0])
        &&& fuse::ops_of(states, chain[0]) is Some
        &&& fuse::ops_of(states, chain[0])->0.len() > 0
        &&& chains(states, ops.drop_last() + fuse::ops_of(states, chain[0])->0, chain.skip(1))
    }
}

/// The instructions with the states of `chain` in the place of the jumps to them.
pub open spec fn strung(states: Seq<FlatView>, ops: Seq<OpView>, chain: Seq<u32>) -> Seq<OpView>
    decreases chain.len(),
{
    if chain.len() == 0 {
        ops
    } else {
        strung(states, ops.drop_last() + fuse::ops_of(states, chain[0])->0, chain.skip(1))
    }
}

/// A place in another state that refers to `t`.
pub open spec fn refers_at(states: Seq<FlatView>, t: u32, i: int, a: int) -> bool {
    &&& 0 <= i < states.len()
    &&& states[i].id != t
    &&& 0 <= a < fuse::all_targets(states[i].ops).len()
    &&& fuse::all_targets(states[i].ops)[a] == t
}

/// The state is an entry point, or two places in other states refer to it.
pub open spec fn shared(states: Seq<FlatView>, entries: Seq<u32>, t: u32) -> bool {
    ||| entries.contains(t)
    ||| exists|i: int, a: int, j: int, b: int| #[trigger]
        refers_at(states, t, i, a) && #[trigger] refers_at(states, t, j, b) && (i != j || a != b)
}

/// How many of the states are shared.
pub open spec fn copies(states: Seq<FlatView>, entries: Seq<u32>, chain: Seq<u32>) -> nat {
    chain.filter(|t: u32| shared(states, entries, t)).len()
}

/// Nothing more can be taken in: the instructions do not end in a jump, or they
/// jump to a state that is taken in already, holds nothing, or is shared and
/// either branches at once or would be a copy too many.
pub open spec fn at_end(
    states: Seq<FlatView>,
    entries: Seq<u32>,
    ops: Seq<OpView>,
    taken: Seq<u32>,
    made: nat,
) -> bool {
    ops.len() > 0 ==> match ops.last() {
        OpView::Jump(t) => {
            ||| taken.contains(t)
            ||| taken.len() >= states.len()
            ||| match fuse::ops_of(states, t) {
                None => true,
                Some(next) => next.len() == 0 || shared(states, entries, t) && (next[0] is Star
                    || next[0] is Opt || next[0] is Dispatch || made >= DUPLICATION_BUDGET),
            }
        },
        _ => true,
    }
}

/// `r` is `ops` with the states of `chain` in the place of the jumps to them: as
/// many as can be.
pub open spec fn takes_in(
    states: Seq<FlatView>,
    entries: Seq<u32>,
    ops: Seq<OpView>,
    taken: Seq<u32>,
    made: nat,
    chain: Seq<u32>,
    r: Seq<OpView>,
) -> bool {
    &&& chains(states, ops, chain)
    &&& r == strung(states, ops, chain)
    &&& (taken + chain).no_duplicates()
    &&& made <= DUPLICATION_BUDGET ==> made + copies(states, entries, chain) <= DUPLICATION_BUDGET
    &&& at_end(states, entries, r, taken + chain, made + copies(states, entries, chain))
}

proof fn lemma_occurrences(l: Seq<u32>, x: u32)
    ensures
        fuse::occurrences(l, x) >= 1 <==> exists|a: int| 0 <= a < l.len() && #[trigger] l[a] == x,
        fuse::occurrences(l, x) >= 2 <==> exists|a: int, b: int|
            0 <= a < b < l.len() && #[trigger] l[a] == x && #[trigger] l[b] == x,
    decreases l.len(),
{
    if l.len() > 0 {
        let p = l.drop_last();
        lemma_occurrences(p, x);
        assert forall|a: int| 0 <= a < p.len() implies #[trigger] p[a] == l[a] by {}
        assert forall|a: int| 0 <= a < p.len() implies #[trigger] l[a] == p[a] by {}
        assert(l[l.len() - 1] == l.last());
        if fuse::occurrences(p, x) >= 1 {
            let a = choose|a: int| 0 <= a < p.len() && #[trigger] p[a] == x;
            assert(l[a] == x);
        }
        if fuse::occurrences(p, x) >= 2 {
            let (a, b) = choose|a: int, b: int|
                0 <= a < b < p.len() && #[trigger] p[a] == x && #[trigger] p[b] == x;
            assert(l[a] == x && l[b] == x);
        }
    }
}

proof fn lemma_refs(states: Seq<FlatView>, t: u32, n: nat)
    requires
        n <= states.len(),
    ensures
        fuse::outside_refs(states, t, n) >= 1 <==> exists|i: int, a: int|
            i < n && #[trigger] refers_at(states, t, i, a),
        fuse::outside_refs(states, t, n) >= 2 <==> exists|i: int, a: int, j: int, b: int|
            i < n && j < n && #[trigger] refers_at(states, t, i, a) && #[trigger] refers_at(
                states,
                t,
                j,
                b,
            ) && (i != j || a != b),
    decreases n,
{
    if n > 0 {
        let k = (n - 1) as nat;
        lemma_refs(states, t, k);
        let l = fuse::all_targets(states[n - 1].ops);
        lemma_occurrences(l, t);
        let here = if states[n - 1].id == t {
            0nat
        } else {
            fuse::occurrences(l, t)
        };
        assert forall|i: int, a: int| i == n - 1 implies #[trigger] refers_at(states, t, i, a) == (
        states[n - 1].id != t && 0 <= a < l.len() && l[a] == t) by {}
        if here >= 1 {
            let a = choose|a: int| 0 <= a < l.len() && #[trigger] l[a] == t;
            assert(refers_at(states, t, n - 1, a));
        }
        if here >= 2 {
            let (a, b) = choose|a: int, b: int|
                0 <= a < b < l.len() && #[trigger] l[a] == t && #[trigger] l[b] == t;
            assert(refers_at(states, t, n - 1, a) && refers_at(states, t, n - 1, b));
        }
        if exists|i: int, a: int| i < n && #[trigger] refers_at(states, t, i, a) {
            let (i, a) = choose|i: int, a: int| i < n && #[trigger] refers_at(states, t, i, a);
            if i == n - 1 {
                assert(l[a] == t);
            }
        }
        if exists|i: int, a: int, j: int, b: int|
            i < n && j < n && #[trigger] refers_at(states, t, i, a) && #[trigger] refers_at(
                states,
                t,
                j,
                b,
            ) && (i != j || a != b) {
            let (i, a, j, b) = choose|i: int, a: int, j: int, b: int|
                i < n && j < n && #[trigger] refers_at(states, t, i, a) && #[trigger] refers_at(
                    states,
                    t,
                    j,
                    b,
                ) && (i != j || a != b);
            if i == n - 1 {
                assert(l[a] == t);
            }
            if j == n - 1 {
                assert(l[b] == t);
            }
            if i == n - 1 && j == n - 1 {
                if a < b {
                    assert(l[a] == t && l[b] == t);
                } else {
                    assert(l[b] == t && l[a] == t);
                }
            }
        }
    }
}

proof fn lemma_shared(states: Seq<FlatView>, entries: Seq<u32>, t: u32)
    ensures
        shared(states, entries, t) <==> !(fuse::outside_refs(states, t, states.len()) <= 1
            && !entries.contains(t)),
{
    lemma_refs(states, t, states.len());
    if exists|i: int, a: int, j: int, b: int| #[trigger]
        refers_at(states, t, i, a) && #[trigger] refers_at(states, t, j, b) && (i != j || a != b) {
        let (i, a, j, b) = choose|i: int, a: int, j: int, b: int| #[trigger]
            refers_at(states, t, i, a) && #[trigger] refers_at(states, t, j, b) && (i != j || a
                != b);
        assert(i < states.len() && j < states.len());
    }
}

proof fn lemma_copies_front(states: Seq<FlatView>, entries: Seq<u32>, t: u32, rest: Seq<u32>)
    ensures
        copies(states, entries, seq![t] + rest) == copies(states, entries, rest) + if shared(
            states,
            entries,
            t,
        ) {
            1nat
        } else {
            0nat
        },
    decreases rest.len(),
{
    let f = |x: u32| shared(states, entries, x);
    let l = seq![t] + rest;
    reveal(Seq::filter);
    if rest.len() == 0 {
        assert(l.drop_last() =~= Seq::<u32>::empty());
        assert(l.last() == t);
        assert(Seq::<u32>::empty().filter(f).len() == 0);
        assert(rest.filter(f).len() == 0);
    } else {
        lemma_copies_front(states, entries, t, rest.drop_last());
        assert(l.drop_last() =~= seq![t] + rest.drop_last());
        assert(l.last() == rest.last());
    }
}

proof fn lemma_fused(
    states: Seq<FlatView>,
    entries: Seq<u32>,
    ops: Seq<OpView>,
    visited: Seq<u32>,
    used: nat,
)
    requires
        visited.no_duplicates(),
    ensures
        exists|chain: Seq<u32>| #[trigger]
            takes_in(
                states,
                entries,
                ops,
                visited,
                used,
                chain,
                fuse::fused(states, entries, ops, visited, used),
            ),
    decreases states.len() - visited.len(),
{
    let r = fuse::fused(states, entries, ops, visited, used);
    let none = Seq::<u32>::empty();
    assert(visited + none =~= visited);
    reveal(Seq::filter);
    assert(copies(states, entries, none) == 0);
    if ops.len() == 0 {
        assert(takes_in(states, entries, ops, visited, used, none, r));
    } else {
        match ops.last() {
            OpView::Jump(t) => {
                lemma_shared(states, entries, t);
                let sh = shared(states, entries, t);
                let next = fuse::ops_of(states, t);
                if visited.contains(t) || visited.len() >= states.len() || next is None
                    || next->0.len() == 0 || sh && (fuse::branches(next->0[0]) || used
                    >= DUPLICATION_BUDGET) {
                    assert(r == ops);
                    assert(takes_in(states, entries, ops, visited, used, none, r));
                } else {
                    let more = if sh {
                        used + 1
                    } else {
                        used
                    };
                    let longer = ops.drop_last() + next->0;
                    assert(visited.push(t).no_duplicates());
                    assert(r == fuse::fused(states, entries, longer, visited.push(t), more));
                    lemma_fused(states, entries, longer, visited.push(t), more);
                    let rest = choose|chain: Seq<u32>| #[trigger]
                        takes_in(states, entries, longer, visited.push(t), more, chain, r);
                    let chain = seq![t] + rest;
                    assert(chain.skip(1) =~= rest);
                    assert(chain[0] == t);
                    assert(visited + chain =~= visited.push(t) + rest);
                    lemma_copies_front(states, entries, t, rest);
                    assert(chains(states, ops, chain));
                    assert(strung(states, ops, chain) == strung(states, longer, rest));
                    assert(used + copies(states, entries, chain) == more + copies(
                        states,
                        entries,
                        rest,
                    ));
                    assert(takes_in(states, entries, ops, visited, used, chain, r));
                }
            },
            _ => {
                assert(takes_in(states, entries, ops, visited, used, none, r));
            },
        }
    }
}

/// A fused state does what it did: in the place of the jump at its end stands
/// what the state it led to holds, and so on along a chain of states, none of
/// them twice, as far as it goes. Of shared states at most the budget is copied.
pub proof fn law_fused_states_do_the_same(
    states: Seq<FlatView>,
    entries: Seq<u32>,
    i: int,
)
    requires
        0 <= i < states.len(),
    ensures
        fuse::spliced(states, entries).len() == states.len(),
        fuse::spliced(states, entries)[i].id == states[i].id,
        fuse::spliced(states, entries)[i].label == states[i].label,
        exists|chain: Seq<u32>| #[trigger]
            takes_in(
                states,
                entries,
                states[i].ops,
                seq![states[i].id],
                0,
                chain,
                fuse::spliced(states, entries)[i].ops,
            ),
{
    let me = seq![states[i].id];
    let r = fuse::fused(states, entries, states[i].ops, me, 0);
    lemma_fused(states, entries, states[i].ops, me, 0);
    let chain = choose|chain: Seq<u32>| #[trigger]
        takes_in(states, entries, states[i].ops, me, 0, chain, r);
    assert(fuse::spliced(states, entries)[i].ops == r);
    assert(takes_in(
        states,
        entries,
        states[i].ops,
        me,
        0,
        chain,
        fuse::spliced(states, entries)[i].ops,
    ));
}

/// The leaf goes to the state.
pub open spec fn leaf_goes(l: Leaf, s: u32) -> bool {
    l == Leaf::Arm(s)
}

/// Some leaf of the tree goes to the state.
pub open spec fn tree_goes(t: TreeView, s: u32) -> bool
    decreases t,
{
    match t {
        TreeView::Leaf(l) => leaf_goes(l, s),
        TreeView::Switch(_, _, subs, default) => leaf_goes(default, s) || exists|i: int|
            0 <= i < subs.len() && tree_goes(#[trigger] subs[i], s),
    }
}

/// The instruction can go on with the state, now or on a return.
pub open spec fn goes(op: OpView, s: u32) -> bool {
    match op {
        OpView::PushRet(t) => t == s,
        OpView::Jump(t) => t == s,
        OpView::Star(_, body, next, head) => body == s || next == s || head == s,
        OpView::Opt(_, body, next) => body == s || next == s,
        OpView::Dispatch(tree, _, next) => next == s || tree_goes(tree, s),
        _ => false,
    }
}

proof fn lemma_joined(a: Seq<u32>, b: Seq<u32>, s: u32)
    ensures
        (a + b).contains(s) <==> a.contains(s) || b.contains(s),
{
    let c = a + b;
    if a.contains(s) {
        let i = choose|i: int| 0 <= i < a.len() && a[i] == s;
        assert(c[i] == s);
    }
    if b.contains(s) {
        let i = choose|i: int| 0 <= i < b.len() && b[i] == s;
        assert(c[a.len() + i] == s);
    }
    if c.contains(s) {
        let i = choose|i: int| 0 <= i < c.len() && c[i] == s;
        if i < a.len() {
            assert(a[i] == s);
        } else {
            assert(b[i - a.len()] == s);
        }
    }
}

proof fn lemma_leaf_goes(l: Leaf, s: u32)
    ensures
        fuse::leaf_targets(l).contains(s) <==> leaf_goes(l, s),
{
    if let Leaf::Arm(t) = l {
        assert(seq![t][0] == t);
    }
}

proof fn lemma_tree_goes(t: TreeView, s: u32)
    ensures
        fuse::tree_targets(t).contains(s) <==> tree_goes(t, s),
    decreases t, 0nat,
{
    match t {
        TreeView::Leaf(l) => lemma_leaf_goes(l, s),
        TreeView::Switch(_, _, subs, default) => {
            lemma_leaf_goes(default, s);
            lemma_trees_go(subs, s, subs.len());
            lemma_joined(
                fuse::leaf_targets(default),
                fuse::trees_targets(subs, subs.len()),
                s,
            );
        },
    }
}

proof fn lemma_trees_go(subs: Seq<TreeView>, s: u32, n: nat)
    requires
        n <= subs.len(),
    ensures
        fuse::trees_targets(subs, n).contains(s) <==> exists|i: int|
            0 <= i < n && tree_goes(#[trigger] subs[i], s),
    decreases subs, n,
{
    if n > 0 {
        let k = (n - 1) as nat;
        lemma_trees_go(subs, s, k);
        lemma_tree_goes(subs[n - 1], s);
        lemma_joined(fuse::trees_targets(subs, k), fuse::tree_targets(subs[n - 1]), s);
        if exists|i: int| 0 <= i < n && tree_goes(#[trigger] subs[i], s) {
            let i = choose|i: int| 0 <= i < n && tree_goes(#[trigger] subs[i], s);
            assert(i < k || i == n - 1);
        }
    }
}

proof fn lemma_goes(op: OpView, s: u32)
    ensures
        fuse::targets(op).contains(s) <==> goes(op, s),
{
    match op {
        OpView::PushRet(t) => {
            assert(seq![t][0] == t);
        },
        OpView::Jump(t) => {
            assert(seq![t][0] == t);
        },
        OpView::Star(_, body, next, head) => {
            let l = seq![body, next, head];
            assert(l[0] == body && l[1] == next && l[2] == head);
        },
        OpView::Opt(_, body, next) => {
            let l = seq![body, next];
            assert(l[0] == body && l[1] == next);
        },
        OpView::Dispatch(tree, _, next) => {
            assert(seq![next][0] == next);
            lemma_tree_goes(tree, s);
            lemma_joined(seq![next], fuse::tree_targets(tree), s);
        },
        _ => {},
    }
}

/// The states that instructions refer to are those that one of them can go on
/// with.
pub proof fn law_targets_are_where_control_goes(ops: Seq<OpView>, s: u32)
    ensures
        fuse::all_targets(ops).contains(s) <==> exists|i: int|
            0 <= i < ops.len() && goes(#[trigger] ops[i], s),
    decreases ops.len(),
{
    if ops.len() > 0 {
        let p = ops.drop_last();
        law_targets_are_where_control_goes(p, s);
        lemma_goes(ops.last(), s);
        lemma_joined(fuse::all_targets(p), fuse::targets(ops.last()), s);
        assert(ops[ops.len() - 1] == ops.last());
        if exists|i: int| 0 <= i < p.len() && goes(#[trigger] p[i], s) {
            let i = choose|i: int| 0 <= i < p.len() && goes(#[trigger] p[i], s);
            assert(goes(ops[i], s));
        }
        if exists|i: int| 0 <= i < ops.len() && goes(#[trigger] ops[i], s) {
            let i = choose|i: int| 0 <= i < ops.len() && goes(#[trigger] ops[i], s);
            if i < p.len() {
                assert(goes(p[i], s));
            }
        }
    }
}

} // verus!
