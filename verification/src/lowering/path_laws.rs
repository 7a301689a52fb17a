//! What the rules on bodies say of the paths through them.
use vstd::prelude::*;

use crate::lowering::table::{BodyView, InstrView, LeafView, TailView, TreeView};
use crate::lowering::validate;

verus! {

/// One step of a path through a body.
pub ghost enum Step {
    /// An instruction was done.
    Did(InstrView),
    /// The lookahead was read to decide how to go on.
    Looked,
    /// No arm fits what was read.
    Missed,
}

/// The instructions, each as a step.
pub open spec fn steps_of(l: Seq<InstrView>) -> Seq<Step> {
    Seq::new(l.len(), |i: int| Step::Did(l[i]))
}

/// The steps are those of a path through the body.
pub open spec fn body_path(b: BodyView, p: Seq<Step>) -> bool
    decreases b, 1nat,
{
    &&& p.len() >= b.instrs.len()
    &&& p.take(b.instrs.len() as int) == steps_of(b.instrs)
    &&& tail_path(b.tail, p.skip(b.instrs.len() as int))
}

/// The steps are those of a path through the end of a body.
pub open spec fn tail_path(t: TailView, p: Seq<Step>) -> bool
    decreases t, 0nat,
{
    match t {
        TailView::Jump(_) => p.len() == 0,
        TailView::Ret => p.len() == 0,
        TailView::Star(_, b, _, _) => p.len() > 0 && p[0] == Step::Looked && (p.len() == 1
            || body_path(*b, p.skip(1))),
        TailView::Opt(_, b, _) => p.len() > 0 && p[0] == Step::Looked && (p.len() == 1
            || body_path(*b, p.skip(1))),
        TailView::Dispatch(tree, _, _, _) => p.len() > 0 && p[0] == Step::Looked && tree_path(
            tree,
            p.skip(1),
        ),
    }
}

/// The steps are those of a path through the leaf.
pub open spec fn leaf_path(l: LeafView, p: Seq<Step>) -> bool
    decreases l, 0nat,
{
    match l {
        LeafView::Arm(b) => body_path(*b, p),
        LeafView::Fallthrough => p.len() == 0,
        LeafView::Error => p.len() == 1 && p[0] == Step::Missed,
    }
}

/// The steps are those of a path through the tree, once the lookahead was read.
pub open spec fn tree_path(t: TreeView, p: Seq<Step>) -> bool
    decreases t, 0nat,
{
    match t {
        TreeView::Leaf(l) => leaf_path(l, p),
        TreeView::Switch(_, _, subs, default) => leaf_path(default, p) || exists|i: int|
            0 <= i < subs.len() && tree_path(#[trigger] subs[i], p),
    }
}

/// The step hands an event to the caller.
pub open spec fn emits(s: Step) -> bool {
    match s {
        Step::Did(i) => !(i is PushRet),
        Step::Looked => false,
        Step::Missed => true,
    }
}

/// The number of events on the path.
pub open spec fn events(p: Seq<Step>) -> nat
    decreases p.len(),
{
    if p.len() == 0 {
        0
    } else {
        events(p.drop_last()) + if emits(p.last()) {
            1nat
        } else {
            0nat
        }
    }
}

/// The lookahead is read after a token was taken.
pub open spec fn peeks(p: Seq<Step>) -> bool {
    exists|i: int, j: int|
        0 <= i < j < p.len() && (#[trigger] p[i]) is Did && p[i]->Did_0 is Expect && (
        #[trigger] p[j]) == Step::Looked
}

proof fn lemma_events_add(a: Seq<Step>, b: Seq<Step>)
    ensures
        events(a + b) == events(a) + events(b),
    decreases b.len(),
{
    if b.len() == 0 {
        assert(a + b =~= a);
    } else {
        lemma_events_add(a, b.drop_last());
        assert((a + b).drop_last() =~= a + b.drop_last());
        assert((a + b).last() == b.last());
    }
}

proof fn lemma_events_split(p: Seq<Step>, n: int)
    requires
        0 <= n <= p.len(),
    ensures
        events(p) == events(p.take(n)) + events(p.skip(n)),
{
    lemma_events_add(p.take(n), p.skip(n));
    assert(p.take(n) + p.skip(n) =~= p);
}

proof fn lemma_events_of(l: Seq<InstrView>)
    ensures
        events(steps_of(l)) == validate::instrs_events(l),
    decreases l.len(),
{
    if l.len() > 0 {
        lemma_events_of(l.drop_last());
        assert(steps_of(l).drop_last() =~= steps_of(l.drop_last()));
        assert(steps_of(l).last() == Step::Did(l.last()));
    }
}

proof fn lemma_looked(p: Seq<Step>)
    requires
        p.len() > 0,
        p[0] == Step::Looked,
    ensures
        events(p) == events(p.skip(1)),
        peeks(p) == peeks(p.skip(1)),
{
    let q = p.skip(1);
    lemma_events_split(p, 1);
    let one = p.take(1);
    reveal_with_fuel(events, 2);
    assert(one.drop_last() =~= Seq::<Step>::empty());
    assert(one.last() == Step::Looked);
    assert(events(one) == 0);
    if peeks(p) {
        let (i, j) = choose|i: int, j: int|
            0 <= i < j < p.len() && (#[trigger] p[i]) is Did && p[i]->Did_0 is Expect && (
            #[trigger] p[j]) == Step::Looked;
        assert(q[i - 1] == p[i] && q[j - 1] == p[j]);
    }
    if peeks(q) {
        let (i, j) = choose|i: int, j: int|
            0 <= i < j < q.len() && (#[trigger] q[i]) is Did && q[i]->Did_0 is Expect && (
            #[trigger] q[j]) == Step::Looked;
        assert(p[i + 1] == q[i] && p[j + 1] == q[j]);
    }
}

/// No path has more than `most` events, and one has as many.
spec fn is_most(paths: spec_fn(Seq<Step>) -> bool, most: nat) -> bool {
    &&& forall|p: Seq<Step>| #[trigger] paths(p) ==> events(p) <= most
    &&& exists|p: Seq<Step>| #[trigger] paths(p) && events(p) == most
}

/// The number that is counted for a body is that of the events on the path with
/// the most: no path has more, and one has as many.
pub proof fn law_events_are_counted_on_the_longest_path(b: BodyView)
    ensures
        forall|p: Seq<Step>| #[trigger] body_path(b, p) ==> events(p) <= validate::body_events(b),
        exists|p: Seq<Step>| #[trigger]
            body_path(b, p) && events(p) == validate::body_events(b),
    decreases b, 1nat,
{
    let n = b.instrs.len() as int;
    lemma_tail_most(b.tail);
    lemma_events_of(b.instrs);
    let f = |p: Seq<Step>| tail_path(b.tail, p);
    assert forall|p: Seq<Step>| #[trigger] body_path(b, p) implies events(p)
        <= validate::body_events(b) by {
        lemma_events_split(p, n);
        assert(f(p.skip(n)));
    }
    let q = choose|q: Seq<Step>| #[trigger] f(q) && events(q) == validate::tail_events(b.tail);
    let p = steps_of(b.instrs) + q;
    assert(p.take(n) =~= steps_of(b.instrs));
    assert(p.skip(n) =~= q);
    lemma_events_split(p, n);
    assert(body_path(b, p));
}

proof fn lemma_tail_most(t: TailView)
    ensures
        is_most(|p: Seq<Step>| tail_path(t, p), validate::tail_events(t)),
    decreases t, 0nat,
{
    let f = |p: Seq<Step>| tail_path(t, p);
    let none = Seq::<Step>::empty();
    match t {
        TailView::Jump(_) => {
            assert(f(none) && events(none) == 0);
        },
        TailView::Ret => {
            assert(f(none) && events(none) == 0);
        },
        TailView::Star(_, b, _, _) => lemma_round_most(t, *b),
        TailView::Opt(_, b, _) => lemma_round_most(t, *b),
        TailView::Dispatch(tree, _, _, _) => {
            lemma_tree_most(tree);
            let g = |p: Seq<Step>| tree_path(tree, p);
            assert forall|p: Seq<Step>| #[trigger] f(p) implies events(p) <= validate::tail_events(
                t,
            ) by {
                lemma_looked(p);
                assert(g(p.skip(1)));
            }
            let q = choose|q: Seq<Step>| #[trigger]
                g(q) && events(q) == validate::tree_events(tree);
            let p = seq![Step::Looked] + q;
            assert(p.skip(1) =~= q);
            assert(p[0] == Step::Looked);
            lemma_looked(p);
            assert(f(p) && events(p) == validate::tail_events(t));
        },
    }
}

proof fn lemma_round_most(t: TailView, b: BodyView)
    requires
        match t {
            TailView::Star(_, x, _, _) => *x == b,
            TailView::Opt(_, x, _) => *x == b,
            _ => false,
        },
    ensures
        is_most(|p: Seq<Step>| tail_path(t, p), validate::tail_events(t)),
    decreases b, 2nat,
{
    let f = |p: Seq<Step>| tail_path(t, p);
    law_events_are_counted_on_the_longest_path(b);
    assert forall|p: Seq<Step>| #[trigger] f(p) implies events(p) <= validate::tail_events(t) by {
        lemma_looked(p);
        if p.len() == 1 {
            assert(p.skip(1) =~= Seq::<Step>::empty());
            assert(events(p.skip(1)) == 0);
        } else {
            assert(body_path(b, p.skip(1)));
        }
    }
    let q = choose|q: Seq<Step>| #[trigger]
        body_path(b, q) && events(q) == validate::body_events(b);
    let p = seq![Step::Looked] + q;
    assert(p.skip(1) =~= q);
    assert(p[0] == Step::Looked);
    lemma_looked(p);
    assert(f(p) && events(p) == validate::tail_events(t));
}

proof fn lemma_leaf_most(l: LeafView)
    ensures
        is_most(|p: Seq<Step>| leaf_path(l, p), validate::leaf_events(l)),
    decreases l, 0nat,
{
    let f = |p: Seq<Step>| leaf_path(l, p);
    match l {
        LeafView::Arm(b) => {
            law_events_are_counted_on_the_longest_path(*b);
            assert forall|p: Seq<Step>| #[trigger] f(p) implies events(p) <= validate::leaf_events(
                l,
            ) by {
                assert(body_path(*b, p));
            }
            let q = choose|q: Seq<Step>| #[trigger]
                body_path(*b, q) && events(q) == validate::body_events(*b);
            assert(f(q) && events(q) == validate::leaf_events(l));
        },
        LeafView::Fallthrough => {
            let none = Seq::<Step>::empty();
            assert(f(none) && events(none) == 0);
        },
        LeafView::Error => {
            reveal_with_fuel(events, 2);
            let one = seq![Step::Missed];
            assert(one.last() == Step::Missed);
            assert(f(one) && events(one) == 1);
            assert forall|p: Seq<Step>| #[trigger] f(p) implies events(p) <= 1 by {
                assert(p =~= one);
            }
        },
    }
}

proof fn lemma_tree_most(t: TreeView)
    ensures
        is_most(|p: Seq<Step>| tree_path(t, p), validate::tree_events(t)),
    decreases t, 0nat,
{
    let f = |p: Seq<Step>| tree_path(t, p);
    match t {
        TreeView::Leaf(l) => {
            lemma_leaf_most(l);
            let g = |p: Seq<Step>| leaf_path(l, p);
            assert forall|p: Seq<Step>| #[trigger] f(p) implies events(p) <= validate::tree_events(
                t,
            ) by {
                assert(g(p));
            }
            let q = choose|q: Seq<Step>| #[trigger] g(q) && events(q) == validate::leaf_events(l);
            assert(f(q));
        },
        TreeView::Switch(_, _, subs, default) => {
            lemma_leaf_most(default);
            lemma_trees_most(subs, subs.len());
            let g = |p: Seq<Step>| leaf_path(default, p);
            assert forall|p: Seq<Step>| #[trigger] f(p) implies events(p) <= validate::tree_events(
                t,
            ) by {
                if leaf_path(default, p) {
                    assert(g(p));
                } else {
                    let i = choose|i: int| 0 <= i < subs.len() && tree_path(#[trigger] subs[i], p);
                    assert(tree_path(subs[i], p));
                }
            }
            if validate::leaf_events(default) >= validate::trees_events(subs, subs.len()) {
                let q = choose|q: Seq<Step>| #[trigger]
                    g(q) && events(q) == validate::leaf_events(default);
                assert(f(q));
            } else {
                let (i, q) = choose|i: int, q: Seq<Step>|
                    0 <= i < subs.len() && #[trigger] tree_path(subs[i], q) && events(q)
                        == validate::trees_events(subs, subs.len());
                assert(f(q));
            }
        },
    }
}

proof fn lemma_trees_most(subs: Seq<TreeView>, n: nat)
    requires
        n <= subs.len(),
    ensures
        forall|i: int, p: Seq<Step>|
            0 <= i < n && #[trigger] tree_path(subs[i], p) ==> events(p) <= validate::trees_events(
                subs,
                n,
            ),
        n > 0 ==> exists|i: int, p: Seq<Step>|
            0 <= i < n && #[trigger] tree_path(subs[i], p) && events(p) == validate::trees_events(
                subs,
                n,
            ),
    decreases subs, n,
{
    if n > 0 {
        let k = (n - 1) as nat;
        let last = subs[n - 1];
        lemma_trees_most(subs, k);
        lemma_tree_most(last);
        let g = |p: Seq<Step>| tree_path(last, p);
        assert forall|i: int, p: Seq<Step>|
            0 <= i < n && #[trigger] tree_path(subs[i], p) implies events(p)
            <= validate::trees_events(subs, n) by {
            if i == n - 1 {
                assert(g(p));
            }
        }
        if validate::trees_events(subs, k) > validate::tree_events(last) {
            let (i, p) = choose|i: int, p: Seq<Step>|
                0 <= i < k && #[trigger] tree_path(subs[i], p) && events(p)
                    == validate::trees_events(subs, k);
            assert(tree_path(subs[i], p) && events(p) == validate::trees_events(subs, n));
        } else {
            let q = choose|q: Seq<Step>| #[trigger]
                g(q) && events(q) == validate::tree_events(last);
            assert(tree_path(subs[n - 1], q) && events(q) == validate::trees_events(subs, n));
        }
    }
}

proof fn lemma_some_path(b: BodyView) -> (p: Seq<Step>)
    ensures
        body_path(b, p),
{
    law_events_are_counted_on_the_longest_path(b);
    choose|p: Seq<Step>| #[trigger] body_path(b, p) && events(p) == validate::body_events(b)
}

/// A body keeps to the rule on lookahead if and only if no path through it reads
/// the lookahead after it took a token.
pub proof fn law_lookahead_is_read_before_tokens_are_taken(b: BodyView)
    ensures
        validate::no_peek_after_expect(b) <==> forall|p: Seq<Step>| #[trigger]
            body_path(b, p) ==> !peeks(p),
    decreases b, 1nat,
{
    let n = b.instrs.len() as int;
    lemma_tail_peeks(b.tail);
    if validate::no_peek_after_expect(b) {
        assert forall|p: Seq<Step>| #[trigger] body_path(b, p) implies !peeks(p) by {
            let q = p.skip(n);
            assert(tail_path(b.tail, q));
            if peeks(p) {
                let (i, j) = choose|i: int, j: int|
                    0 <= i < j < p.len() && (#[trigger] p[i]) is Did && p[i]->Did_0 is Expect && (
                    #[trigger] p[j]) == Step::Looked;
                if j < n {
                    assert(p.take(n)[j] == Step::Did(b.instrs[j]));
                } else if i < n {
                    assert(p.take(n)[i] == Step::Did(b.instrs[i]));
                    assert(b.instrs[i] is Expect);
                } else {
                    assert(q[i - n] == p[i] && q[j - n] == p[j]);
                    assert(peeks(q));
                }
            }
        }
    } else if validate::has_expect(b.instrs) && validate::reads_ahead(b.tail) {
        let p = lemma_some_path(b);
        let i = choose|i: int| 0 <= i < n && (#[trigger] b.instrs[i]) is Expect;
        assert(tail_path(b.tail, p.skip(n)));
        assert(p.skip(n)[0] == p[n]);
        assert(p.take(n)[i] == Step::Did(b.instrs[i]));
        assert(p[i] is Did && p[i]->Did_0 is Expect && p[n] == Step::Looked);
        assert(peeks(p));
    } else {
        let q = choose|q: Seq<Step>| #[trigger] tail_path(b.tail, q) && peeks(q);
        let p = steps_of(b.instrs) + q;
        assert(p.take(n) =~= steps_of(b.instrs));
        assert(p.skip(n) =~= q);
        assert(body_path(b, p));
        let (i, j) = choose|i: int, j: int|
            0 <= i < j < q.len() && (#[trigger] q[i]) is Did && q[i]->Did_0 is Expect && (
            #[trigger] q[j]) == Step::Looked;
        assert(p[n + i] == q[i] && p[n + j] == q[j]);
        assert(peeks(p));
    }
}

proof fn lemma_tail_peeks(t: TailView)
    ensures
        validate::tail_no_peek(t) <==> forall|p: Seq<Step>| #[trigger]
            tail_path(t, p) ==> !peeks(p),
    decreases t, 0nat,
{
    match t {
        TailView::Jump(_) => {},
        TailView::Ret => {},
        TailView::Star(_, b, _, _) => lemma_round_peeks(t, *b),
        TailView::Opt(_, b, _) => lemma_round_peeks(t, *b),
        TailView::Dispatch(tree, _, _, _) => {
            lemma_tree_peeks(tree);
            if validate::tail_no_peek(t) {
                assert forall|p: Seq<Step>| #[trigger] tail_path(t, p) implies !peeks(p) by {
                    lemma_looked(p);
                    assert(tree_path(tree, p.skip(1)));
                }
            } else {
                let q = choose|q: Seq<Step>| #[trigger] tree_path(tree, q) && peeks(q);
                let p = seq![Step::Looked] + q;
                assert(p.skip(1) =~= q);
                assert(p[0] == Step::Looked);
                lemma_looked(p);
                assert(tail_path(t, p) && peeks(p));
            }
        },
    }
}

proof fn lemma_round_peeks(t: TailView, b: BodyView)
    requires
        match t {
            TailView::Star(_, x, _, _) => *x == b,
            TailView::Opt(_, x, _) => *x == b,
            _ => false,
        },
    ensures
        validate::no_peek_after_expect(b) <==> forall|p: Seq<Step>| #[trigger]
            tail_path(t, p) ==> !peeks(p),
    decreases b, 2nat,
{
    law_lookahead_is_read_before_tokens_are_taken(b);
    if validate::no_peek_after_expect(b) {
        assert forall|p: Seq<Step>| #[trigger] tail_path(t, p) implies !peeks(p) by {
            lemma_looked(p);
            if p.len() > 1 {
                assert(body_path(b, p.skip(1)));
            }
        }
    } else {
        let q = choose|q: Seq<Step>| #[trigger] body_path(b, q) && peeks(q);
        let p = seq![Step::Looked] + q;
        assert(p.skip(1) =~= q);
        assert(p[0] == Step::Looked);
        lemma_looked(p);
        assert(tail_path(t, p) && peeks(p));
    }
}

proof fn lemma_leaf_peeks(l: LeafView)
    ensures
        validate::leaf_no_peek(l) <==> forall|p: Seq<Step>| #[trigger]
            leaf_path(l, p) ==> !peeks(p),
    decreases l, 0nat,
{
    if let LeafView::Arm(b) = l {
        law_lookahead_is_read_before_tokens_are_taken(*b);
        if validate::leaf_no_peek(l) {
            assert forall|p: Seq<Step>| #[trigger] leaf_path(l, p) implies !peeks(p) by {
                assert(body_path(*b, p));
            }
        } else {
            let q = choose|q: Seq<Step>| #[trigger] body_path(*b, q) && peeks(q);
            assert(leaf_path(l, q));
        }
    }
}

proof fn lemma_tree_peeks(t: TreeView)
    ensures
        validate::tree_no_peek(t) <==> forall|p: Seq<Step>| #[trigger]
            tree_path(t, p) ==> !peeks(p),
    decreases t, 0nat,
{
    match t {
        TreeView::Leaf(l) => {
            lemma_leaf_peeks(l);
            if validate::tree_no_peek(t) {
                assert forall|p: Seq<Step>| #[trigger] tree_path(t, p) implies !peeks(p) by {
                    assert(leaf_path(l, p));
                }
            } else {
                let q = choose|q: Seq<Step>| #[trigger] leaf_path(l, q) && peeks(q);
                assert(tree_path(t, q));
            }
        },
        TreeView::Switch(_, _, subs, default) => {
            lemma_leaf_peeks(default);
            if validate::tree_no_peek(t) {
                assert forall|p: Seq<Step>| #[trigger] tree_path(t, p) implies !peeks(p) by {
                    if !leaf_path(default, p) {
                        let i = choose|i: int|
                            0 <= i < subs.len() && tree_path(#[trigger] subs[i], p);
                        lemma_tree_peeks(subs[i]);
                        assert(validate::tree_no_peek(subs[i]));
                    }
                }
            } else if !validate::leaf_no_peek(default) {
                let q = choose|q: Seq<Step>| #[trigger] leaf_path(default, q) && peeks(q);
                assert(tree_path(t, q));
            } else {
                let i = choose|i: int|
                    0 <= i < subs.len() && !validate::tree_no_peek(#[trigger] subs[i]);
                lemma_tree_peeks(subs[i]);
                let q = choose|q: Seq<Step>| #[trigger] tree_path(subs[i], q) && peeks(q);
                assert(tree_path(t, q));
            }
        },
    }
}

} // verus!
