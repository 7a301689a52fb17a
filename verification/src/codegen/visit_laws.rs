//! What a walk over an expression comes by.
use vstd::prelude::*;

use crate::analysis::ref_laws;
use crate::codegen::common;
use crate::grammar::ir::ExprView;

verus! {

/// A walk begins with the expression and comes by everything that stands in it,
/// and nothing else.
pub proof fn law_walk_comes_by_every_part(e: ExprView, x: ExprView)
    ensures
        common::preorder(e).len() > 0 && common::preorder(e)[0] == e,
        common::preorder(e).contains(x) <==> ref_laws::within(x, e),
    decreases e, 0nat,
{
    assert(seq![e].contains(x) <==> x == e) by {
        assert(seq![e][0] == e);
    }
    match e {
        ExprView::Concat(xs) => {
            lemma_walk_all(xs, xs.len(), x);
            ref_laws::lemma_both(seq![e], common::preorder_all(xs, xs.len()), x);
        },
        ExprView::Alt(xs) => {
            lemma_walk_all(xs, xs.len(), x);
            ref_laws::lemma_both(seq![e], common::preorder_all(xs, xs.len()), x);
        },
        ExprView::Opt(y) => {
            law_walk_comes_by_every_part(*y, x);
            ref_laws::lemma_both(seq![e], common::preorder(*y), x);
        },
        ExprView::Star(y) => {
            law_walk_comes_by_every_part(*y, x);
            ref_laws::lemma_both(seq![e], common::preorder(*y), x);
        },
        ExprView::Plus(y) => {
            law_walk_comes_by_every_part(*y, x);
            ref_laws::lemma_both(seq![e], common::preorder(*y), x);
        },
        ExprView::Label(_, y) => {
            law_walk_comes_by_every_part(*y, x);
            ref_laws::lemma_both(seq![e], common::preorder(*y), x);
        },
        _ => {
            ref_laws::lemma_both(seq![e], Seq::empty(), x);
        },
    }
}

proof fn lemma_walk_all(xs: Seq<ExprView>, n: nat, x: ExprView)
    requires
        n <= xs.len(),
    ensures
        common::preorder_all(xs, n).contains(x) <==> exists|i: int|
            0 <= i < n && ref_laws::within(x, #[trigger] xs[i]),
    decreases xs, n,
{
    if n > 0 {
        let k = (n - 1) as nat;
        lemma_walk_all(xs, k, x);
        law_walk_comes_by_every_part(xs[n - 1], x);
        ref_laws::lemma_both(common::preorder_all(xs, k), common::preorder(xs[n - 1]), x);
        if exists|i: int| 0 <= i < n && ref_laws::within(x, #[trigger] xs[i]) {
            let i = choose|i: int| 0 <= i < n && ref_laws::within(x, #[trigger] xs[i]);
            assert(i < k || i == n - 1);
        }
    }
}

/// A walk over a list of expressions is a walk over one part of it, then over
/// the other.
pub proof fn law_walks_go_from_left_to_right(xs: Seq<ExprView>, ys: Seq<ExprView>)
    ensures
        common::preorder(ExprView::Concat(xs + ys)).skip(1) == common::preorder(
            ExprView::Concat(xs),
        ).skip(1) + common::preorder(ExprView::Concat(ys)).skip(1),
        common::preorder(ExprView::Alt(xs + ys)).skip(1) == common::preorder(
            ExprView::Alt(xs),
        ).skip(1) + common::preorder(ExprView::Alt(ys)).skip(1),
{
    let zs = xs + ys;
    lemma_walk_joined(xs, ys, ys.len());
    assert(common::preorder(ExprView::Concat(zs)).skip(1) =~= common::preorder_all(zs, zs.len()));
    assert(common::preorder(ExprView::Concat(xs)).skip(1) =~= common::preorder_all(xs, xs.len()));
    assert(common::preorder(ExprView::Concat(ys)).skip(1) =~= common::preorder_all(ys, ys.len()));
    assert(common::preorder(ExprView::Alt(zs)).skip(1) =~= common::preorder_all(zs, zs.len()));
    assert(common::preorder(ExprView::Alt(xs)).skip(1) =~= common::preorder_all(xs, xs.len()));
    assert(common::preorder(ExprView::Alt(ys)).skip(1) =~= common::preorder_all(ys, ys.len()));
}

proof fn lemma_walk_front(xs: Seq<ExprView>, ys: Seq<ExprView>, n: nat)
    requires
        n <= xs.len(),
    ensures
        common::preorder_all(xs + ys, n) == common::preorder_all(xs, n),
    decreases n,
{
    if n > 0 {
        lemma_walk_front(xs, ys, (n - 1) as nat);
        assert((xs + ys)[n - 1] == xs[n - 1]);
    }
}

proof fn lemma_walk_joined(xs: Seq<ExprView>, ys: Seq<ExprView>, n: nat)
    requires
        n <= ys.len(),
    ensures
        common::preorder_all(xs + ys, xs.len() + n) == common::preorder_all(xs, xs.len())
            + common::preorder_all(ys, n),
    decreases n,
{
    if n == 0 {
        lemma_walk_front(xs, ys, xs.len());
        assert(common::preorder_all(xs, xs.len()) + common::preorder_all(ys, 0)
            =~= common::preorder_all(xs, xs.len()));
    } else {
        let k = (n - 1) as nat;
        lemma_walk_joined(xs, ys, k);
        assert((xs + ys)[xs.len() + n - 1] == ys[n - 1]);
        assert(common::preorder_all(xs, xs.len()) + common::preorder_all(ys, k)
            + common::preorder(ys[n - 1]) =~= common::preorder_all(xs, xs.len()) + (
        common::preorder_all(ys, k) + common::preorder(ys[n - 1])));
    }
}

} // verus!
