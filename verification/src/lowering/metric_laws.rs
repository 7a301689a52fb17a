//! What the size of a dispatch tree counts.
use vstd::prelude::*;

use crate::lowering::dispatch;
use crate::lowering::table::{LeafView, TreeView};

verus! {

/// The path, given by positions among the arms, leads through switches to a
/// switch.
pub open spec fn leads_to_switch(t: TreeView, path: Seq<int>) -> bool
    decreases path.len(),
{
    match t {
        TreeView::Leaf(_) => false,
        TreeView::Switch(_, _, subs, _) => path.len() == 0 || {
            &&& 0 <= path[0] < subs.len()
            &&& leads_to_switch(subs[path[0]], path.skip(1))
        },
    }
}

/// The depth of a tree is the number of switches on its longest path: no path
/// has more, and one has as many.
pub proof fn law_depth_is_the_longest_path(t: TreeView)
    ensures
        forall|path: Seq<int>| #[trigger]
            leads_to_switch(t, path) ==> path.len() < dispatch::metrics(t).1,
        t is Switch ==> exists|path: Seq<int>| #[trigger]
            leads_to_switch(t, path) && path.len() + 1 == dispatch::metrics(t).1,
        t is Leaf ==> dispatch::metrics(t).1 == 0,
    decreases t, 0nat,
{
    if let TreeView::Switch(_, _, subs, _) = t {
        lemma_deepest(subs, subs.len());
        let most = dispatch::metrics_all(subs, subs.len()).1;
        assert(dispatch::metrics(t).1 == most + 1);
        assert forall|path: Seq<int>| #[trigger] leads_to_switch(t, path) implies path.len()
            < dispatch::metrics(t).1 by {
            if path.len() > 0 {
                let s = subs[path[0]];
                law_depth_is_the_longest_path(s);
                assert(leads_to_switch(s, path.skip(1)));
                assert(dispatch::metrics(s).1 <= most);
            }
        }
        let none = Seq::<int>::empty();
        assert(leads_to_switch(t, none));
        if most > 0 {
            let i = choose|i: int|
                0 <= i < subs.len() && dispatch::metrics(#[trigger] subs[i]).1 == most;
            law_depth_is_the_longest_path(subs[i]);
            let rest = choose|path: Seq<int>| #[trigger]
                leads_to_switch(subs[i], path) && path.len() + 1 == most;
            let path = seq![i] + rest;
            assert(path.skip(1) =~= rest);
            assert(path[0] == i);
            assert(leads_to_switch(t, path));
        }
    }
}

proof fn lemma_deepest(subs: Seq<TreeView>, n: nat)
    requires
        n <= subs.len(),
    ensures
        forall|i: int|
            0 <= i < n ==> dispatch::metrics(#[trigger] subs[i]).1 <= dispatch::metrics_all(
                subs,
                n,
            ).1,
        dispatch::metrics_all(subs, n).1 > 0 ==> exists|i: int|
            0 <= i < n && dispatch::metrics(#[trigger] subs[i]).1 == dispatch::metrics_all(
                subs,
                n,
            ).1,
    decreases n,
{
    if n > 0 {
        let k = (n - 1) as nat;
        lemma_deepest(subs, k);
        let all = dispatch::metrics_all(subs, n).1;
        if dispatch::metrics(subs[n - 1]).1 == all {
        } else {
            let i = choose|i: int|
                0 <= i < k && dispatch::metrics(#[trigger] subs[i]).1 == dispatch::metrics_all(
                    subs,
                    k,
                ).1;
            assert(dispatch::metrics(subs[i]).1 == all);
        }
    }
}

/// The leaves of a tree add up: a switch has those of its arms and its default.
pub proof fn law_leaves_add_up(
    depth: u8,
    kinds: Seq<u16>,
    a: Seq<TreeView>,
    b: Seq<TreeView>,
    default: LeafView,
)
    ensures
        dispatch::metrics(TreeView::Switch(depth, kinds, a + b, default)).0 + 1
            == dispatch::metrics(TreeView::Switch(depth, kinds, a, default)).0 + dispatch::metrics(
            TreeView::Switch(depth, kinds, b, default),
        ).0,
        a.len() == 1 ==> dispatch::metrics(TreeView::Switch(depth, kinds, a, default)).0
            == dispatch::metrics(a[0]).0 + 1,
        dispatch::metrics(TreeView::Leaf(default)).0 == 1,
{
    lemma_leaves(a, b, b.len());
    reveal_with_fuel(dispatch::metrics_all, 2);
    let s = TreeView::Switch(depth, kinds, a + b, default);
    assert(s->Switch_2 == a + b);
    let p = TreeView::Switch(depth, kinds, a, default);
    assert(p->Switch_2 == a);
    let q = TreeView::Switch(depth, kinds, b, default);
    assert(q->Switch_2 == b);
    assert((a + b).len() == a.len() + b.len());
}

proof fn lemma_leaves_front(a: Seq<TreeView>, b: Seq<TreeView>, n: nat)
    requires
        n <= a.len(),
    ensures
        dispatch::metrics_all(a + b, n) == dispatch::metrics_all(a, n),
    decreases n,
{
    if n > 0 {
        lemma_leaves_front(a, b, (n - 1) as nat);
        assert((a + b)[n - 1] == a[n - 1]);
    }
}

proof fn lemma_leaves(a: Seq<TreeView>, b: Seq<TreeView>, n: nat)
    requires
        n <= b.len(),
    ensures
        dispatch::metrics_all(a + b, a.len() + n).0 == dispatch::metrics_all(a, a.len()).0
            + dispatch::metrics_all(b, n).0,
    decreases n,
{
    if n == 0 {
        lemma_leaves_front(a, b, a.len());
    } else {
        lemma_leaves(a, b, (n - 1) as nat);
        assert((a + b)[a.len() + n - 1] == b[n - 1]);
    }
}

} // verus!
