//! FOLLOW(k): what can come after each rule, up to `k` tokens of it.
use vstd::prelude::*;

use crate::analysis::first_follow::{self, FirstTable, Firsts, NullTable, Nulls};
use crate::analysis::first_set::{self, FirstSet, NameSeq};
use crate::analysis::follow;
use crate::analysis::universe;
use crate::grammar::ir::{self, Expr, ExprView, Grammar, RuleView};

verus! {

/// FIRST(k) of the items of a sequence from position `i` on, then `tail`.
pub open spec fn rest_then(
    xs: Seq<ExprView>,
    i: int,
    tail: Set<NameSeq>,
    nulls: Nulls,
    f: Firsts,
    k: nat,
) -> Set<NameSeq>
    decreases xs.len() - i,
{
    if i < 0 || i >= xs.len() {
        tail
    } else {
        first_set::concat_k_of(
            first_follow::first_expr(xs[i], nulls, f, k),
            rest_then(xs, i + 1, tail, nulls, f, k),
            k,
        )
    }
}

/// What comes after the body of a repetition: more rounds, then `tail`.
pub open spec fn loop_tail(
    x: ExprView,
    tail: Set<NameSeq>,
    nulls: Nulls,
    f: Firsts,
    k: nat,
) -> Set<NameSeq> {
    first_set::concat_k_of(
        first_set::star_k_of(first_follow::first_expr(x, nulls, f, k), k),
        tail,
        k,
    )
}

/// The table `fo` has what the occurrences of rules in `e` let follow, where
/// `tail` comes after `e`.
pub open spec fn follow_k_closed(
    e: ExprView,
    tail: Set<NameSeq>,
    nulls: Nulls,
    f: Firsts,
    fo: Firsts,
    k: nat,
) -> bool
    decreases e,
{
    match e {
        ExprView::Empty => true,
        ExprView::Token(_) => true,
        ExprView::Rule(n) => tail.subset_of(first_follow::set_at(fo, n)),
        ExprView::Concat(xs) => forall|i: int|
            0 <= i < xs.len() ==> follow_k_closed(
                #[trigger] xs[i],
                rest_then(xs, i + 1, tail, nulls, f, k),
                nulls,
                f,
                fo,
                k,
            ),
        ExprView::Alt(xs) => forall|i: int|
            0 <= i < xs.len() ==> follow_k_closed(#[trigger] xs[i], tail, nulls, f, fo, k),
        ExprView::Opt(x) => follow_k_closed(*x, tail, nulls, f, fo, k),
        ExprView::Star(x) => follow_k_closed(
            *x,
            loop_tail(*x, tail, nulls, f, k),
            nulls,
            f,
            fo,
            k,
        ),
        ExprView::Plus(x) => follow_k_closed(
            *x,
            loop_tail(*x, tail, nulls, f, k),
            nulls,
            f,
            fo,
            k,
        ),
        ExprView::Label(_, x) => follow_k_closed(*x, tail, nulls, f, fo, k),
    }
}

/// The table has the end of input and all that the bodies let follow.
pub open spec fn follow_k_holds(
    rules: Seq<RuleView>,
    k: nat,
    nulls: Nulls,
    f: Firsts,
    fo: Firsts,
) -> bool {
    forall|i: int|
        0 <= i < rules.len() ==> follow::only_eof().subset_of(
            first_follow::set_at(fo, (#[trigger] rules[i]).name),
        ) && follow_k_closed(
            rules[i].body,
            first_follow::set_at(fo, rules[i].name),
            nulls,
            f,
            fo,
            k,
        )
}

/// The least table that has the end of input and all that the bodies let
/// follow.
pub open spec fn is_follow_k(
    rules: Seq<RuleView>,
    k: nat,
    nulls: Nulls,
    f: Firsts,
    fo: Firsts,
) -> bool {
    &&& follow_k_holds(rules, k, nulls, f, fo)
    &&& forall|fo2: Firsts| #[trigger]
        follow_k_holds(rules, k, nulls, f, fo2) ==> first_follow::tables_le(fo, fo2)
}

proof fn lemma_rest_mono(
    xs: Seq<ExprView>,
    i: int,
    t1: Set<NameSeq>,
    t2: Set<NameSeq>,
    nulls: Nulls,
    f: Firsts,
    k: nat,
)
    requires
        t1.subset_of(t2),
    ensures
        rest_then(xs, i, t1, nulls, f, k).subset_of(rest_then(xs, i, t2, nulls, f, k)),
    decreases xs.len() - i,
{
    if 0 <= i < xs.len() {
        lemma_rest_mono(xs, i + 1, t1, t2, nulls, f, k);
        let a = first_follow::first_expr(xs[i], nulls, f, k);
        first_set::lemma_concat_mono(
            a,
            a,
            rest_then(xs, i + 1, t1, nulls, f, k),
            rest_then(xs, i + 1, t2, nulls, f, k),
            k,
        );
    }
}

proof fn lemma_loop_mono(
    x: ExprView,
    t1: Set<NameSeq>,
    t2: Set<NameSeq>,
    nulls: Nulls,
    f: Firsts,
    k: nat,
)
    requires
        t1.subset_of(t2),
    ensures
        loop_tail(x, t1, nulls, f, k).subset_of(loop_tail(x, t2, nulls, f, k)),
{
    let a = first_set::star_k_of(first_follow::first_expr(x, nulls, f, k), k);
    first_set::lemma_concat_mono(a, a, t1, t2, k);
}

/// A table that does for a tail does for a smaller one.
proof fn lemma_closed_mono(
    e: ExprView,
    t1: Set<NameSeq>,
    t2: Set<NameSeq>,
    nulls: Nulls,
    f: Firsts,
    fo: Firsts,
    k: nat,
)
    requires
        t1.subset_of(t2),
        follow_k_closed(e, t2, nulls, f, fo, k),
    ensures
        follow_k_closed(e, t1, nulls, f, fo, k),
    decreases e,
{
    match e {
        ExprView::Concat(xs) => {
            assert forall|i: int| 0 <= i < xs.len() implies follow_k_closed(
                #[trigger] xs[i],
                rest_then(xs, i + 1, t1, nulls, f, k),
                nulls,
                f,
                fo,
                k,
            ) by {
                lemma_rest_mono(xs, i + 1, t1, t2, nulls, f, k);
                lemma_closed_mono(
                    xs[i],
                    rest_then(xs, i + 1, t1, nulls, f, k),
                    rest_then(xs, i + 1, t2, nulls, f, k),
                    nulls,
                    f,
                    fo,
                    k,
                );
            }
        },
        ExprView::Alt(xs) => {
            assert forall|i: int| 0 <= i < xs.len() implies follow_k_closed(
                #[trigger] xs[i],
                t1,
                nulls,
                f,
                fo,
                k,
            ) by {
                lemma_closed_mono(xs[i], t1, t2, nulls, f, fo, k);
            }
        },
        ExprView::Opt(x) => lemma_closed_mono(*x, t1, t2, nulls, f, fo, k),
        ExprView::Label(_, x) => lemma_closed_mono(*x, t1, t2, nulls, f, fo, k),
        ExprView::Star(x) => {
            lemma_loop_mono(*x, t1, t2, nulls, f, k);
            lemma_closed_mono(
                *x,
                loop_tail(*x, t1, nulls, f, k),
                loop_tail(*x, t2, nulls, f, k),
                nulls,
                f,
                fo,
                k,
            );
        },
        ExprView::Plus(x) => {
            lemma_loop_mono(*x, t1, t2, nulls, f, k);
            lemma_closed_mono(
                *x,
                loop_tail(*x, t1, nulls, f, k),
                loop_tail(*x, t2, nulls, f, k),
                nulls,
                f,
                fo,
                k,
            );
        },
        _ => {},
    }
}

proof fn lemma_rest_bounded(
    xs: Seq<ExprView>,
    i: int,
    tail: Set<NameSeq>,
    nulls: Nulls,
    f: Firsts,
    k: nat,
    keys: Set<Seq<char>>,
    sigma: Set<Seq<char>>,
    len: nat,
)
    requires
        k <= len,
        follow::bounded(f, sigma, len),
        tail.subset_of(universe::all_seqs(sigma, len)),
        forall|j: int| 0 <= j < xs.len() ==> follow::names_known(#[trigger] xs[j], keys, sigma),
    ensures
        rest_then(xs, i, tail, nulls, f, k).subset_of(universe::all_seqs(sigma, len)),
    decreases xs.len() - i,
{
    if 0 <= i < xs.len() {
        lemma_rest_bounded(xs, i + 1, tail, nulls, f, k, keys, sigma, len);
        assert(follow::names_known(xs[i], keys, sigma));
        first_follow::lemma_first_bounded(xs[i], nulls, f, k, sigma, len);
        first_follow::lemma_concat_bounded(
            first_follow::first_expr(xs[i], nulls, f, k),
            rest_then(xs, i + 1, tail, nulls, f, k),
            k,
            sigma,
            len,
        );
    }
}

/// The full table has all that an expression lets follow.
proof fn lemma_full_closed(
    e: ExprView,
    tail: Set<NameSeq>,
    nulls: Nulls,
    f: Firsts,
    k: nat,
    keys: Set<Seq<char>>,
    sigma: Set<Seq<char>>,
    len: nat,
)
    requires
        k <= len,
        follow::bounded(f, sigma, len),
        tail.subset_of(universe::all_seqs(sigma, len)),
        follow::names_known(e, keys, sigma),
    ensures
        follow_k_closed(
            e,
            tail,
            nulls,
            f,
            follow::full(keys, universe::all_seqs(sigma, len)),
            k,
        ),
    decreases e,
{
    let fo = follow::full(keys, universe::all_seqs(sigma, len));
    match e {
        ExprView::Empty => {},
        ExprView::Token(_) => {},
        ExprView::Rule(n) => {
            assert(follow::rule_refs(e)[0] == n);
            assert(follow::rule_refs(e).contains(n));
        },
        ExprView::Concat(xs) => {
            follow::lemma_known_parts(e, xs, keys, sigma);
            assert forall|i: int| 0 <= i < xs.len() implies follow_k_closed(
                #[trigger] xs[i],
                rest_then(xs, i + 1, tail, nulls, f, k),
                nulls,
                f,
                fo,
                k,
            ) by {
                lemma_rest_bounded(xs, i + 1, tail, nulls, f, k, keys, sigma, len);
                lemma_full_closed(
                    xs[i],
                    rest_then(xs, i + 1, tail, nulls, f, k),
                    nulls,
                    f,
                    k,
                    keys,
                    sigma,
                    len,
                );
            }
        },
        ExprView::Alt(xs) => {
            follow::lemma_known_parts(e, xs, keys, sigma);
            assert forall|i: int| 0 <= i < xs.len() implies follow_k_closed(
                #[trigger] xs[i],
                tail,
                nulls,
                f,
                fo,
                k,
            ) by {
                lemma_full_closed(xs[i], tail, nulls, f, k, keys, sigma, len);
            }
        },
        ExprView::Opt(x) => {
            follow::lemma_known_inner(e, *x, keys, sigma);
            lemma_full_closed(*x, tail, nulls, f, k, keys, sigma, len);
        },
        ExprView::Label(_, x) => {
            follow::lemma_known_inner(e, *x, keys, sigma);
            lemma_full_closed(*x, tail, nulls, f, k, keys, sigma, len);
        },
        ExprView::Star(x) => {
            follow::lemma_known_inner(e, *x, keys, sigma);
            lemma_loop_bounded(*x, tail, nulls, f, k, keys, sigma, len);
            lemma_full_closed(
                *x,
                loop_tail(*x, tail, nulls, f, k),
                nulls,
                f,
                k,
                keys,
                sigma,
                len,
            );
        },
        ExprView::Plus(x) => {
            follow::lemma_known_inner(e, *x, keys, sigma);
            lemma_loop_bounded(*x, tail, nulls, f, k, keys, sigma, len);
            lemma_full_closed(
                *x,
                loop_tail(*x, tail, nulls, f, k),
                nulls,
                f,
                k,
                keys,
                sigma,
                len,
            );
        },
    }
}

proof fn lemma_loop_bounded(
    x: ExprView,
    tail: Set<NameSeq>,
    nulls: Nulls,
    f: Firsts,
    k: nat,
    keys: Set<Seq<char>>,
    sigma: Set<Seq<char>>,
    len: nat,
)
    requires
        k <= len,
        follow::bounded(f, sigma, len),
        tail.subset_of(universe::all_seqs(sigma, len)),
        follow::names_known(x, keys, sigma),
    ensures
        loop_tail(x, tail, nulls, f, k).subset_of(universe::all_seqs(sigma, len)),
{
    let a = first_follow::first_expr(x, nulls, f, k);
    first_follow::lemma_first_bounded(x, nulls, f, k, sigma, len);
    first_follow::lemma_star_bounded(a, k, sigma, len);
    first_follow::lemma_concat_bounded(first_set::star_k_of(a, k), tail, k, sigma, len);
}

/// Every table closed under the one expression contains `fo1` if it contains
/// `fo0`.
spec fn forced(
    e: ExprView,
    tail: Set<NameSeq>,
    nulls: Nulls,
    f: Firsts,
    k: nat,
    fo0: Firsts,
    fo1: Firsts,
) -> bool {
    forall|fo2: Firsts| #[trigger]
        follow_k_closed(e, tail, nulls, f, fo2, k) && first_follow::tables_le(fo0, fo2)
            ==> first_follow::tables_le(fo1, fo2)
}

/// Adds to `follow` what `e`, with `tail` after it, lets follow; true if
/// something was not there.
fn walk_follow_k(
    e: &Expr,
    tail: &FirstSet,
    nullable: &NullTable,
    first: &FirstTable,
    follow: &mut FirstTable,
    k: usize,
) -> (changed: bool)
    requires
        nullable.wf(),
        first_follow::table_wf(*first),
        first_follow::table_wf(*old(follow)),
        tail.wf(),
    ensures
        first_follow::table_wf(*final(follow)),
        follow::grown(
            first_follow::firsts(*old(follow)),
            first_follow::firsts(*final(follow)),
            changed,
        ),
        !changed ==> follow_k_closed(
            e@,
            tail@,
            nullable@,
            first_follow::firsts(*first),
            first_follow::firsts(*final(follow)),
            k as nat,
        ),
        forced(
            e@,
            tail@,
            nullable@,
            first_follow::firsts(*first),
            k as nat,
            first_follow::firsts(*old(follow)),
            first_follow::firsts(*final(follow)),
        ),
    decreases e,
{
    let ghost fo0 = first_follow::firsts(*follow);
    let ghost nv = nullable@;
    let ghost fv = first_follow::firsts(*first);
    match e {
        Expr::Empty => false,
        Expr::Token(_) => false,
        Expr::Rule(n) => {
            let changed = follow::add_to(follow, n.as_str(), tail);
            proof {
                let fo1 = first_follow::firsts(*follow);
                assert forall|fo2: Firsts| #[trigger]
                    follow_k_closed(e@, tail@, nv, fv, fo2, k as nat) && first_follow::tables_le(
                        fo0,
                        fo2,
                    ) implies first_follow::tables_le(fo1, fo2) by {
                    follow::lemma_add_set_le(fo0, fo1, fo2, n@, tail@);
                }
            }
            changed
        },
        Expr::Concat(xs) => walk_follow_k_concat(xs, tail, nullable, first, follow, k),
        Expr::Alt(xs) => walk_follow_k_alt(xs, tail, nullable, first, follow, k),
        Expr::Opt(x) => {
            let changed = walk_follow_k(x, tail, nullable, first, follow, k);
            proof {
                let fo1 = first_follow::firsts(*follow);
                lemma_forced_inner(e@, tail@, x@, tail@, nv, fv, k as nat, fo0, fo1);
            }
            changed
        },
        Expr::Label(_, x) => {
            let changed = walk_follow_k(x, tail, nullable, first, follow, k);
            proof {
                let fo1 = first_follow::firsts(*follow);
                lemma_forced_inner(e@, tail@, x@, tail@, nv, fv, k as nat, fo0, fo1);
            }
            changed
        },
        Expr::Star(x) => {
            let fx = first_follow::first_of(x, nullable, first, k);
            let body_tail = first_set::concat_k(&first_set::star_k(&fx, k), tail, k);
            let changed = walk_follow_k(x, &body_tail, nullable, first, follow, k);
            proof {
                let fo1 = first_follow::firsts(*follow);
                lemma_forced_inner(e@, tail@, x@, body_tail@, nv, fv, k as nat, fo0, fo1);
            }
            changed
        },
        Expr::Plus(x) => {
            let fx = first_follow::first_of(x, nullable, first, k);
            let body_tail = first_set::concat_k(&first_set::star_k(&fx, k), tail, k);
            let changed = walk_follow_k(x, &body_tail, nullable, first, follow, k);
            proof {
                let fo1 = first_follow::firsts(*follow);
                lemma_forced_inner(e@, tail@, x@, body_tail@, nv, fv, k as nat, fo0, fo1);
            }
            changed
        },
    }
}

proof fn lemma_forced_inner(
    e: ExprView,
    tail: Set<NameSeq>,
    x: ExprView,
    inner_tail: Set<NameSeq>,
    nulls: Nulls,
    f: Firsts,
    k: nat,
    fo0: Firsts,
    fo1: Firsts,
)
    requires
        forced(x, inner_tail, nulls, f, k, fo0, fo1),
        match e {
            ExprView::Opt(y) => *y == x && inner_tail == tail,
            ExprView::Label(_, y) => *y == x && inner_tail == tail,
            ExprView::Star(y) => *y == x && inner_tail == loop_tail(x, tail, nulls, f, k),
            ExprView::Plus(y) => *y == x && inner_tail == loop_tail(x, tail, nulls, f, k),
            _ => false,
        },
    ensures
        forced(e, tail, nulls, f, k, fo0, fo1),
{
    assert forall|fo2: Firsts| #[trigger]
        follow_k_closed(e, tail, nulls, f, fo2, k) && first_follow::tables_le(
            fo0,
            fo2,
        ) implies first_follow::tables_le(fo1, fo2) by {
        assert(follow_k_closed(x, inner_tail, nulls, f, fo2, k));
    }
}

fn walk_follow_k_alt(
    xs: &Vec<Expr>,
    tail: &FirstSet,
    nullable: &NullTable,
    first: &FirstTable,
    follow: &mut FirstTable,
    k: usize,
) -> (changed: bool)
    requires
        nullable.wf(),
        first_follow::table_wf(*first),
        first_follow::table_wf(*old(follow)),
        tail.wf(),
    ensures
        first_follow::table_wf(*final(follow)),
        follow::grown(
            first_follow::firsts(*old(follow)),
            first_follow::firsts(*final(follow)),
            changed,
        ),
        !changed ==> follow_k_closed(
            ExprView::Alt(ir::exprs_view(xs@)),
            tail@,
            nullable@,
            first_follow::firsts(*first),
            first_follow::firsts(*final(follow)),
            k as nat,
        ),
        forced(
            ExprView::Alt(ir::exprs_view(xs@)),
            tail@,
            nullable@,
            first_follow::firsts(*first),
            k as nat,
            first_follow::firsts(*old(follow)),
            first_follow::firsts(*final(follow)),
        ),
    decreases xs,
{
    let ghost views = ir::exprs_view(xs@);
    let ghost whole = ExprView::Alt(views);
    let ghost nv = nullable@;
    let ghost fv = first_follow::firsts(*first);
    let ghost fo0 = first_follow::firsts(*follow);
    let ghost kk = k as nat;
    proof {
        assert(whole->Alt_0 == views);
    }
    let mut changed = false;
    let mut i: usize = 0;
    while i < xs.len()
        invariant
            i <= xs@.len(),
            nullable.wf(),
            first_follow::table_wf(*first),
            first_follow::table_wf(*follow),
            tail.wf(),
            views == ir::exprs_view(xs@),
            whole == ExprView::Alt(views),
            whole->Alt_0 == views,
            nv == nullable@,
            fv == first_follow::firsts(*first),
            kk == k,
            follow::grown(fo0, first_follow::firsts(*follow), changed),
            !changed ==> forall|j: int|
                0 <= j < i ==> follow_k_closed(#[trigger] views[j], tail@, nv, fv, fo0, kk),
            forced(whole, tail@, nv, fv, kk, fo0, first_follow::firsts(*follow)),
        decreases xs@.len() - i,
    {
        let ghost fo1 = first_follow::firsts(*follow);
        let ghost c1 = changed;
        let c = walk_follow_k(&xs[i], tail, nullable, first, follow, k);
        proof {
            let fo3 = first_follow::firsts(*follow);
            follow::lemma_grown_trans(fo0, fo1, fo3, c1, c);
            assert(views[i as int] == xs@[i as int]@);
            assert forall|fo2: Firsts| #[trigger]
                follow_k_closed(whole, tail@, nv, fv, fo2, kk) && first_follow::tables_le(
                    fo0,
                    fo2,
                ) implies first_follow::tables_le(fo3, fo2) by {
                assert(first_follow::tables_le(fo1, fo2));
                assert(follow_k_closed(views[i as int], tail@, nv, fv, fo2, kk));
            }
        }
        changed = changed || c;
        i += 1;
    }
    changed
}

proof fn lemma_forced_item(
    xs: Seq<ExprView>,
    i: int,
    tail: Set<NameSeq>,
    nulls: Nulls,
    f: Firsts,
    k: nat,
    fo0: Firsts,
    fo1: Firsts,
    fo3: Firsts,
)
    requires
        0 <= i < xs.len(),
        forced(ExprView::Concat(xs), tail, nulls, f, k, fo0, fo1),
        forced(xs[i], rest_then(xs, i + 1, tail, nulls, f, k), nulls, f, k, fo1, fo3),
    ensures
        forced(ExprView::Concat(xs), tail, nulls, f, k, fo0, fo3),
{
    let whole = ExprView::Concat(xs);
    assert(whole->Concat_0 == xs);
    assert forall|fo2: Firsts| #[trigger]
        follow_k_closed(whole, tail, nulls, f, fo2, k) && first_follow::tables_le(
            fo0,
            fo2,
        ) implies first_follow::tables_le(fo3, fo2) by {
        assert(first_follow::tables_le(fo1, fo2));
        let rest = rest_then(xs, i + 1, tail, nulls, f, k);
        assert(follow_k_closed(xs[i], rest, nulls, f, fo2, k));
    }
}

fn walk_follow_k_concat(
    xs: &Vec<Expr>,
    tail: &FirstSet,
    nullable: &NullTable,
    first: &FirstTable,
    follow: &mut FirstTable,
    k: usize,
) -> (changed: bool)
    requires
        nullable.wf(),
        first_follow::table_wf(*first),
        first_follow::table_wf(*old(follow)),
        tail.wf(),
    ensures
        first_follow::table_wf(*final(follow)),
        follow::grown(
            first_follow::firsts(*old(follow)),
            first_follow::firsts(*final(follow)),
            changed,
        ),
        !changed ==> follow_k_closed(
            ExprView::Concat(ir::exprs_view(xs@)),
            tail@,
            nullable@,
            first_follow::firsts(*first),
            first_follow::firsts(*final(follow)),
            k as nat,
        ),
        forced(
            ExprView::Concat(ir::exprs_view(xs@)),
            tail@,
            nullable@,
            first_follow::firsts(*first),
            k as nat,
            first_follow::firsts(*old(follow)),
            first_follow::firsts(*final(follow)),
        ),
    decreases xs,
{
    let ghost views = ir::exprs_view(xs@);
    let ghost whole = ExprView::Concat(views);
    let ghost nv = nullable@;
    let ghost fv = first_follow::firsts(*first);
    let ghost fo0 = first_follow::firsts(*follow);
    let ghost kk = k as nat;
    proof {
        assert(whole->Concat_0 == views);
    }
    let mut changed = false;
    let mut rest = tail.clone();
    let mut i: usize = xs.len();
    while i > 0
        invariant
            i <= xs@.len(),
            nullable.wf(),
            first_follow::table_wf(*first),
            first_follow::table_wf(*follow),
            rest.wf(),
            views == ir::exprs_view(xs@),
            whole == ExprView::Concat(views),
            whole->Concat_0 == views,
            nv == nullable@,
            fv == first_follow::firsts(*first),
            kk == k,
            rest@ == rest_then(views, i as int, tail@, nv, fv, kk),
            follow::grown(fo0, first_follow::firsts(*follow), changed),
            !changed ==> forall|j: int|
                i <= j < views.len() ==> follow_k_closed(
                    #[trigger] views[j],
                    rest_then(views, j + 1, tail@, nv, fv, kk),
                    nv,
                    fv,
                    fo0,
                    kk,
                ),
            forced(whole, tail@, nv, fv, kk, fo0, first_follow::firsts(*follow)),
        decreases i,
    {
        let ghost fo1 = first_follow::firsts(*follow);
        let ghost c1 = changed;
        let ghost r1 = rest@;
        i -= 1;
        let c = walk_follow_k(&xs[i], &rest, nullable, first, follow, k);
        let fx = first_follow::first_of(&xs[i], nullable, first, k);
        rest = first_set::concat_k(&fx, &rest, k);
        proof {
            let fo3 = first_follow::firsts(*follow);
            follow::lemma_grown_trans(fo0, fo1, fo3, c1, c);
            assert(views[i as int] == xs@[i as int]@);
            assert(r1 == rest_then(views, i + 1, tail@, nv, fv, kk));
            lemma_forced_item(views, i as int, tail@, nv, fv, kk, fo0, fo1, fo3);
        }
        changed = changed || c;
    }
    changed
}

/// What holds throughout the saturation of FOLLOW(k).
spec fn follow_inv(rules: Seq<RuleView>, k: nat, nulls: Nulls, f: Firsts, fo: Firsts) -> bool {
    &&& forall|i: int|
        0 <= i < rules.len() ==> follow::only_eof().subset_of(
            first_follow::set_at(fo, (#[trigger] rules[i]).name),
        )
    &&& forall|fo2: Firsts| #[trigger]
        follow_k_holds(rules, k, nulls, f, fo2) ==> first_follow::tables_le(fo, fo2)
}

/// The full table has all that may follow.
pub proof fn lemma_full_holds(
    rules: Seq<RuleView>,
    k: nat,
    nulls: Nulls,
    f: Firsts,
    sigma: Set<Seq<char>>,
    len: nat,
)
    requires
        1 <= len,
        k <= len,
        sigma == follow::follow_alphabet(rules, f),
        follow::bounded(f, sigma, len),
    ensures
        follow_k_holds(
            rules,
            k,
            nulls,
            f,
            follow::full(follow::all_keys(rules), universe::all_seqs(sigma, len)),
        ),
{
    let keys = follow::all_keys(rules);
    let u = universe::all_seqs(sigma, len);
    let fo = follow::full(keys, u);
    follow::lemma_all_keys(rules);
    assert forall|i: int| 0 <= i < rules.len() implies follow::only_eof().subset_of(
        first_follow::set_at(fo, (#[trigger] rules[i]).name),
    ) && follow_k_closed(
        rules[i].body,
        first_follow::set_at(fo, rules[i].name),
        nulls,
        f,
        fo,
        k,
    ) by {
        assert forall|n: Seq<char>| first_follow::mentions(
            rules[i].body,
            n,
        ) implies #[trigger] sigma.contains(n) by {
            assert(first_follow::rules_alphabet(rules).contains(n));
        }
        assert(follow::names_known(rules[i].body, keys, sigma));
        lemma_full_closed(rules[i].body, u, nulls, f, k, keys, sigma, len);
        assert forall|s: NameSeq| follow::only_eof().contains(s) implies u.contains(s) by {}
    }
}

/// FOLLOW(k) of every rule: sequences of up to `k` tokens that can come after
/// it, the last of them possibly the end of input.
pub fn compute_follow_k(
    g: &Grammar,
    first: &FirstTable,
    nullable: &NullTable,
    k: usize,
) -> (follow: FirstTable)
    requires
        first_follow::table_wf(*first),
        nullable.wf(),
    ensures
        first_follow::table_wf(follow),
        is_follow_k(
            g.rule_list(),
            k as nat,
            nullable@,
            first_follow::firsts(*first),
            first_follow::firsts(follow),
        ),
{
    let rules = g.rule_values();
    let ghost rv = g.rule_list();
    assert(first_follow::rules_view(rules@) =~= rv);
    let ghost kk = k as nat;
    let ghost nv = nullable@;
    let ghost fv = first_follow::firsts(*first);
    let ghost sigma = follow::follow_alphabet(rv, fv);
    let ghost keys = follow::all_keys(rv);
    let ghost mut len: nat = 0;
    proof {
        len = follow::lemma_follow_alphabet(rv, *first, kk);
        follow::lemma_all_keys(rv);
        lemma_full_holds(rv, kk, nv, fv, sigma, len);
    }
    let ghost u = universe::all_seqs(sigma, len);
    let ghost all = universe::all_seqs(sigma.union(keys), len + 1);
    let mut follow = follow::seeded(g);
    proof {
        let fo = first_follow::firsts(follow);
        assert forall|fo2: Firsts| #[trigger]
            follow_k_holds(rv, kk, nv, fv, fo2) implies first_follow::tables_le(fo, fo2) by {
            follow::lemma_seed_le(rv, fo, fo2);
        }
        assert forall|i: int| 0 <= i < rv.len() implies follow::only_eof().subset_of(
            first_follow::set_at(fo, (#[trigger] rv[i]).name),
        ) by {
            assert(first_follow::rule_names(rv).contains(rv[i].name));
        }
    }
    let mut changed = true;
    while changed
        invariant
            rv == first_follow::rules_view(rules@),
            kk == k,
            nv == nullable@,
            fv == first_follow::firsts(*first),
            nullable.wf(),
            first_follow::table_wf(*first),
            first_follow::table_wf(follow),
            keys.finite(),
            sigma.finite(),
            u == universe::all_seqs(sigma, len),
            all == universe::all_seqs(sigma.union(keys), len + 1),
            follow_k_holds(rv, kk, nv, fv, follow::full(keys, u)),
            follow_inv(rv, kk, nv, fv, first_follow::firsts(follow)),
            !changed ==> follow_k_holds(rv, kk, nv, fv, first_follow::firsts(follow)),
        decreases
                all.len() - first_follow::tagged(first_follow::firsts(follow)).len(),
                (if changed {
                    1int
                } else {
                    0int
                }),
    {
        changed = false;
        let ghost fo0 = first_follow::firsts(follow);
        let mut i: usize = 0;
        while i < rules.len()
            invariant
                i <= rules@.len(),
                rv == first_follow::rules_view(rules@),
                kk == k,
                nv == nullable@,
                fv == first_follow::firsts(*first),
                nullable.wf(),
                first_follow::table_wf(*first),
                first_follow::table_wf(follow),
                follow_inv(rv, kk, nv, fv, fo0),
                follow_inv(rv, kk, nv, fv, first_follow::firsts(follow)),
                follow::grown(fo0, first_follow::firsts(follow), changed),
                !changed ==> forall|j: int|
                    0 <= j < i ==> follow_k_closed(
                        (#[trigger] rv[j]).body,
                        first_follow::set_at(fo0, rv[j].name),
                        nv,
                        fv,
                        fo0,
                        kk,
                    ),
            decreases rules@.len() - i,
        {
            let ghost fo1 = first_follow::firsts(follow);
            let ghost c1 = changed;
            let host_follow = follow::set_of(&follow, rules[i].name.as_str());
            let c = walk_follow_k(&rules[i].body, &host_follow, nullable, first, &mut follow, k);
            proof {
                let fo3 = first_follow::firsts(follow);
                let r = rv[i as int];
                assert(r.name == rules@[i as int].name@ && r.body == rules@[i as int].body@);
                follow::lemma_grown_trans(fo0, fo1, fo3, c1, c);
                assert forall|fo2: Firsts| #[trigger]
                    follow_k_holds(rv, kk, nv, fv, fo2) implies first_follow::tables_le(
                    fo3,
                    fo2,
                ) by {
                    assert(first_follow::tables_le(fo1, fo2));
                    let tail2 = first_follow::set_at(fo2, rv[i as int].name);
                    assert(first_follow::set_at(fo1, r.name).subset_of(tail2));
                    assert(follow_k_closed(rv[i as int].body, tail2, nv, fv, fo2, kk));
                    lemma_closed_mono(r.body, host_follow@, tail2, nv, fv, fo2, kk);
                }
                assert forall|j: int| 0 <= j < rv.len() implies follow::only_eof().subset_of(
                    first_follow::set_at(fo3, (#[trigger] rv[j]).name),
                ) by {
                    assert(first_follow::set_at(fo1, rv[j].name).subset_of(
                        first_follow::set_at(fo3, rv[j].name),
                    ));
                }
            }
            changed = changed || c;
            i += 1;
        }
        proof {
            if changed {
                follow::lemma_progress(fo0, first_follow::firsts(follow), keys, u, sigma, len);
            }
        }
    }
    follow
}

} // verus!
