//! Left recursion: which rules can stand first in which, through any number of
//! rules and past whatever can be empty.
use vstd::prelude::*;

use crate::analysis::first_follow;
use crate::analysis::follow;
use crate::grammar::ir::{self, Expr, ExprView, RuleDef, RuleView};
use crate::names::NameSet;

verus! {

/// The expression can derive ε, where `empties` are the rules that can.
pub open spec fn can_be_empty(e: ExprView, empties: Set<Seq<char>>) -> bool
    decreases e,
{
    match e {
        ExprView::Empty => true,
        ExprView::Token(_) => false,
        ExprView::Rule(n) => empties.contains(n),
        ExprView::Concat(xs) => forall|i: int|
            0 <= i < xs.len() ==> can_be_empty(#[trigger] xs[i], empties),
        ExprView::Alt(xs) => exists|i: int|
            0 <= i < xs.len() && can_be_empty(#[trigger] xs[i], empties),
        ExprView::Opt(_) => true,
        ExprView::Star(_) => true,
        ExprView::Plus(x) => can_be_empty(*x, empties),
        ExprView::Label(_, x) => can_be_empty(*x, empties),
    }
}

/// Every rule whose body can derive ε, given that those of `empties` can, is
/// in `empties`.
pub open spec fn empties_closed(rules: Seq<RuleView>, empties: Set<Seq<char>>) -> bool {
    forall|i: int|
        0 <= i < rules.len() && can_be_empty((#[trigger] rules[i]).body, empties)
            ==> empties.contains(rules[i].name)
}

/// The rules that can derive ε: the least closed set of them.
pub open spec fn empty_rules(rules: Seq<RuleView>) -> Set<Seq<char>> {
    Set::new(
        |n: Seq<char>| forall|s: Set<Seq<char>>| #[trigger] empties_closed(rules, s) ==> s.contains(n),
    )
}

/// The rule `n` can stand first in the expression: only what can derive ε
/// stands before it.
pub open spec fn leads_with(e: ExprView, empties: Set<Seq<char>>, n: Seq<char>) -> bool
    decreases e,
{
    match e {
        ExprView::Empty => false,
        ExprView::Token(_) => false,
        ExprView::Rule(m) => m == n,
        ExprView::Concat(xs) => exists|i: int|
            0 <= i < xs.len() && leads_with(#[trigger] xs[i], empties, n) && all_empty_before(
                xs,
                empties,
                i,
            ),
        ExprView::Alt(xs) => exists|i: int|
            0 <= i < xs.len() && leads_with(#[trigger] xs[i], empties, n),
        ExprView::Opt(x) => leads_with(*x, empties, n),
        ExprView::Star(x) => leads_with(*x, empties, n),
        ExprView::Plus(x) => leads_with(*x, empties, n),
        ExprView::Label(_, x) => leads_with(*x, empties, n),
    }
}

/// The expressions before position `i` can all derive ε.
pub open spec fn all_empty_before(xs: Seq<ExprView>, empties: Set<Seq<char>>, i: int) -> bool {
    forall|j: int| 0 <= j < i ==> can_be_empty(#[trigger] xs[j], empties)
}

/// The rules that can stand first in the expression.
pub open spec fn led(e: ExprView, empties: Set<Seq<char>>) -> Set<Seq<char>> {
    Set::new(|n: Seq<char>| leads_with(e, empties, n))
}

/// With a rule, the set has the rules that can stand first in its body.
pub open spec fn leads_closed(
    rules: Seq<RuleView>,
    empties: Set<Seq<char>>,
    s: Set<Seq<char>>,
) -> bool {
    forall|i: int|
        0 <= i < rules.len() && s.contains((#[trigger] rules[i]).name) ==> led(
            rules[i].body,
            empties,
        ).subset_of(s)
}

/// The rules that can stand first in what the expression derives: the least
/// closed set with those that can stand first in the expression itself.
pub open spec fn first_rules(rules: Seq<RuleView>, e: ExprView) -> Set<Seq<char>> {
    let empties = empty_rules(rules);
    Set::new(
        |n: Seq<char>|
            forall|s: Set<Seq<char>>| #[trigger]
                leads_closed(rules, empties, s) && led(e, empties).subset_of(s) ==> s.contains(n),
    )
}

/// The rule can begin with itself.
pub open spec fn left_recursive(rules: Seq<RuleView>, r: RuleView) -> bool {
    first_rules(rules, r.body).contains(r.name)
}

proof fn lemma_empty_mono(e: ExprView, a: Set<Seq<char>>, b: Set<Seq<char>>)
    requires
        a.subset_of(b),
        can_be_empty(e, a),
    ensures
        can_be_empty(e, b),
    decreases e,
{
    match e {
        ExprView::Concat(xs) => {
            assert forall|i: int| 0 <= i < xs.len() implies can_be_empty(#[trigger] xs[i], b) by {
                lemma_empty_mono(xs[i], a, b);
            }
        },
        ExprView::Alt(xs) => {
            let i = choose|i: int| 0 <= i < xs.len() && can_be_empty(#[trigger] xs[i], a);
            lemma_empty_mono(xs[i], a, b);
        },
        ExprView::Plus(x) => lemma_empty_mono(*x, a, b),
        ExprView::Label(_, x) => lemma_empty_mono(*x, a, b),
        _ => {},
    }
}

/// A rule that can stand first in an expression occurs in it.
proof fn lemma_leads_refs(e: ExprView, empties: Set<Seq<char>>, n: Seq<char>)
    requires
        leads_with(e, empties, n),
    ensures
        follow::rule_refs(e).contains(n),
    decreases e,
{
    match e {
        ExprView::Rule(m) => {
            assert(follow::rule_refs(e)[0] == n);
        },
        ExprView::Concat(xs) => {
            let i = choose|i: int|
                0 <= i < xs.len() && leads_with(#[trigger] xs[i], empties, n) && all_empty_before(
                    xs,
                    empties,
                    i,
                );
            lemma_leads_refs(xs[i], empties, n);
            follow::lemma_list_refs(xs, i, n);
        },
        ExprView::Alt(xs) => {
            let i = choose|i: int| 0 <= i < xs.len() && leads_with(#[trigger] xs[i], empties, n);
            lemma_leads_refs(xs[i], empties, n);
            follow::lemma_list_refs(xs, i, n);
        },
        ExprView::Opt(x) => lemma_leads_refs(*x, empties, n),
        ExprView::Star(x) => lemma_leads_refs(*x, empties, n),
        ExprView::Plus(x) => lemma_leads_refs(*x, empties, n),
        ExprView::Label(_, x) => lemma_leads_refs(*x, empties, n),
        _ => {},
    }
}

/// The expression can derive ε.
fn expr_can_be_empty(e: &Expr, empties: &NameSet) -> (r: bool)
    requires
        empties.wf(),
    ensures
        r == can_be_empty(e@, empties@),
    decreases e,
{
    match e {
        Expr::Empty => true,
        Expr::Token(_) => false,
        Expr::Rule(n) => empties.contains(n.as_str()),
        Expr::Concat(xs) => {
            let ghost views = ir::exprs_view(xs@);
            assert(e@->Concat_0 == views);
            let mut i: usize = 0;
            while i < xs.len()
                invariant
                    i <= xs@.len(),
                    empties.wf(),
                    decreases_to!(e => xs),
                    views == ir::exprs_view(xs@),
                    e@ == ExprView::Concat(views),
                    e@->Concat_0 == views,
                    forall|j: int| 0 <= j < i ==> can_be_empty(#[trigger] views[j], empties@),
                decreases xs@.len() - i,
            {
                assert(views[i as int] == xs@[i as int]@);
                if !expr_can_be_empty(&xs[i], empties) {
                    return false;
                }
                i += 1;
            }
            true
        },
        Expr::Alt(xs) => {
            let ghost views = ir::exprs_view(xs@);
            assert(e@->Alt_0 == views);
            let mut i: usize = 0;
            while i < xs.len()
                invariant
                    i <= xs@.len(),
                    empties.wf(),
                    decreases_to!(e => xs),
                    views == ir::exprs_view(xs@),
                    e@ == ExprView::Alt(views),
                    e@->Alt_0 == views,
                    forall|j: int| 0 <= j < i ==> !can_be_empty(#[trigger] views[j], empties@),
                decreases xs@.len() - i,
            {
                assert(views[i as int] == xs@[i as int]@);
                if expr_can_be_empty(&xs[i], empties) {
                    return true;
                }
                i += 1;
            }
            false
        },
        Expr::Opt(_) => true,
        Expr::Star(_) => true,
        Expr::Plus(x) => expr_can_be_empty(x, empties),
        Expr::Label(_, x) => expr_can_be_empty(x, empties),
    }
}

/// Adds the rules that can stand first in the expression; true if one was not
/// there.
fn collect_first_rule_names(e: &Expr, empties: &NameSet, out: &mut NameSet) -> (grew: bool)
    requires
        empties.wf(),
        old(out).wf(),
    ensures
        final(out).wf(),
        final(out)@ == old(out)@.union(led(e@, empties@)),
        grew == (final(out)@ != old(out)@),
    decreases e,
{
    let ghost o0 = out@;
    let grew = match e {
        Expr::Empty => false,
        Expr::Token(_) => false,
        Expr::Rule(n) => {
            let fresh = out.insert(n.as_str());
            assert(fresh ==> out@.contains(n@) && !o0.contains(n@));
            fresh
        },
        Expr::Concat(xs) => {
            assert(e@->Concat_0 == ir::exprs_view(xs@));
            first_rules_in_order(xs, empties, out)
        },
        Expr::Alt(xs) => {
            assert(e@->Alt_0 == ir::exprs_view(xs@));
            first_rules_of_any(xs, empties, out)
        },
        Expr::Opt(x) => collect_first_rule_names(x, empties, out),
        Expr::Star(x) => collect_first_rule_names(x, empties, out),
        Expr::Plus(x) => collect_first_rule_names(x, empties, out),
        Expr::Label(_, x) => collect_first_rule_names(x, empties, out),
    };
    proof {
        assert(out@ =~= o0.union(led(e@, empties@)));
        if !grew {
            assert(out@ =~= o0);
        }
    }
    grew
}

/// A set that grew twice grew iff it did either time.
proof fn lemma_grew(a: Set<Seq<char>>, b: Set<Seq<char>>, c: Set<Seq<char>>)
    requires
        a.subset_of(b),
        b.subset_of(c),
    ensures
        c != a <==> b != a || c != b,
{
    if c == a {
        assert(b =~= a);
    }
}

fn first_rules_of_any(xs: &Vec<Expr>, empties: &NameSet, out: &mut NameSet) -> (grew: bool)
    requires
        empties.wf(),
        old(out).wf(),
    ensures
        final(out).wf(),
        final(out)@ == old(out)@.union(led(ExprView::Alt(ir::exprs_view(xs@)), empties@)),
        grew == (final(out)@ != old(out)@),
    decreases xs,
{
    let ghost views = ir::exprs_view(xs@);
    let ghost o0 = out@;
    let mut grew = false;
    let mut i: usize = 0;
    while i < xs.len()
        invariant
            i <= xs@.len(),
            views == ir::exprs_view(xs@),
            empties.wf(),
            out.wf(),
            o0.subset_of(out@),
            grew == (out@ != o0),
            forall|n: Seq<char>| #[trigger]
                out@.contains(n) <==> o0.contains(n) || exists|j: int|
                    0 <= j < i && leads_with(#[trigger] views[j], empties@, n),
        decreases xs@.len() - i,
    {
        let ghost before = out@;
        let c = collect_first_rule_names(&xs[i], empties, out);
        grew = grew || c;
        proof {
            lemma_grew(o0, before, out@);
            assert(views[i as int] == xs@[i as int]@);
            assert forall|n: Seq<char>| #[trigger] out@.contains(n) <==> o0.contains(n)
                || exists|j: int|
                0 <= j < i + 1 && leads_with(#[trigger] views[j], empties@, n) by {
                assert(before.contains(n) <==> o0.contains(n) || exists|j: int|
                    0 <= j < i && leads_with(#[trigger] views[j], empties@, n));
                if exists|j: int| 0 <= j < i + 1 && leads_with(#[trigger] views[j], empties@, n) {
                    let j = choose|j: int|
                        0 <= j < i + 1 && leads_with(#[trigger] views[j], empties@, n);
                    if j < i {
                        assert(before.contains(n));
                    }
                }
            }
        }
        i += 1;
    }
    proof {
        let p = ExprView::Alt(views);
        assert(p->Alt_0 == views);
        assert(out@ =~= o0.union(led(p, empties@)));
    }
    grew
}

fn first_rules_in_order(xs: &Vec<Expr>, empties: &NameSet, out: &mut NameSet) -> (grew: bool)
    requires
        empties.wf(),
        old(out).wf(),
    ensures
        final(out).wf(),
        final(out)@ == old(out)@.union(led(ExprView::Concat(ir::exprs_view(xs@)), empties@)),
        grew == (final(out)@ != old(out)@),
    decreases xs,
{
    let ghost views = ir::exprs_view(xs@);
    let ghost ev = empties@;
    let ghost o0 = out@;
    let mut grew = false;
    let mut i: usize = 0;
    let mut open = true;
    while open && i < xs.len()
        invariant
            i <= xs@.len(),
            views == ir::exprs_view(xs@),
            ev == empties@,
            empties.wf(),
            out.wf(),
            o0.subset_of(out@),
            grew == (out@ != o0),
            open ==> all_empty_before(views, ev, i as int),
            !open ==> i > 0 && !can_be_empty(views[i - 1], ev),
            forall|n: Seq<char>| #[trigger]
                out@.contains(n) <==> o0.contains(n) || exists|j: int|
                    0 <= j < i && leads_with(#[trigger] views[j], ev, n) && all_empty_before(
                        views,
                        ev,
                        j,
                    ),
        decreases xs@.len() - i,
    {
        let ghost before = out@;
        let c = collect_first_rule_names(&xs[i], empties, out);
        grew = grew || c;
        proof {
            lemma_grew(o0, before, out@);
            assert(views[i as int] == xs@[i as int]@);
            assert forall|n: Seq<char>| #[trigger] out@.contains(n) <==> o0.contains(n)
                || exists|j: int|
                0 <= j < i + 1 && leads_with(#[trigger] views[j], ev, n) && all_empty_before(
                    views,
                    ev,
                    j,
                ) by {
                assert(before.contains(n) <==> o0.contains(n) || exists|j: int|
                    0 <= j < i && leads_with(#[trigger] views[j], ev, n) && all_empty_before(
                        views,
                        ev,
                        j,
                    ));
                if exists|j: int|
                    0 <= j < i + 1 && leads_with(#[trigger] views[j], ev, n) && all_empty_before(
                        views,
                        ev,
                        j,
                    ) {
                    let j = choose|j: int|
                        0 <= j < i + 1 && leads_with(#[trigger] views[j], ev, n)
                            && all_empty_before(views, ev, j);
                    if j < i {
                        assert(before.contains(n));
                    }
                }
            }
        }
        if !expr_can_be_empty(&xs[i], empties) {
            open = false;
        }
        i += 1;
    }
    proof {
        let p = ExprView::Concat(views);
        assert(p->Concat_0 == views);
        assert forall|n: Seq<char>| #[trigger] out@.contains(n) <==> o0.contains(n) || leads_with(
            p,
            ev,
            n,
        ) by {
            if leads_with(p, ev, n) {
                let j = choose|j: int|
                    0 <= j < views.len() && leads_with(#[trigger] views[j], ev, n)
                        && all_empty_before(views, ev, j);
                if j >= i {
                    assert(!open);
                    assert(can_be_empty(views[i - 1], ev));
                }
            }
        }
        assert(out@ =~= o0.union(led(p, ev)));
    }
    grew
}

/// The rules that can derive ε.
pub(crate) fn empties_of(rules: &Vec<&RuleDef>, Ghost(rv): Ghost<Seq<RuleView>>) -> (r: NameSet)
    requires
        rules@.len() == rv.len(),
        forall|k: int| 0 <= k < rv.len() ==> (#[trigger] rules@[k])@ == rv[k],
    ensures
        r.wf(),
        r@ == empty_rules(rv),
{
    let ghost all = first_follow::rule_names(rv);
    proof {
        first_follow::lemma_rule_names_finite(rv);
    }
    let mut out = NameSet::new();
    let mut changed = true;
    while changed
        invariant
            rules@.len() == rv.len(),
            forall|k: int| 0 <= k < rv.len() ==> (#[trigger] rules@[k])@ == rv[k],
            all == first_follow::rule_names(rv),
            all.finite(),
            out.wf(),
            out@.subset_of(all),
            forall|s: Set<Seq<char>>| #[trigger] empties_closed(rv, s) ==> out@.subset_of(s),
            !changed ==> empties_closed(rv, out@),
        decreases
                all.difference(out@).len(),
                (if changed {
                    1int
                } else {
                    0int
                }),
    {
        changed = false;
        let ghost o0 = out@;
        let mut i: usize = 0;
        while i < rules.len()
            invariant
                i <= rules@.len(),
                rules@.len() == rv.len(),
                forall|k: int| 0 <= k < rv.len() ==> (#[trigger] rules@[k])@ == rv[k],
                all == first_follow::rule_names(rv),
                all.finite(),
                out.wf(),
                out@.subset_of(all),
                o0.subset_of(out@),
                forall|s: Set<Seq<char>>| #[trigger] empties_closed(rv, s) ==> out@.subset_of(s),
                changed == (out@ != o0),
                !changed ==> forall|j: int|
                    0 <= j < i && can_be_empty((#[trigger] rv[j]).body, o0) ==> o0.contains(
                        rv[j].name,
                    ),
            decreases rules@.len() - i,
        {
            let r = rules[i];
            assert(r@ == rv[i as int]);
            if expr_can_be_empty(&r.body, &out) {
                let ghost before = out@;
                let fresh = out.insert(r.name.as_str());
                changed = changed || fresh;
                proof {
                    assert(all.contains(rv[i as int].name));
                    if fresh {
                        assert(out@.contains(r.name@) && !before.contains(r.name@));
                    } else {
                        assert(out@ =~= before);
                    }
                    lemma_grew(o0, before, out@);
                    assert forall|s: Set<Seq<char>>| #[trigger]
                        empties_closed(rv, s) implies out@.subset_of(s) by {
                        assert(before.subset_of(s));
                        lemma_empty_mono(r@.body, before, s);
                        assert(s.contains(rv[i as int].name));
                    }
                }
            }
            i += 1;
        }
        proof {
            if changed {
                lemma_less_left(all, o0, out@);
            }
        }
    }
    proof {
        assert forall|n: Seq<char>| out@.contains(n) <==> empty_rules(rv).contains(n) by {
            if empty_rules(rv).contains(n) {
                assert(empties_closed(rv, out@));
            }
        }
        assert(out@ =~= empty_rules(rv));
    }
    out
}

/// The more is found of a finite set, the less is left of it.
proof fn lemma_less_left(all: Set<Seq<char>>, a: Set<Seq<char>>, b: Set<Seq<char>>)
    requires
        all.finite(),
        a.subset_of(b),
        b.subset_of(all),
        a != b,
    ensures
        all.difference(b).len() < all.difference(a).len(),
{
    let x = choose|x: Seq<char>| b.contains(x) && !a.contains(x);
    if !(b.contains(x) && !a.contains(x)) {
        assert(a =~= b);
    }
    let less = all.difference(a).remove(x);
    assert(all.difference(b).subset_of(less));
    vstd::set_lib::lemma_len_subset(all.difference(b), less);
}

/// The rules that can stand first in what the body of `r` derives.
pub(crate) fn first_rules_of(
    r: &RuleDef,
    rules: &Vec<&RuleDef>,
    empties: &NameSet,
    Ghost(rv): Ghost<Seq<RuleView>>,
) -> (out: NameSet)
    requires
        rules@.len() == rv.len(),
        forall|k: int| 0 <= k < rv.len() ==> (#[trigger] rules@[k])@ == rv[k],
        exists|k: int| 0 <= k < rv.len() && #[trigger] rv[k] == r@,
        empties.wf(),
        empties@ == empty_rules(rv),
    ensures
        out.wf(),
        out@ == first_rules(rv, r@.body),
{
    let ghost all = follow::all_keys(rv);
    let ghost ev = empties@;
    let ghost seed = led(r@.body, ev);
    proof {
        follow::lemma_all_keys(rv);
        let k = choose|k: int| 0 <= k < rv.len() && #[trigger] rv[k] == r@;
        lemma_led_known(rv, k, ev);
    }
    let mut out = NameSet::new();
    collect_first_rule_names(&r.body, empties, &mut out);
    assert(out@ =~= seed);
    let mut changed = true;
    while changed
        invariant
            rules@.len() == rv.len(),
            forall|k: int| 0 <= k < rv.len() ==> (#[trigger] rules@[k])@ == rv[k],
            empties.wf(),
            ev == empties@,
            all == follow::all_keys(rv),
            all.finite(),
            out.wf(),
            seed.subset_of(out@),
            out@.subset_of(all),
            forall|s: Set<Seq<char>>| #[trigger]
                leads_closed(rv, ev, s) && seed.subset_of(s) ==> out@.subset_of(s),
            !changed ==> leads_closed(rv, ev, out@),
        decreases
                all.difference(out@).len(),
                (if changed {
                    1int
                } else {
                    0int
                }),
    {
        changed = false;
        let ghost o0 = out@;
        let mut i: usize = 0;
        while i < rules.len()
            invariant
                i <= rules@.len(),
                rules@.len() == rv.len(),
                forall|k: int| 0 <= k < rv.len() ==> (#[trigger] rules@[k])@ == rv[k],
                empties.wf(),
                ev == empties@,
                all == follow::all_keys(rv),
                all.finite(),
                out.wf(),
                seed.subset_of(out@),
                out@.subset_of(all),
                o0.subset_of(out@),
                forall|s: Set<Seq<char>>| #[trigger]
                    leads_closed(rv, ev, s) && seed.subset_of(s) ==> out@.subset_of(s),
                changed == (out@ != o0),
                !changed ==> forall|j: int|
                    0 <= j < i && o0.contains((#[trigger] rv[j]).name) ==> led(
                        rv[j].body,
                        ev,
                    ).subset_of(o0),
            decreases rules@.len() - i,
        {
            let q = rules[i];
            assert(q@ == rv[i as int]);
            if out.contains(q.name.as_str()) {
                let ghost before = out@;
                let c = collect_first_rule_names(&q.body, empties, &mut out);
                changed = changed || c;
                proof {
                    lemma_led_known(rv, i as int, ev);
                    lemma_grew(o0, before, out@);
                    assert forall|s: Set<Seq<char>>| #[trigger]
                        leads_closed(rv, ev, s) && seed.subset_of(s) implies out@.subset_of(s) by {
                        assert(before.subset_of(s));
                        assert(s.contains(rv[i as int].name));
                    }
                }
            }
            i += 1;
        }
        proof {
            if changed {
                lemma_less_left(all, o0, out@);
            }
        }
    }
    proof {
        assert forall|n: Seq<char>| out@.contains(n) <==> first_rules(rv, r@.body).contains(
            n,
        ) by {
            if first_rules(rv, r@.body).contains(n) {
                assert(leads_closed(rv, ev, out@) && seed.subset_of(out@));
            }
        }
        assert(out@ =~= first_rules(rv, r@.body));
    }
    out
}

/// What can stand first in the body of a rule is among the names in use.
proof fn lemma_led_known(rules: Seq<RuleView>, i: int, empties: Set<Seq<char>>)
    requires
        0 <= i < rules.len(),
    ensures
        led(rules[i].body, empties).subset_of(follow::all_keys(rules)),
{
    follow::lemma_all_keys(rules);
    assert forall|n: Seq<char>| led(rules[i].body, empties).contains(
        n,
    ) implies follow::all_keys(rules).contains(n) by {
        lemma_leads_refs(rules[i].body, empties, n);
    }
}

} // verus!
