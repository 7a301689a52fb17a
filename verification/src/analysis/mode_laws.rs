//! What the check of lexer modes says.
use vstd::prelude::*;

use crate::analysis::first_follow::{self, Firsts};
use crate::analysis::first_set::NameSeq;
use crate::analysis::mode_check;
use crate::analysis::ref_laws;
use crate::diagnostic::{self, DiagnosticView, Severity};
use crate::grammar::ir::{self, ExprView, ModeActionView, RuleView, TokenView};

verus! {

/// The mode can be on top behind the token: it was before, or the token pushes
/// it.
pub open spec fn token_leaves(
    defs: Seq<(Seq<char>, TokenView)>,
    n: Seq<char>,
    m: Set<NameSeq>,
    s: NameSeq,
) -> bool {
    ||| m.contains(s)
    ||| s.len() == 1 && ir::lookup(defs, n) is Some && exists|i: int|
        0 <= i < ir::lookup(defs, n)->0.mode_actions.len() && (#[trigger] ir::lookup(
            defs,
            n,
        )->0.mode_actions[i]) == ModeActionView::Push(s[0])
}

/// The modes that can be on top behind the expression.
pub open spec fn leaves(
    e: ExprView,
    m: Set<NameSeq>,
    defs: Seq<(Seq<char>, TokenView)>,
) -> Set<NameSeq>
    decreases e, 0nat,
{
    match e {
        ExprView::Empty => m,
        ExprView::Token(n) => Set::new(|s: NameSeq| token_leaves(defs, n, m, s)),
        ExprView::Rule(_) => m,
        ExprView::Concat(xs) => leaves_all(xs, m, defs, xs.len()),
        ExprView::Alt(xs) => Set::new(
            |s: NameSeq|
                exists|i: int| 0 <= i < xs.len() && leaves(#[trigger] xs[i], m, defs).contains(s),
        ),
        ExprView::Opt(x) => Set::new(|s: NameSeq| m.contains(s) || leaves(*x, m, defs).contains(s)),
        ExprView::Star(x) => Set::new(
            |s: NameSeq| m.contains(s) || leaves(*x, m, defs).contains(s),
        ),
        ExprView::Plus(x) => Set::new(
            |s: NameSeq| m.contains(s) || leaves(*x, m, defs).contains(s),
        ),
        ExprView::Label(_, x) => leaves(*x, m, defs),
    }
}

/// The modes that can be on top behind the first `n` expressions.
pub open spec fn leaves_all(
    xs: Seq<ExprView>,
    m: Set<NameSeq>,
    defs: Seq<(Seq<char>, TokenView)>,
    n: nat,
) -> Set<NameSeq>
    decreases xs, n,
{
    if n == 0 || n > xs.len() {
        m
    } else {
        leaves(xs[n - 1], leaves_all(xs, m, defs, (n - 1) as nat), defs)
    }
}

/// In `e` stands `x`, and the modes of `w` can be on top there, where those of
/// `m` can be before `e`.
pub open spec fn stands(
    e: ExprView,
    m: Set<NameSeq>,
    defs: Seq<(Seq<char>, TokenView)>,
    x: ExprView,
    w: Set<NameSeq>,
) -> bool
    decreases e,
{
    match e {
        ExprView::Empty => false,
        ExprView::Token(_) => e == x && w == m,
        ExprView::Rule(_) => e == x && w == m,
        ExprView::Concat(xs) => exists|i: int|
            0 <= i < xs.len() && stands(
                #[trigger] xs[i],
                leaves_all(xs, m, defs, i as nat),
                defs,
                x,
                w,
            ),
        ExprView::Alt(xs) => exists|i: int|
            0 <= i < xs.len() && stands(#[trigger] xs[i], m, defs, x, w),
        ExprView::Opt(y) => stands(*y, m, defs, x, w),
        ExprView::Star(y) => stands(*y, m, defs, x, w),
        ExprView::Plus(y) => stands(*y, m, defs, x, w),
        ExprView::Label(_, y) => stands(*y, m, defs, x, w),
    }
}

proof fn lemma_pushes(actions: Seq<ModeActionView>, n: Seq<char>)
    ensures
        mode_check::pushes(actions).contains(n) <==> exists|i: int|
            0 <= i < actions.len() && (#[trigger] actions[i]) == ModeActionView::Push(n),
    decreases actions.len(),
{
    if actions.len() > 0 {
        let p = actions.drop_last();
        let before = mode_check::pushes(p);
        lemma_pushes(p, n);
        assert forall|i: int| 0 <= i < p.len() implies #[trigger] p[i] == actions[i] by {}
        match actions.last() {
            ModeActionView::Push(x) => {
                ref_laws::lemma_both(before, seq![x], n);
                assert(before.push(x) =~= before + seq![x]);
                assert(seq![x].contains(n) <==> x == n) by {
                    assert(seq![x][0] == x);
                }
            },
            ModeActionView::Pop => {},
        }
        assert(actions[actions.len() - 1] == actions.last());
        if exists|i: int| 0 <= i < p.len() && (#[trigger] p[i]) == ModeActionView::Push(n) {
            let i = choose|i: int| 0 <= i < p.len() && (#[trigger] p[i]) == ModeActionView::Push(n);
            assert(actions[i] == ModeActionView::Push(n));
        }
        if exists|i: int|
            0 <= i < actions.len() && (#[trigger] actions[i]) == ModeActionView::Push(n) {
            let i = choose|i: int|
                0 <= i < actions.len() && (#[trigger] actions[i]) == ModeActionView::Push(n);
            if i < p.len() {
                assert(p[i] == ModeActionView::Push(n));
            }
        }
    }
}

proof fn lemma_leaves(e: ExprView, m: Set<NameSeq>, defs: Seq<(Seq<char>, TokenView)>)
    ensures
        mode_check::after(e, m, defs) == leaves(e, m, defs),
    decreases e, 0nat,
{
    match e {
        ExprView::Token(n) => {
            let a = mode_check::after(e, m, defs);
            let b = leaves(e, m, defs);
            assert forall|s: NameSeq| #[trigger] a.contains(s) <==> b.contains(s) by {
                match ir::lookup(defs, n) {
                    Some(t) => {
                        if s.len() == 1 {
                            lemma_pushes(t.mode_actions, s[0]);
                            assert(token_leaves(defs, n, m, s) <==> m.contains(s)
                                || mode_check::pushes(t.mode_actions).contains(s[0]));
                        }
                    },
                    None => {},
                }
                assert(b.contains(s) <==> token_leaves(defs, n, m, s));
            }
            assert(a =~= b);
        },
        ExprView::Concat(xs) => lemma_leaves_all(xs, m, defs, xs.len()),
        ExprView::Alt(xs) => {
            lemma_leaves_any(xs, m, defs, xs.len());
            let a = mode_check::after_any(xs, m, defs, xs.len());
            let b = leaves(e, m, defs);
            assert forall|s: NameSeq| #[trigger] a.contains(s) <==> b.contains(s) by {
                assert(b.contains(s) <==> exists|i: int|
                    0 <= i < xs.len() && leaves(#[trigger] xs[i], m, defs).contains(s));
            }
            assert(a =~= b);
        },
        ExprView::Opt(x) => {
            lemma_leaves(*x, m, defs);
            assert(mode_check::after(e, m, defs) =~= leaves(e, m, defs));
        },
        ExprView::Star(x) => {
            lemma_leaves(*x, m, defs);
            assert(mode_check::after(e, m, defs) =~= leaves(e, m, defs));
        },
        ExprView::Plus(x) => {
            lemma_leaves(*x, m, defs);
            assert(mode_check::after(e, m, defs) =~= leaves(e, m, defs));
        },
        ExprView::Label(_, x) => lemma_leaves(*x, m, defs),
        _ => {},
    }
}

proof fn lemma_leaves_all(
    xs: Seq<ExprView>,
    m: Set<NameSeq>,
    defs: Seq<(Seq<char>, TokenView)>,
    n: nat,
)
    requires
        n <= xs.len(),
    ensures
        mode_check::after_items(xs, m, defs, n) == leaves_all(xs, m, defs, n),
    decreases xs, n,
{
    if n > 0 {
        lemma_leaves_all(xs, m, defs, (n - 1) as nat);
        lemma_leaves(xs[n - 1], leaves_all(xs, m, defs, (n - 1) as nat), defs);
    }
}

proof fn lemma_leaves_any(
    xs: Seq<ExprView>,
    m: Set<NameSeq>,
    defs: Seq<(Seq<char>, TokenView)>,
    n: nat,
)
    requires
        n <= xs.len(),
    ensures
        forall|s: NameSeq| #[trigger]
            mode_check::after_any(xs, m, defs, n).contains(s) <==> exists|i: int|
                0 <= i < n && leaves(#[trigger] xs[i], m, defs).contains(s),
    decreases xs, n,
{
    if n > 0 {
        let k = (n - 1) as nat;
        lemma_leaves_any(xs, m, defs, k);
        lemma_leaves(xs[n - 1], m, defs);
        assert forall|s: NameSeq| #[trigger]
            mode_check::after_any(xs, m, defs, n).contains(s) <==> exists|i: int|
                0 <= i < n && leaves(#[trigger] xs[i], m, defs).contains(s) by {
            assert(mode_check::after_any(xs, m, defs, n).contains(s) <==> mode_check::after_any(
                xs,
                m,
                defs,
                k,
            ).contains(s) || leaves(xs[n - 1], m, defs).contains(s));
            if mode_check::after_any(xs, m, defs, k).contains(s) {
                let i = choose|i: int|
                    0 <= i < k && leaves(#[trigger] xs[i], m, defs).contains(s);
                assert(0 <= i < n && leaves(xs[i], m, defs).contains(s));
            }
            if exists|i: int| 0 <= i < n && leaves(#[trigger] xs[i], m, defs).contains(s) {
                let i = choose|i: int|
                    0 <= i < n && leaves(#[trigger] xs[i], m, defs).contains(s);
                if i < k {
                    assert(0 <= i < k && leaves(xs[i], m, defs).contains(s));
                }
            }
        }
    }
}

/// The error about a token `n` of the rule `r` where the modes of `w` are on top,
/// none of which it is in.
pub open spec fn mode_report(
    r: RuleView,
    defs: Seq<(Seq<char>, TokenView)>,
    n: Seq<char>,
    w: Set<NameSeq>,
    d: DiagnosticView,
) -> bool {
    &&& ir::lookup(defs, n) is Some
    &&& forall|s: NameSeq|
        s.len() == 1 && ir::lookup(defs, n)->0.modes.contains(s[0]) ==> !#[trigger] w.contains(s)
    &&& d.severity == Severity::Error
    &&& d.span == r.span
    &&& d.message == mode_check::unmatched_text(r, n, ir::lookup(defs, n)->0, w)
}

/// What is reported of an expression: a token that stands in it, where the lexer
/// is in none of its modes. Nothing else is.
pub proof fn law_tokens_out_of_mode_are_reported(
    e: ExprView,
    m: Set<NameSeq>,
    r: RuleView,
    defs: Seq<(Seq<char>, TokenView)>,
    d: DiagnosticView,
)
    ensures
        mode_check::mode_diags(e, m, r, defs).contains(d) <==> exists|
            n: Seq<char>,
            w: Set<NameSeq>,
        | #[trigger]
            stands(e, m, defs, ExprView::Token(n), w) && mode_report(r, defs, n, w, d),
    decreases e, 0nat,
{
    match e {
        ExprView::Token(n) => {
            lemma_token_reported(n, m, r, defs, d);
        },
        ExprView::Concat(xs) => {
            lemma_items_reported(xs, m, r, defs, xs.len(), d);
            if reports(e, m, r, defs, d) {
                let (n, w) = choose|n: Seq<char>, w: Set<NameSeq>| #[trigger]
                    stands(e, m, defs, ExprView::Token(n), w) && mode_report(r, defs, n, w, d);
                let i = choose|i: int|
                    0 <= i < xs.len() && stands(
                        #[trigger] xs[i],
                        leaves_all(xs, m, defs, i as nat),
                        defs,
                        ExprView::Token(n),
                        w,
                    );
                assert(stands(xs[i], leaves_all(xs, m, defs, i as nat), defs, ExprView::Token(n), w)
                    && mode_report(r, defs, n, w, d));
            }
            if exists|i: int, n: Seq<char>, w: Set<NameSeq>|
                0 <= i < xs.len() && #[trigger] stands(
                    xs[i],
                    leaves_all(xs, m, defs, i as nat),
                    defs,
                    ExprView::Token(n),
                    w,
                ) && mode_report(r, defs, n, w, d) {
                let (i, n, w) = choose|i: int, n: Seq<char>, w: Set<NameSeq>|
                    0 <= i < xs.len() && #[trigger] stands(
                        xs[i],
                        leaves_all(xs, m, defs, i as nat),
                        defs,
                        ExprView::Token(n),
                        w,
                    ) && mode_report(r, defs, n, w, d);
                assert(stands(e, m, defs, ExprView::Token(n), w));
            }
        },
        ExprView::Alt(xs) => {
            lemma_any_reported(xs, m, r, defs, xs.len(), d);
            if reports(e, m, r, defs, d) {
                let (n, w) = choose|n: Seq<char>, w: Set<NameSeq>| #[trigger]
                    stands(e, m, defs, ExprView::Token(n), w) && mode_report(r, defs, n, w, d);
                let i = choose|i: int|
                    0 <= i < xs.len() && stands(
                        #[trigger] xs[i],
                        m,
                        defs,
                        ExprView::Token(n),
                        w,
                    );
                assert(stands(xs[i], m, defs, ExprView::Token(n), w)
                    && mode_report(r, defs, n, w, d));
            }
            if exists|i: int, n: Seq<char>, w: Set<NameSeq>|
                0 <= i < xs.len() && #[trigger] stands(
                    xs[i],
                    m,
                    defs,
                    ExprView::Token(n),
                    w,
                ) && mode_report(r, defs, n, w, d) {
                let (i, n, w) = choose|i: int, n: Seq<char>, w: Set<NameSeq>|
                    0 <= i < xs.len() && #[trigger] stands(
                        xs[i],
                        m,
                        defs,
                        ExprView::Token(n),
                        w,
                    ) && mode_report(r, defs, n, w, d);
                assert(stands(e, m, defs, ExprView::Token(n), w));
            }
        },
        ExprView::Opt(x) => lemma_inner_reported(e, *x, m, r, defs, d),
        ExprView::Star(x) => lemma_inner_reported(e, *x, m, r, defs, d),
        ExprView::Plus(x) => lemma_inner_reported(e, *x, m, r, defs, d),
        ExprView::Label(_, x) => lemma_inner_reported(e, *x, m, r, defs, d),
        _ => {},
    }
}

/// The expression has a token that is reported by `d`.
spec fn reports(
    e: ExprView,
    m: Set<NameSeq>,
    r: RuleView,
    defs: Seq<(Seq<char>, TokenView)>,
    d: DiagnosticView,
) -> bool {
    exists|n: Seq<char>, w: Set<NameSeq>| #[trigger]
        stands(e, m, defs, ExprView::Token(n), w) && mode_report(r, defs, n, w, d)
}

proof fn lemma_token_reported(
    n: Seq<char>,
    m: Set<NameSeq>,
    r: RuleView,
    defs: Seq<(Seq<char>, TokenView)>,
    d: DiagnosticView,
)
    ensures
        mode_check::mode_diags(ExprView::Token(n), m, r, defs).contains(d) <==> reports(
            ExprView::Token(n),
            m,
            r,
            defs,
            d,
        ),
{
    let e = ExprView::Token(n);
    let l = mode_check::mode_diags(e, m, r, defs);
    assert(stands(e, m, defs, ExprView::Token(n), m));
    assert(l.contains(d) <==> mode_report(r, defs, n, m, d)) by {
        match ir::lookup(defs, n) {
            Some(t) => {
                let x = diagnostic::error_at(mode_check::unmatched_text(r, n, t, m), r.span);
                assert(seq![x].contains(d) <==> d == x) by {
                    assert(seq![x][0] == x);
                }
                lemma_out_of_reach(t, m);
                assert(l == if mode_check::out_of_reach(t, m) {
                    seq![x]
                } else {
                    Seq::empty()
                });
            },
            None => {
                assert(l == Seq::<DiagnosticView>::empty());
            },
        }
    }
    if reports(e, m, r, defs, d) {
        let (o, w) = choose|o: Seq<char>, w: Set<NameSeq>| #[trigger]
            stands(e, m, defs, ExprView::Token(o), w) && mode_report(r, defs, o, w, d);
        assert(e == ExprView::Token(o) && w == m);
    }
}

proof fn lemma_inner_reported(
    e: ExprView,
    x: ExprView,
    m: Set<NameSeq>,
    r: RuleView,
    defs: Seq<(Seq<char>, TokenView)>,
    d: DiagnosticView,
)
    requires
        match e {
            ExprView::Opt(y) => *y == x,
            ExprView::Star(y) => *y == x,
            ExprView::Plus(y) => *y == x,
            ExprView::Label(_, y) => *y == x,
            _ => false,
        },
    ensures
        mode_check::mode_diags(e, m, r, defs).contains(d) <==> exists|
            n: Seq<char>,
            w: Set<NameSeq>,
        | #[trigger]
            stands(e, m, defs, ExprView::Token(n), w) && mode_report(r, defs, n, w, d),
    decreases x, 1nat,
{
    law_tokens_out_of_mode_are_reported(x, m, r, defs, d);
    assert forall|n: Seq<char>, w: Set<NameSeq>|
        stands(e, m, defs, ExprView::Token(n), w) == stands(
            x,
            m,
            defs,
            ExprView::Token(n),
            w,
        ) by {}
    if exists|n: Seq<char>, w: Set<NameSeq>| #[trigger]
        stands(x, m, defs, ExprView::Token(n), w) && mode_report(r, defs, n, w, d) {
        let (n, w) = choose|n: Seq<char>, w: Set<NameSeq>| #[trigger]
            stands(x, m, defs, ExprView::Token(n), w) && mode_report(r, defs, n, w, d);
        assert(stands(e, m, defs, ExprView::Token(n), w));
    }
}

proof fn lemma_out_of_reach(t: TokenView, m: Set<NameSeq>)
    ensures
        mode_check::out_of_reach(t, m) <==> forall|s: NameSeq|
            s.len() == 1 && t.modes.contains(s[0]) ==> !#[trigger] m.contains(s),
{
    if mode_check::out_of_reach(t, m) {
        assert forall|s: NameSeq| s.len() == 1 && t.modes.contains(s[0]) implies !#[trigger] m.contains(
            s,
        ) by {
            let i = choose|i: int| 0 <= i < t.modes.len() && t.modes[i] == s[0];
            assert(s =~= seq![t.modes[i]]);
        }
    }
    if forall|s: NameSeq|
        s.len() == 1 && t.modes.contains(s[0]) ==> !#[trigger] m.contains(s) {
        assert forall|i: int| 0 <= i < t.modes.len() implies !m.contains(
            seq![#[trigger] t.modes[i]],
        ) by {
            let s = seq![t.modes[i]];
            assert(t.modes.contains(s[0]));
        }
    }
}

proof fn lemma_items_reported(
    xs: Seq<ExprView>,
    m: Set<NameSeq>,
    r: RuleView,
    defs: Seq<(Seq<char>, TokenView)>,
    k: nat,
    d: DiagnosticView,
)
    requires
        k <= xs.len(),
    ensures
        mode_check::items_mode_diags(xs, m, r, defs, k).contains(d) <==> exists|
            i: int,
            n: Seq<char>,
            w: Set<NameSeq>,
        |
            0 <= i < k && #[trigger] stands(
                xs[i],
                leaves_all(xs, m, defs, i as nat),
                defs,
                ExprView::Token(n),
                w,
            ) && mode_report(r, defs, n, w, d),
    decreases xs, k,
{
    if k > 0 {
        let here = leaves_all(xs, m, defs, (k - 1) as nat);
        lemma_items_reported(xs, m, r, defs, (k - 1) as nat, d);
        lemma_leaves_all(xs, m, defs, (k - 1) as nat);
        law_tokens_out_of_mode_are_reported(xs[k - 1], here, r, defs, d);
        ref_laws::lemma_both(
            mode_check::items_mode_diags(xs, m, r, defs, (k - 1) as nat),
            mode_check::mode_diags(xs[k - 1], here, r, defs),
            d,
        );
    }
}

proof fn lemma_any_reported(
    xs: Seq<ExprView>,
    m: Set<NameSeq>,
    r: RuleView,
    defs: Seq<(Seq<char>, TokenView)>,
    k: nat,
    d: DiagnosticView,
)
    requires
        k <= xs.len(),
    ensures
        mode_check::any_mode_diags(xs, m, r, defs, k).contains(d) <==> exists|
            i: int,
            n: Seq<char>,
            w: Set<NameSeq>,
        |
            0 <= i < k && #[trigger] stands(xs[i], m, defs, ExprView::Token(n), w) && mode_report(
                r,
                defs,
                n,
                w,
                d,
            ),
    decreases xs, k,
{
    if k > 0 {
        lemma_any_reported(xs, m, r, defs, (k - 1) as nat, d);
        law_tokens_out_of_mode_are_reported(xs[k - 1], m, r, defs, d);
        ref_laws::lemma_both(
            mode_check::any_mode_diags(xs, m, r, defs, (k - 1) as nat),
            mode_check::mode_diags(xs[k - 1], m, r, defs),
            d,
        );
    }
}

/// A table holds the modes at the calls of an expression if and only if it holds
/// them at each rule that stands in it.
pub proof fn law_calls_pass_modes_on(
    e: ExprView,
    m: Set<NameSeq>,
    defs: Seq<(Seq<char>, TokenView)>,
    active: Firsts,
)
    ensures
        mode_check::calls_closed(e, m, defs, active) <==> forall|
            n: Seq<char>,
            w: Set<NameSeq>,
        | #[trigger]
            stands(e, m, defs, ExprView::Rule(n), w) ==> w.subset_of(
                first_follow::set_at(active, n),
            ),
    decreases e,
{
    match e {
        ExprView::Rule(n) => {
            assert(stands(e, m, defs, ExprView::Rule(n), m));
        },
        ExprView::Concat(xs) => {
            assert forall|i: int| 0 <= i < xs.len() implies mode_check::calls_closed(
                #[trigger] xs[i],
                mode_check::after_items(xs, m, defs, i as nat),
                defs,
                active,
            ) == passes(xs[i], leaves_all(xs, m, defs, i as nat), defs, active) by {
                lemma_leaves_all(xs, m, defs, i as nat);
                law_calls_pass_modes_on(
                    xs[i],
                    leaves_all(xs, m, defs, i as nat),
                    defs,
                    active,
                );
            }
            if passes(e, m, defs, active) {
                assert forall|i: int| 0 <= i < xs.len() implies passes(
                    #[trigger] xs[i],
                    leaves_all(xs, m, defs, i as nat),
                    defs,
                    active,
                ) by {
                    assert forall|n: Seq<char>, w: Set<NameSeq>| #[trigger]
                        stands(
                            xs[i],
                            leaves_all(xs, m, defs, i as nat),
                            defs,
                            ExprView::Rule(n),
                            w,
                        ) implies w.subset_of(first_follow::set_at(active, n)) by {
                        assert(stands(e, m, defs, ExprView::Rule(n), w));
                    }
                }
            }
            if mode_check::calls_closed(e, m, defs, active) {
                assert forall|n: Seq<char>, w: Set<NameSeq>| #[trigger]
                    stands(e, m, defs, ExprView::Rule(n), w) implies w.subset_of(
                    first_follow::set_at(active, n),
                ) by {
                    let i = choose|i: int|
                        0 <= i < xs.len() && stands(
                            #[trigger] xs[i],
                            leaves_all(xs, m, defs, i as nat),
                            defs,
                            ExprView::Rule(n),
                            w,
                        );
                    assert(passes(xs[i], leaves_all(xs, m, defs, i as nat), defs, active));
                }
            }
        },
        ExprView::Alt(xs) => {
            assert forall|i: int| 0 <= i < xs.len() implies mode_check::calls_closed(
                #[trigger] xs[i],
                m,
                defs,
                active,
            ) == passes(xs[i], m, defs, active) by {
                law_calls_pass_modes_on(xs[i], m, defs, active);
            }
            if passes(e, m, defs, active) {
                assert forall|i: int| 0 <= i < xs.len() implies passes(
                    #[trigger] xs[i],
                    m,
                    defs,
                    active,
                ) by {
                    assert forall|n: Seq<char>, w: Set<NameSeq>| #[trigger]
                        stands(xs[i], m, defs, ExprView::Rule(n), w) implies w.subset_of(
                        first_follow::set_at(active, n),
                    ) by {
                        assert(stands(e, m, defs, ExprView::Rule(n), w));
                    }
                }
            }
            if mode_check::calls_closed(e, m, defs, active) {
                assert forall|n: Seq<char>, w: Set<NameSeq>| #[trigger]
                    stands(e, m, defs, ExprView::Rule(n), w) implies w.subset_of(
                    first_follow::set_at(active, n),
                ) by {
                    let i = choose|i: int|
                        0 <= i < xs.len() && stands(
                            #[trigger] xs[i],
                            m,
                            defs,
                            ExprView::Rule(n),
                            w,
                        );
                    assert(passes(xs[i], m, defs, active));
                }
            }
        },
        ExprView::Opt(x) => {
            law_calls_pass_modes_on(*x, m, defs, active);
            lemma_same_passes(e, *x, m, defs, active);
        },
        ExprView::Star(x) => {
            law_calls_pass_modes_on(*x, m, defs, active);
            lemma_same_passes(e, *x, m, defs, active);
        },
        ExprView::Plus(x) => {
            law_calls_pass_modes_on(*x, m, defs, active);
            lemma_same_passes(e, *x, m, defs, active);
        },
        ExprView::Label(_, x) => {
            law_calls_pass_modes_on(*x, m, defs, active);
            lemma_same_passes(e, *x, m, defs, active);
        },
        _ => {},
    }
}

/// The table holds the modes at each rule that stands in the expression.
spec fn passes(
    e: ExprView,
    m: Set<NameSeq>,
    defs: Seq<(Seq<char>, TokenView)>,
    active: Firsts,
) -> bool {
    forall|n: Seq<char>, w: Set<NameSeq>| #[trigger]
        stands(e, m, defs, ExprView::Rule(n), w) ==> w.subset_of(first_follow::set_at(active, n))
}

proof fn lemma_same_passes(
    e: ExprView,
    x: ExprView,
    m: Set<NameSeq>,
    defs: Seq<(Seq<char>, TokenView)>,
    active: Firsts,
)
    requires
        match e {
            ExprView::Opt(y) => *y == x,
            ExprView::Star(y) => *y == x,
            ExprView::Plus(y) => *y == x,
            ExprView::Label(_, y) => *y == x,
            _ => false,
        },
    ensures
        passes(e, m, defs, active) == passes(x, m, defs, active),
{
    assert forall|n: Seq<char>, w: Set<NameSeq>|
        stands(e, m, defs, ExprView::Rule(n), w) == stands(
            x,
            m,
            defs,
            ExprView::Rule(n),
            w,
        ) by {}
    if passes(e, m, defs, active) {
        assert forall|n: Seq<char>, w: Set<NameSeq>| #[trigger]
            stands(x, m, defs, ExprView::Rule(n), w) implies w.subset_of(
            first_follow::set_at(active, n),
        ) by {
            assert(stands(e, m, defs, ExprView::Rule(n), w));
        }
    }
}

} // verus!
