//! What the checks of rules say of what the rules derive.
use vstd::prelude::*;

use crate::analysis::left_recursion;
use crate::analysis::lints;
use crate::analysis::ref_laws;
use crate::analysis::token_laws;
use crate::analysis::validate;
use crate::diagnostic::{self, DiagnosticView, Severity};
use crate::grammar::ir::{self, ExprView, Grammar, PatternView, RuleView, TokenView};
use crate::grammar::refs;
use crate::lowering::closed;
use crate::lowering::derivation::{self, Calls, Mark, Terms};

verus! {

/// The rule derives something.
pub open spec fn derives_something(t: Terms, n: Seq<char>) -> bool {
    exists|w: Seq<Mark>| #[trigger] derivation::derives(t, n, w)
}

/// The rule derives something without a token.
pub open spec fn derives_nothing(t: Terms, n: Seq<char>) -> bool {
    exists|w: Seq<Mark>| #[trigger]
        derivation::derives(t, n, w) && derivation::tokenless(w)
}

proof fn lemma_given_is_productive(
    t: Terms,
    c: Calls,
    e: ExprView,
    w: Seq<Mark>,
    done: Set<Seq<char>>,
)
    requires
        forall|n: Seq<char>, v: Seq<Mark>| #[trigger] c(n, v) ==> done.contains(n),
        derivation::gives(t, c, e, w),
    ensures
        lints::productive_given(e, done),
    decreases e,
{
    match e {
        ExprView::Concat(xs) => {
            lemma_items_productive(t, c, xs, w, done);
            assert(e->Concat_0 == xs);
        },
        ExprView::Alt(xs) => {
            if exists|i: int| 0 <= i < xs.len() && derivation::gives(t, c, #[trigger] xs[i], w) {
                let i = choose|i: int|
                    0 <= i < xs.len() && derivation::gives(t, c, #[trigger] xs[i], w);
                lemma_given_is_productive(t, c, xs[i], w, done);
            } else {
                let (i, v) = choose|i: int, v: Seq<Mark>|
                    0 <= i < xs.len() && derivation::gives(t, c, #[trigger] xs[i], v)
                        && #[trigger] derivation::tokenless(v);
                lemma_given_is_productive(t, c, xs[i], v, done);
            }
        },
        ExprView::Plus(x) => {
            let m = choose|m: int|
                0 <= m <= w.len() && derivation::gives(t, c, *x, #[trigger] w.take(m))
                    && derivation::star_gives(t, c, *x, w.skip(m));
            lemma_given_is_productive(t, c, *x, w.take(m), done);
        },
        ExprView::Label(_, x) => {
            if !(*x is Token) {
                lemma_given_is_productive(t, c, *x, w, done);
            }
        },
        _ => {},
    }
}

proof fn lemma_items_productive(
    t: Terms,
    c: Calls,
    xs: Seq<ExprView>,
    w: Seq<Mark>,
    done: Set<Seq<char>>,
)
    requires
        forall|n: Seq<char>, v: Seq<Mark>| #[trigger] c(n, v) ==> done.contains(n),
        derivation::items_give(t, c, xs, w),
    ensures
        forall|i: int| 0 <= i < xs.len() ==> lints::productive_given(#[trigger] xs[i], done),
    decreases xs,
{
    if xs.len() > 0 {
        let p = xs.drop_last();
        let m = choose|m: int|
            0 <= m <= w.len() && derivation::items_give(t, c, p, #[trigger] w.take(m))
                && derivation::gives(t, c, xs.last(), w.skip(m));
        lemma_items_productive(t, c, p, w.take(m), done);
        lemma_given_is_productive(t, c, xs.last(), w.skip(m), done);
        assert forall|i: int| 0 <= i < xs.len() implies lints::productive_given(
            #[trigger] xs[i],
            done,
        ) by {
            if i < p.len() {
                assert(p[i] == xs[i]);
            }
        }
    }
}

proof fn lemma_deep_productive(t: Terms, d: nat, n: Seq<char>, w: Seq<Mark>, done: Set<Seq<char>>)
    requires
        derivation::derived_at(t, n, w, d),
        lints::productive_closed(t.rules, done),
    ensures
        done.contains(n),
    decreases d,
{
    if d > 0 {
        let c = derivation::deep(t, (d - 1) as nat);
        assert(derivation::named_gives(t, c, n, w));
        let i = choose|i: int|
            0 <= i < t.rules.len() && (#[trigger] t.rules[i]).name == n && derivation::rule_gives(
                t,
                c,
                t.rules[i],
                w,
            );
        assert forall|m: Seq<char>, v: Seq<Mark>| #[trigger] c(m, v) implies done.contains(m) by {
            assert(derivation::derived_at(t, m, v, (d - 1) as nat));
            lemma_deep_productive(t, (d - 1) as nat, m, v, done);
        }
        let r = t.rules[i];
        if r.is_fragment {
            lemma_given_is_productive(t, c, r.body, w, done);
        } else {
            lemma_given_is_productive(t, c, r.body, w.subrange(1, w.len() - 1), done);
        }
    }
}

/// The expression derives something if the rules in it do.
proof fn lemma_productive_gives(t: Terms, e: ExprView, done: Set<Seq<char>>) -> (w: Seq<Mark>)
    requires
        forall|n: Seq<char>| #[trigger] done.contains(n) ==> derives_something(t, n),
        lints::productive_given(e, done),
    ensures
        derivation::gives(t, derivation::derivable(t), e, w),
    decreases e,
{
    let c = derivation::derivable(t);
    match e {
        ExprView::Empty => Seq::empty(),
        ExprView::Token(n) => seq![derivation::token_mark(t, n, None)],
        ExprView::Rule(n) => {
            let w = choose|w: Seq<Mark>| #[trigger] derivation::derives(t, n, w);
            assert(c(n, w));
            w
        },
        ExprView::Concat(xs) => {
            assert(e->Concat_0 == xs);
            lemma_productive_items(t, xs, done)
        },
        ExprView::Alt(xs) => {
            let i = choose|i: int|
                0 <= i < xs.len() && lints::productive_given(#[trigger] xs[i], done);
            let w = lemma_productive_gives(t, xs[i], done);
            assert(derivation::gives(t, c, xs[i], w));
            w
        },
        ExprView::Opt(_) => Seq::empty(),
        ExprView::Star(x) => {
            assert(derivation::star_gives(t, c, *x, Seq::empty()));
            Seq::empty()
        },
        ExprView::Plus(x) => {
            let w = lemma_productive_gives(t, *x, done);
            assert(w.take(w.len() as int) =~= w);
            assert(w.skip(w.len() as int).len() == 0);
            assert(derivation::star_gives(t, c, *x, w.skip(w.len() as int)));
            assert(derivation::gives(t, c, *x, w.take(w.len() as int)));
            w
        },
        ExprView::Label(name, x) => match *x {
            ExprView::Token(n) => seq![derivation::token_mark(t, n, Some(name))],
            _ => lemma_productive_gives(t, *x, done),
        },
    }
}

proof fn lemma_productive_items(t: Terms, xs: Seq<ExprView>, done: Set<Seq<char>>) -> (w: Seq<Mark>)
    requires
        forall|n: Seq<char>| #[trigger] done.contains(n) ==> derives_something(t, n),
        forall|i: int| 0 <= i < xs.len() ==> lints::productive_given(#[trigger] xs[i], done),
    ensures
        derivation::items_give(t, derivation::derivable(t), xs, w),
    decreases xs,
{
    if xs.len() == 0 {
        Seq::empty()
    } else {
        let p = xs.drop_last();
        assert forall|i: int| 0 <= i < p.len() implies lints::productive_given(
            #[trigger] p[i],
            done,
        ) by {
            assert(p[i] == xs[i]);
        }
        assert(lints::productive_given(xs[xs.len() - 1], done));
        let a = lemma_productive_items(t, p, done);
        let b = lemma_productive_gives(t, xs.last(), done);
        let w = a + b;
        assert(w.take(a.len() as int) =~= a);
        assert(w.skip(a.len() as int) =~= b);
        w
    }
}

/// A word of a rule with its marks around it.
spec fn framed(t: Terms, r: RuleView, w: Seq<Mark>) -> Seq<Mark> {
    let kind = crate::lowering::program::rule_kind(
        crate::lowering::program::public_names(t.rules),
        r.name,
    );
    if r.is_fragment {
        w
    } else {
        seq![Mark::Enter(kind)] + w + seq![Mark::Exit(kind)]
    }
}

proof fn lemma_framed(t: Terms, i: int, w: Seq<Mark>)
    requires
        0 <= i < t.rules.len(),
        derivation::gives(t, derivation::derivable(t), t.rules[i].body, w),
    ensures
        derivation::derives(t, t.rules[i].name, framed(t, t.rules[i], w)),
        derivation::tokenless(w) ==> derivation::tokenless(framed(t, t.rules[i], w)),
{
    let r = t.rules[i];
    let v = framed(t, r, w);
    derivation::lemma_derivable_closed(t);
    if !r.is_fragment {
        assert(v.subrange(1, v.len() - 1) =~= w);
    }
    assert(derivation::rule_gives(t, derivation::derivable(t), t.rules[i], v));
    assert(derivation::derivable(t)(r.name, v));
}

/// A rule is reported as non-productive if and only if it derives no string of
/// tokens.
pub proof fn law_productive_rules_derive(t: Terms, n: Seq<char>)
    ensures
        lints::productive(t.rules, n) <==> derives_something(t, n),
{
    if derives_something(t, n) {
        let w = choose|w: Seq<Mark>| #[trigger] derivation::derives(t, n, w);
        let d = choose|d: nat| #[trigger] derivation::derived_at(t, n, w, d);
        assert forall|done: Set<Seq<char>>| #[trigger]
            lints::productive_closed(t.rules, done) implies done.contains(n) by {
            lemma_deep_productive(t, d, n, w, done);
        }
    }
    let done = Set::new(|m: Seq<char>| derives_something(t, m));
    assert(lints::productive_closed(t.rules, done)) by {
        assert forall|i: int|
            0 <= i < t.rules.len() && lints::productive_given(
                (#[trigger] t.rules[i]).body,
                done,
            ) implies done.contains(t.rules[i].name) by {
            let w = lemma_productive_gives(t, t.rules[i].body, done);
            lemma_framed(t, i, w);
        }
    }
}

proof fn lemma_tokenless_parts(w: Seq<Mark>, m: int)
    requires
        0 <= m <= w.len(),
    ensures
        derivation::tokenless(w) <==> derivation::tokenless(w.take(m)) && derivation::tokenless(
            w.skip(m),
        ),
{
    if derivation::tokenless(w.take(m)) && derivation::tokenless(w.skip(m)) {
        assert forall|i: int| 0 <= i < w.len() implies !((#[trigger] w[i]) is Token) by {
            if i < m {
                assert(w.take(m)[i] == w[i]);
            } else {
                assert(w.skip(m)[i - m] == w[i]);
            }
        }
    }
}

proof fn lemma_given_is_empty(t: Terms, c: Calls, e: ExprView, w: Seq<Mark>, s: Set<Seq<char>>)
    requires
        forall|n: Seq<char>, v: Seq<Mark>| #[trigger]
            c(n, v) && derivation::tokenless(v) ==> s.contains(n),
        derivation::gives(t, c, e, w),
        derivation::tokenless(w),
    ensures
        left_recursion::can_be_empty(e, s),
    decreases e,
{
    match e {
        ExprView::Token(n) => {
            assert(w[0] is Token);
        },
        ExprView::Concat(xs) => {
            lemma_items_empty(t, c, xs, w, s);
            assert(e->Concat_0 == xs);
        },
        ExprView::Alt(xs) => {
            if exists|i: int| 0 <= i < xs.len() && derivation::gives(t, c, #[trigger] xs[i], w) {
                let i = choose|i: int|
                    0 <= i < xs.len() && derivation::gives(t, c, #[trigger] xs[i], w);
                lemma_given_is_empty(t, c, xs[i], w, s);
            } else {
                let (i, v) = choose|i: int, v: Seq<Mark>|
                    0 <= i < xs.len() && derivation::gives(t, c, #[trigger] xs[i], v)
                        && #[trigger] derivation::tokenless(v);
                lemma_given_is_empty(t, c, xs[i], v, s);
            }
        },
        ExprView::Plus(x) => {
            let m = choose|m: int|
                0 <= m <= w.len() && derivation::gives(t, c, *x, #[trigger] w.take(m))
                    && derivation::star_gives(t, c, *x, w.skip(m));
            lemma_tokenless_parts(w, m);
            lemma_given_is_empty(t, c, *x, w.take(m), s);
        },
        ExprView::Label(_, x) => {
            if *x is Token {
                assert(w[0] is Token);
            } else {
                lemma_given_is_empty(t, c, *x, w, s);
            }
        },
        _ => {},
    }
}

proof fn lemma_items_empty(t: Terms, c: Calls, xs: Seq<ExprView>, w: Seq<Mark>, s: Set<Seq<char>>)
    requires
        forall|n: Seq<char>, v: Seq<Mark>| #[trigger]
            c(n, v) && derivation::tokenless(v) ==> s.contains(n),
        derivation::items_give(t, c, xs, w),
        derivation::tokenless(w),
    ensures
        forall|i: int| 0 <= i < xs.len() ==> left_recursion::can_be_empty(#[trigger] xs[i], s),
    decreases xs,
{
    if xs.len() > 0 {
        let p = xs.drop_last();
        let m = choose|m: int|
            0 <= m <= w.len() && derivation::items_give(t, c, p, #[trigger] w.take(m))
                && derivation::gives(t, c, xs.last(), w.skip(m));
        lemma_tokenless_parts(w, m);
        lemma_items_empty(t, c, p, w.take(m), s);
        lemma_given_is_empty(t, c, xs.last(), w.skip(m), s);
        assert forall|i: int| 0 <= i < xs.len() implies left_recursion::can_be_empty(
            #[trigger] xs[i],
            s,
        ) by {
            if i < p.len() {
                assert(p[i] == xs[i]);
            }
        }
    }
}

proof fn lemma_deep_empty(t: Terms, d: nat, n: Seq<char>, w: Seq<Mark>, s: Set<Seq<char>>)
    requires
        derivation::derived_at(t, n, w, d),
        derivation::tokenless(w),
        left_recursion::empties_closed(t.rules, s),
    ensures
        s.contains(n),
    decreases d,
{
    if d > 0 {
        let c = derivation::deep(t, (d - 1) as nat);
        assert(derivation::named_gives(t, c, n, w));
        let i = choose|i: int|
            0 <= i < t.rules.len() && (#[trigger] t.rules[i]).name == n && derivation::rule_gives(
                t,
                c,
                t.rules[i],
                w,
            );
        assert forall|m: Seq<char>, v: Seq<Mark>| #[trigger]
            c(m, v) && derivation::tokenless(v) implies s.contains(m) by {
            assert(derivation::derived_at(t, m, v, (d - 1) as nat));
            lemma_deep_empty(t, (d - 1) as nat, m, v, s);
        }
        let r = t.rules[i];
        if r.is_fragment {
            lemma_given_is_empty(t, c, r.body, w, s);
        } else {
            let v = w.subrange(1, w.len() - 1);
            assert forall|j: int| 0 <= j < v.len() implies !((#[trigger] v[j]) is Token) by {
                assert(v[j] == w[j + 1]);
            }
            lemma_given_is_empty(t, c, r.body, v, s);
        }
    }
}

proof fn lemma_empty_gives(t: Terms, e: ExprView, s: Set<Seq<char>>) -> (w: Seq<Mark>)
    requires
        forall|n: Seq<char>| #[trigger] s.contains(n) ==> derives_nothing(t, n),
        left_recursion::can_be_empty(e, s),
    ensures
        derivation::gives(t, derivation::derivable(t), e, w),
        derivation::tokenless(w),
    decreases e,
{
    let c = derivation::derivable(t);
    match e {
        ExprView::Rule(n) => {
            let w = choose|w: Seq<Mark>| #[trigger]
                derivation::derives(t, n, w) && derivation::tokenless(w);
            assert(c(n, w));
            w
        },
        ExprView::Concat(xs) => {
            assert(e->Concat_0 == xs);
            lemma_empty_items(t, xs, s)
        },
        ExprView::Alt(xs) => {
            let i = choose|i: int|
                0 <= i < xs.len() && left_recursion::can_be_empty(#[trigger] xs[i], s);
            let w = lemma_empty_gives(t, xs[i], s);
            assert(derivation::gives(t, c, xs[i], w));
            w
        },
        ExprView::Plus(x) => {
            let w = lemma_empty_gives(t, *x, s);
            assert(w.take(w.len() as int) =~= w);
            assert(w.skip(w.len() as int).len() == 0);
            assert(derivation::star_gives(t, c, *x, w.skip(w.len() as int)));
            assert(derivation::gives(t, c, *x, w.take(w.len() as int)));
            w
        },
        ExprView::Label(name, x) => {
            let w = lemma_empty_gives(t, *x, s);
            assert(!(*x is Token));
            w
        },
        ExprView::Star(x) => {
            assert(derivation::star_gives(t, c, *x, Seq::empty()));
            Seq::empty()
        },
        _ => Seq::empty(),
    }
}

proof fn lemma_empty_items(t: Terms, xs: Seq<ExprView>, s: Set<Seq<char>>) -> (w: Seq<Mark>)
    requires
        forall|n: Seq<char>| #[trigger] s.contains(n) ==> derives_nothing(t, n),
        forall|i: int| 0 <= i < xs.len() ==> left_recursion::can_be_empty(#[trigger] xs[i], s),
    ensures
        derivation::items_give(t, derivation::derivable(t), xs, w),
        derivation::tokenless(w),
    decreases xs,
{
    if xs.len() == 0 {
        Seq::empty()
    } else {
        let p = xs.drop_last();
        assert forall|i: int| 0 <= i < p.len() implies left_recursion::can_be_empty(
            #[trigger] p[i],
            s,
        ) by {
            assert(p[i] == xs[i]);
        }
        assert(left_recursion::can_be_empty(xs[xs.len() - 1], s));
        let a = lemma_empty_items(t, p, s);
        let b = lemma_empty_gives(t, xs.last(), s);
        let w = a + b;
        assert(w.take(a.len() as int) =~= a);
        assert(w.skip(a.len() as int) =~= b);
        lemma_tokenless_parts(w, a.len() as int);
        w
    }
}

/// A rule is taken to derive ε if and only if it derives something without a
/// token.
pub proof fn law_empty_rules_derive_nothing(t: Terms, n: Seq<char>)
    ensures
        left_recursion::empty_rules(t.rules).contains(n) <==> derives_nothing(t, n),
{
    if derives_nothing(t, n) {
        let w = choose|w: Seq<Mark>| #[trigger]
            derivation::derives(t, n, w) && derivation::tokenless(w);
        let d = choose|d: nat| #[trigger] derivation::derived_at(t, n, w, d);
        assert forall|s: Set<Seq<char>>| #[trigger]
            left_recursion::empties_closed(t.rules, s) implies s.contains(n) by {
            lemma_deep_empty(t, d, n, w, s);
        }
    }
    let s = Set::new(|m: Seq<char>| derives_nothing(t, m));
    assert(left_recursion::empties_closed(t.rules, s)) by {
        assert forall|i: int|
            0 <= i < t.rules.len() && left_recursion::can_be_empty(
                (#[trigger] t.rules[i]).body,
                s,
            ) implies s.contains(t.rules[i].name) by {
            let w = lemma_empty_gives(t, t.rules[i].body, s);
            lemma_framed(t, i, w);
        }
    }
}

/// The error about the rule at position `i`, if it derives no string of tokens.
pub open spec fn non_productive_report(t: Terms, i: int, d: DiagnosticView) -> bool {
    &&& 0 <= i < t.rules.len()
    &&& !derives_something(t, t.rules[i].name)
    &&& d.severity == Severity::Error
    &&& d.span == t.rules[i].span
    &&& d.message == lints::non_productive_text(t.rules[i].name)
}

/// The rules that derive no string of tokens are reported, and no others.
pub proof fn law_non_productive_rules_are_reported(t: Terms, d: DiagnosticView)
    ensures
        lints::non_productive_diags(t.rules, t.rules.len()).contains(d) <==> exists|i: int| #[trigger]
            non_productive_report(t, i, d),
{
    lemma_non_productive(t, t.rules.len(), d);
}

proof fn lemma_non_productive(t: Terms, n: nat, d: DiagnosticView)
    requires
        n <= t.rules.len(),
    ensures
        lints::non_productive_diags(t.rules, n).contains(d) <==> exists|i: int|
            i < n && #[trigger] non_productive_report(t, i, d),
    decreases n,
{
    if n > 0 {
        lemma_non_productive(t, (n - 1) as nat, d);
        let r = t.rules[n - 1];
        let a = lints::non_productive_diags(t.rules, (n - 1) as nat);
        let x = diagnostic::error_at(lints::non_productive_text(r.name), r.span);
        law_productive_rules_derive(t, r.name);
        ref_laws::lemma_both(a, seq![x], d);
        ref_laws::lemma_both(a, Seq::empty(), d);
        assert(seq![x].contains(d) <==> d == x) by {
            assert(seq![x][0] == x);
        }
        assert(non_productive_report(t, n - 1, d) <==> !derives_something(t, r.name) && d == x);
    }
}

/// Of expressions one after the other, a rule leads the first if it leads those
/// in front, or those behind where those in front can all be empty. It leads an
/// alternation if it leads a part. Behind `?`, `*`, `+` or a label it leads what
/// it would lead alone.
pub proof fn law_leading_rules(
    xs: Seq<ExprView>,
    ys: Seq<ExprView>,
    x: ExprView,
    label: Seq<char>,
    s: Set<Seq<char>>,
    n: Seq<char>,
    m: Seq<char>,
)
    ensures
        left_recursion::leads_with(ExprView::Concat(xs + ys), s, n) <==> {
            ||| left_recursion::leads_with(ExprView::Concat(xs), s, n)
            ||| left_recursion::can_be_empty(ExprView::Concat(xs), s)
                && left_recursion::leads_with(ExprView::Concat(ys), s, n)
        },
        left_recursion::leads_with(ExprView::Concat(seq![x]), s, n)
            == left_recursion::leads_with(x, s, n),
        left_recursion::leads_with(ExprView::Alt(xs + ys), s, n) <==> left_recursion::leads_with(
            ExprView::Alt(xs),
            s,
            n,
        ) || left_recursion::leads_with(ExprView::Alt(ys), s, n),
        left_recursion::leads_with(ExprView::Alt(seq![x]), s, n) == left_recursion::leads_with(
            x,
            s,
            n,
        ),
        left_recursion::leads_with(ExprView::Opt(Box::new(x)), s, n)
            == left_recursion::leads_with(x, s, n),
        left_recursion::leads_with(ExprView::Star(Box::new(x)), s, n)
            == left_recursion::leads_with(x, s, n),
        left_recursion::leads_with(ExprView::Plus(Box::new(x)), s, n)
            == left_recursion::leads_with(x, s, n),
        left_recursion::leads_with(ExprView::Label(label, Box::new(x)), s, n)
            == left_recursion::leads_with(x, s, n),
        left_recursion::leads_with(ExprView::Rule(m), s, n) <==> m == n,
        !left_recursion::leads_with(ExprView::Token(m), s, n),
        !left_recursion::leads_with(ExprView::Empty, s, n),
{
    let all = xs + ys;
    let (ca, cx, cy, c1) = (
        ExprView::Concat(all),
        ExprView::Concat(xs),
        ExprView::Concat(ys),
        ExprView::Concat(seq![x]),
    );
    assert(ca->Concat_0 == all && cx->Concat_0 == xs && cy->Concat_0 == ys && c1->Concat_0
        == seq![x]);
    assert forall|i: int| 0 <= i < xs.len() implies #[trigger] all[i] == xs[i] by {}
    assert forall|i: int| 0 <= i < ys.len() implies all[xs.len() + i] == #[trigger] ys[i] by {}
    if left_recursion::leads_with(ca, s, n) {
        let i = choose|i: int|
            0 <= i < all.len() && left_recursion::leads_with(#[trigger] all[i], s, n)
                && left_recursion::all_empty_before(all, s, i);
        if i < xs.len() {
            assert(left_recursion::leads_with(xs[i], s, n));
            assert forall|j: int| 0 <= j < i implies left_recursion::can_be_empty(
                #[trigger] xs[j],
                s,
            ) by {
                assert(all[j] == xs[j]);
            }
            assert(left_recursion::all_empty_before(xs, s, i));
        } else {
            assert forall|j: int| 0 <= j < xs.len() implies left_recursion::can_be_empty(
                #[trigger] xs[j],
                s,
            ) by {
                assert(all[j] == xs[j]);
            }
            assert forall|j: int| 0 <= j < i - xs.len() implies left_recursion::can_be_empty(
                #[trigger] ys[j],
                s,
            ) by {
                assert(all[xs.len() + j] == ys[j]);
            }
            assert(left_recursion::leads_with(ys[i - xs.len()], s, n));
            assert(left_recursion::all_empty_before(ys, s, i - xs.len()));
        }
    }
    if left_recursion::leads_with(cx, s, n) {
        let i = choose|i: int|
            0 <= i < xs.len() && left_recursion::leads_with(#[trigger] xs[i], s, n)
                && left_recursion::all_empty_before(xs, s, i);
        assert(left_recursion::leads_with(all[i], s, n));
        assert(left_recursion::all_empty_before(all, s, i)) by {
            assert forall|j: int| 0 <= j < i implies left_recursion::can_be_empty(
                #[trigger] all[j],
                s,
            ) by {
                assert(all[j] == xs[j]);
            }
        }
    }
    if left_recursion::can_be_empty(cx, s) && left_recursion::leads_with(cy, s, n) {
        let i = choose|i: int|
            0 <= i < ys.len() && left_recursion::leads_with(#[trigger] ys[i], s, n)
                && left_recursion::all_empty_before(ys, s, i);
        assert(left_recursion::leads_with(all[xs.len() + i], s, n));
        assert(left_recursion::all_empty_before(all, s, xs.len() + i)) by {
            assert forall|j: int| 0 <= j < xs.len() + i implies left_recursion::can_be_empty(
                #[trigger] all[j],
                s,
            ) by {
                if j < xs.len() {
                    assert(left_recursion::can_be_empty(xs[j], s));
                } else {
                    assert(left_recursion::can_be_empty(ys[j - xs.len()], s));
                }
            }
        }
    }
    if left_recursion::leads_with(x, s, n) {
        assert(left_recursion::leads_with(seq![x][0], s, n));
        assert(left_recursion::all_empty_before(seq![x], s, 0));
    }
    let (aa, ax, ay, a1) = (
        ExprView::Alt(all),
        ExprView::Alt(xs),
        ExprView::Alt(ys),
        ExprView::Alt(seq![x]),
    );
    assert(aa->Alt_0 == all && ax->Alt_0 == xs && ay->Alt_0 == ys && a1->Alt_0 == seq![x]);
    if left_recursion::leads_with(aa, s, n) {
        let i = choose|i: int|
            0 <= i < all.len() && left_recursion::leads_with(#[trigger] all[i], s, n);
        if i < xs.len() {
            assert(left_recursion::leads_with(xs[i], s, n));
        } else {
            assert(left_recursion::leads_with(ys[i - xs.len()], s, n));
        }
    }
    if left_recursion::leads_with(ax, s, n) {
        let i = choose|i: int|
            0 <= i < xs.len() && left_recursion::leads_with(#[trigger] xs[i], s, n);
        assert(left_recursion::leads_with(all[i], s, n));
    }
    if left_recursion::leads_with(ay, s, n) {
        let i = choose|i: int|
            0 <= i < ys.len() && left_recursion::leads_with(#[trigger] ys[i], s, n);
        assert(left_recursion::leads_with(all[xs.len() + i], s, n));
    }
}

/// In a rule `a` the rule `b` can stand first.
pub open spec fn begins_with(rules: Seq<RuleView>, a: Seq<char>, b: Seq<char>) -> bool {
    exists|i: int|
        0 <= i < rules.len() && (#[trigger] rules[i]).name == a && left_recursion::leads_with(
            rules[i].body,
            left_recursion::empty_rules(rules),
            b,
        )
}

/// The rules lead from the expression to `n`: the first can stand first in it,
/// and each of the others in the one before it.
pub open spec fn leading_path(
    rules: Seq<RuleView>,
    e: ExprView,
    path: Seq<Seq<char>>,
    n: Seq<char>,
) -> bool {
    &&& path.len() > 0
    &&& path.last() == n
    &&& left_recursion::leads_with(e, left_recursion::empty_rules(rules), path[0])
    &&& forall|i: int| 0 < i < path.len() ==> begins_with(rules, path[i - 1], #[trigger] path[i])
}

proof fn lemma_leading_in(
    rules: Seq<RuleView>,
    e: ExprView,
    path: Seq<Seq<char>>,
    n: Seq<char>,
    s: Set<Seq<char>>,
)
    requires
        leading_path(rules, e, path, n),
        left_recursion::leads_closed(rules, left_recursion::empty_rules(rules), s),
        left_recursion::led(e, left_recursion::empty_rules(rules)).subset_of(s),
    ensures
        s.contains(n),
    decreases path.len(),
{
    let empties = left_recursion::empty_rules(rules);
    if path.len() == 1 {
        assert(left_recursion::led(e, empties).contains(n));
    } else {
        let p = path.drop_last();
        assert forall|i: int| 0 < i < p.len() implies begins_with(
            rules,
            p[i - 1],
            #[trigger] p[i],
        ) by {
            assert(p[i] == path[i] && p[i - 1] == path[i - 1]);
        }
        lemma_leading_in(rules, e, p, p.last(), s);
        assert(begins_with(rules, path[path.len() - 2], path[path.len() - 1]));
        let i = choose|i: int|
            0 <= i < rules.len() && (#[trigger] rules[i]).name == p.last()
                && left_recursion::leads_with(rules[i].body, empties, n);
        assert(left_recursion::led(rules[i].body, empties).contains(n));
    }
}

/// A rule is left-recursive if and only if rules lead back to it, each standing
/// first in the one before.
pub proof fn law_left_recursion_is_a_loop(rules: Seq<RuleView>, r: RuleView)
    ensures
        left_recursion::left_recursive(rules, r) <==> exists|path: Seq<Seq<char>>| #[trigger]
            leading_path(rules, r.body, path, r.name),
{
    let e = r.body;
    let empties = left_recursion::empty_rules(rules);
    if exists|path: Seq<Seq<char>>| #[trigger] leading_path(rules, e, path, r.name) {
        let path = choose|path: Seq<Seq<char>>| #[trigger] leading_path(rules, e, path, r.name);
        assert forall|s: Set<Seq<char>>| #[trigger]
            left_recursion::leads_closed(rules, empties, s) && left_recursion::led(
                e,
                empties,
            ).subset_of(s) implies s.contains(r.name) by {
            lemma_leading_in(rules, e, path, r.name, s);
        }
    }
    let s = Set::new(
        |n: Seq<char>|
            exists|path: Seq<Seq<char>>| #[trigger] leading_path(rules, e, path, n),
    );
    assert(left_recursion::leads_closed(rules, empties, s)) by {
        assert forall|i: int|
            0 <= i < rules.len() && s.contains(
                (#[trigger] rules[i]).name,
            ) implies left_recursion::led(rules[i].body, empties).subset_of(s) by {
            let a = rules[i].name;
            let p = choose|p: Seq<Seq<char>>| #[trigger] leading_path(rules, e, p, a);
            assert forall|n: Seq<char>| left_recursion::led(
                rules[i].body,
                empties,
            ).contains(n) implies s.contains(n) by {
                let q = p.push(n);
                assert forall|j: int| 0 < j < q.len() implies begins_with(
                    rules,
                    q[j - 1],
                    #[trigger] q[j],
                ) by {
                    if j < p.len() {
                        assert(p[j] == q[j] && p[j - 1] == q[j - 1]);
                    }
                }
                assert(leading_path(rules, e, q, n));
            }
        }
    }
    assert(left_recursion::led(e, empties).subset_of(s)) by {
        assert forall|n: Seq<char>| left_recursion::led(
            e,
            empties,
        ).contains(n) implies s.contains(n) by {
            assert(leading_path(rules, e, seq![n], n));
        }
    }
}

/// The names on the stack are defined, and rank above what they lead to.
spec fn ranks_above(
    defs: Seq<(Seq<char>, TokenView)>,
    rank: Map<Seq<char>, nat>,
    stack: Seq<Seq<char>>,
    name: Seq<char>,
) -> bool {
    forall|i: int|
        0 <= i < stack.len() ==> ir::lookup(defs, #[trigger] stack[i]) is Some && (ir::lookup(
            defs,
            name,
        ) is Some ==> rank.contains_key(stack[i]) && rank.contains_key(name) && rank[stack[i]]
            > rank[name])
}

proof fn lemma_no_visit_report(
    defs: Seq<(Seq<char>, TokenView)>,
    rank: Map<Seq<char>, nat>,
    name: Seq<char>,
    stack: Seq<Seq<char>>,
    seen: Set<Seq<char>>,
    depth: nat,
)
    requires
        validate::ranked(defs, rank),
        ranks_above(defs, rank, stack, name),
    ensures
        validate::visit(defs, name, stack, seen, depth).1.len() == 0,
    decreases depth, 0nat,
{
    if stack.contains(name) {
        let i = choose|i: int| 0 <= i < stack.len() && stack[i] == name;
        assert(ir::lookup(defs, stack[i]) is Some);
    } else if !seen.contains(name) && depth > 0 {
        match ir::lookup(defs, name) {
            None => {},
            Some(t) => {
                let names = refs::pattern_refs(t.pattern);
                let next = stack.push(name);
                ir::lemma_position(defs, name);
                let at = ir::position(defs, name);
                assert(defs[at].0 == name && defs[at].1 == t);
                assert forall|j: int| 0 <= j < names.len() implies ranks_above(
                    defs,
                    rank,
                    next,
                    #[trigger] names[j],
                ) by {
                    let n = names[j];
                    assert(refs::pattern_refs(defs[at].1.pattern).contains(n));
                    assert forall|i: int| 0 <= i < next.len() implies ir::lookup(
                        defs,
                        #[trigger] next[i],
                    ) is Some && (ir::lookup(defs, n) is Some ==> rank.contains_key(next[i])
                        && rank.contains_key(n) && rank[next[i]] > rank[n]) by {
                        if i < stack.len() {
                            assert(next[i] == stack[i]);
                            assert(ir::lookup(defs, stack[i]) is Some);
                        }
                        if ir::lookup(defs, n) is Some {
                            assert(rank[n] < rank[defs[at].0]);
                        }
                    }
                }
                lemma_no_visits_report(
                    defs,
                    rank,
                    names,
                    next,
                    seen.insert(name),
                    (depth - 1) as nat,
                    names.len(),
                );
            },
        }
    }
}

proof fn lemma_no_visits_report(
    defs: Seq<(Seq<char>, TokenView)>,
    rank: Map<Seq<char>, nat>,
    names: Seq<Seq<char>>,
    stack: Seq<Seq<char>>,
    seen: Set<Seq<char>>,
    depth: nat,
    n: nat,
)
    requires
        validate::ranked(defs, rank),
        n <= names.len(),
        forall|j: int| 0 <= j < n ==> ranks_above(defs, rank, stack, #[trigger] names[j]),
    ensures
        validate::visit_all(defs, names, stack, seen, depth, n).1.len() == 0,
    decreases depth, n + 1,
{
    if n > 0 {
        lemma_no_visits_report(defs, rank, names, stack, seen, depth, (n - 1) as nat);
        let s1 = validate::visit_all(defs, names, stack, seen, depth, (n - 1) as nat).0;
        assert(ranks_above(defs, rank, stack, names[n - 1]));
        lemma_no_visit_report(defs, rank, names[n - 1], stack, s1, depth);
    }
}

/// Cycles of token references are reported if and only if there are some: none
/// is, if the tokens can be ranked so that each refers to lower ones only.
pub proof fn law_cycles_are_reported(defs: Seq<(Seq<char>, TokenView)>)
    requires
        validate::well_named(defs),
    ensures
        validate::cycle_diags(defs).len() == 0 <==> exists|rank: Map<Seq<char>, nat>| #[trigger]
            validate::ranked(defs, rank),
{
    if validate::cycle_diags(defs).len() == 0 {
        let rank = validate::law_no_report_no_cycle(defs);
    }
    if exists|rank: Map<Seq<char>, nat>| #[trigger] validate::ranked(defs, rank) {
        let rank = choose|rank: Map<Seq<char>, nat>| #[trigger] validate::ranked(defs, rank);
        let names = Seq::new(defs.len(), |i: int| defs[i].1.name);
        assert forall|j: int| 0 <= j < names.len() implies ranks_above(
            defs,
            rank,
            Seq::empty(),
            #[trigger] names[j],
        ) by {}
        lemma_no_visits_report(
            defs,
            rank,
            names,
            Seq::empty(),
            Set::empty(),
            defs.len(),
            defs.len(),
        );
    }
}

/// Each character of the name is the capital or the small letter of a word.
pub open spec fn reads(name: Seq<char>, capital: Seq<char>, small: Seq<char>) -> bool {
    &&& name.len() == capital.len()
    &&& forall|i: int|
        0 <= i < name.len() ==> #[trigger] name[i] == capital[i] || name[i] == small[i]
}

/// The name is one that the runtime gives to tokens of its own, in whatever
/// letters.
pub open spec fn taken_name(name: Seq<char>) -> bool {
    ||| reads(name, seq!['E', 'O', 'F'], seq!['e', 'o', 'f'])
    ||| reads(name, seq!['E', 'R', 'R', 'O', 'R'], seq!['e', 'r', 'r', 'o', 'r'])
}

proof fn lemma_reserved(name: Seq<char>)
    ensures
        validate::reserved(name) <==> taken_name(name),
{
    reveal_strlit("EOF");
    reveal_strlit("ERROR");
    let (a, b) = ("EOF"@, "ERROR"@);
    assert(a =~= seq!['E', 'O', 'F']);
    assert(b =~= seq!['E', 'R', 'R', 'O', 'R']);
    let (al, bl) = (seq!['e', 'o', 'f'], seq!['e', 'r', 'r', 'o', 'r']);
    assert forall|i: int| 0 <= i < name.len() && name.len() == 3 implies ((crate::text::upper(
        #[trigger] name[i],
    ) == a[i]) <==> (name[i] == a[i] || name[i] == al[i])) by {}
    assert forall|i: int| 0 <= i < name.len() && name.len() == 5 implies ((crate::text::upper(
        #[trigger] name[i],
    ) == b[i]) <==> (name[i] == b[i] || name[i] == bl[i])) by {}
}

/// What a grammar has to be for the validators to report no error.
pub open spec fn sound(g: Grammar) -> bool {
    let tokens = g.token_list();
    let rules = g.rule_list();
    let defs = g.token_map();
    &&& forall|i: int| 0 <= i < tokens.len() ==> !taken_name((#[trigger] tokens[i]).name)
    &&& forall|i: int, j: int|
        0 <= i < j < tokens.len() ==> (#[trigger] tokens[i]).name != (#[trigger] tokens[j]).name
    &&& forall|i: int, j: int|
        0 <= i < j < rules.len() ==> (#[trigger] rules[i]).name != (#[trigger] rules[j]).name
    &&& forall|i: int, n: Seq<char>|
        0 <= i < rules.len() && #[trigger] ref_laws::within(ExprView::Token(n), rules[i].body) ==> (
        ir::lookup(defs, n) matches Some(t) && !t.is_fragment)
    &&& forall|i: int, n: Seq<char>|
        0 <= i < rules.len() && #[trigger] ref_laws::within(ExprView::Rule(n), rules[i].body)
            ==> ir::lookup(g.rule_map(), n) is Some
    &&& forall|i: int, n: Seq<char>|
        0 <= i < tokens.len() && #[trigger] ref_laws::part_of(
            PatternView::Ref(n),
            tokens[i].pattern,
        ) ==> ir::lookup(defs, n) is Some
    &&& exists|rank: Map<Seq<char>, nat>| #[trigger] validate::ranked(defs, rank)
    &&& forall|i: int|
        0 <= i < rules.len() ==> !left_recursion::left_recursive(rules, #[trigger] rules[i])
    &&& exists|i: int| 0 <= i < rules.len() && !(#[trigger] rules[i]).is_fragment
}

proof fn lemma_gathered_none(each: spec_fn(int) -> Seq<DiagnosticView>, n: nat)
    requires
        forall|i: int| 0 <= i < n ==> (#[trigger] each(i)).len() == 0,
    ensures
        validate::gathered(each, n).len() == 0,
    decreases n,
{
    if n > 0 {
        lemma_gathered_none(each, (n - 1) as nat);
        assert(each(n - 1).len() == 0);
    }
}

/// The references of an expression are reported if and only if one is wrong.
proof fn lemma_expr_refs(
    e: ExprView,
    defs: Seq<(Seq<char>, TokenView)>,
    rules: Seq<(Seq<char>, RuleView)>,
    ctx: RuleView,
)
    ensures
        token_laws::all_errors(validate::expr_ref_diags(e, defs, rules, ctx)),
        validate::expr_ref_diags(e, defs, rules, ctx).len() == 0 <==> clean(e, defs, rules),
    decreases e, 0nat,
{
    match e {
        ExprView::Token(n) => {
            assert(ref_laws::within(ExprView::Token(n), e));
            assert forall|m: Seq<char>| !ref_laws::within(ExprView::Rule(m), e) by {}
            assert forall|m: Seq<char>| ref_laws::within(ExprView::Token(m), e) implies m == n by {}
        },
        ExprView::Rule(n) => {
            assert(ref_laws::within(ExprView::Rule(n), e));
            assert forall|m: Seq<char>| !ref_laws::within(ExprView::Token(m), e) by {}
            assert forall|m: Seq<char>| ref_laws::within(ExprView::Rule(m), e) implies m == n by {}
        },
        ExprView::Concat(xs) => {
            assert(e->Concat_0 == xs);
            lemma_list_refs(xs, defs, rules, ctx);
            lemma_parts_clean(e, xs, defs, rules, ctx);
        },
        ExprView::Alt(xs) => {
            assert(e->Alt_0 == xs);
            lemma_list_refs(xs, defs, rules, ctx);
            lemma_parts_clean(e, xs, defs, rules, ctx);
        },
        ExprView::Opt(x) => {
            lemma_expr_refs(*x, defs, rules, ctx);
            lemma_inner_clean(e, *x, defs, rules);
        },
        ExprView::Star(x) => {
            lemma_expr_refs(*x, defs, rules, ctx);
            lemma_inner_clean(e, *x, defs, rules);
        },
        ExprView::Plus(x) => {
            lemma_expr_refs(*x, defs, rules, ctx);
            lemma_inner_clean(e, *x, defs, rules);
        },
        ExprView::Label(_, x) => {
            lemma_expr_refs(*x, defs, rules, ctx);
            lemma_inner_clean(e, *x, defs, rules);
        },
        _ => {},
    }
}

proof fn lemma_inner_clean(
    e: ExprView,
    x: ExprView,
    defs: Seq<(Seq<char>, TokenView)>,
    rules: Seq<(Seq<char>, RuleView)>,
)
    requires
        match e {
            ExprView::Opt(y) => *y == x,
            ExprView::Star(y) => *y == x,
            ExprView::Plus(y) => *y == x,
            ExprView::Label(_, y) => *y == x,
            _ => false,
        },
    ensures
        clean(e, defs, rules) == clean(x, defs, rules),
{
    assert forall|n: Seq<char>|
        ref_laws::within(ExprView::Token(n), e) == ref_laws::within(ExprView::Token(n), x) by {}
    assert forall|n: Seq<char>|
        ref_laws::within(ExprView::Rule(n), e) == ref_laws::within(ExprView::Rule(n), x) by {}
}

/// The references of one expression are right.
spec fn clean(
    e: ExprView,
    defs: Seq<(Seq<char>, TokenView)>,
    rules: Seq<(Seq<char>, RuleView)>,
) -> bool {
    &&& forall|n: Seq<char>| #[trigger]
        ref_laws::within(ExprView::Token(n), e) ==> (ir::lookup(defs, n) matches Some(t)
            && !t.is_fragment)
    &&& forall|n: Seq<char>| #[trigger]
        ref_laws::within(ExprView::Rule(n), e) ==> ir::lookup(rules, n) is Some
}

proof fn lemma_parts_clean(
    e: ExprView,
    xs: Seq<ExprView>,
    defs: Seq<(Seq<char>, TokenView)>,
    rules: Seq<(Seq<char>, RuleView)>,
    ctx: RuleView,
)
    requires
        e == ExprView::Concat(xs) || e == ExprView::Alt(xs),
    ensures
        clean(e, defs, rules) <==> forall|i: int|
            0 <= i < xs.len() ==> clean(#[trigger] xs[i], defs, rules),
{
    assert(e is Concat ==> e->Concat_0 == xs);
    assert(e is Alt ==> e->Alt_0 == xs);
    if clean(e, defs, rules) {
        assert forall|i: int| 0 <= i < xs.len() implies clean(#[trigger] xs[i], defs, rules) by {
            assert forall|n: Seq<char>| #[trigger]
                ref_laws::within(ExprView::Token(n), xs[i]) implies (ir::lookup(
                defs,
                n,
            ) matches Some(t) && !t.is_fragment) by {
                assert(ref_laws::within(ExprView::Token(n), e));
            }
            assert forall|n: Seq<char>| #[trigger]
                ref_laws::within(ExprView::Rule(n), xs[i]) implies ir::lookup(
                rules,
                n,
            ) is Some by {
                assert(ref_laws::within(ExprView::Rule(n), e));
            }
        }
    }
    if forall|i: int| 0 <= i < xs.len() ==> clean(#[trigger] xs[i], defs, rules) {
        assert forall|n: Seq<char>| #[trigger]
            ref_laws::within(ExprView::Token(n), e) implies (ir::lookup(defs, n) matches Some(t)
            && !t.is_fragment) by {
            let i = choose|i: int|
                0 <= i < xs.len() && ref_laws::within(ExprView::Token(n), #[trigger] xs[i]);
            assert(clean(xs[i], defs, rules));
        }
        assert forall|n: Seq<char>| #[trigger]
            ref_laws::within(ExprView::Rule(n), e) implies ir::lookup(rules, n) is Some by {
            let i = choose|i: int|
                0 <= i < xs.len() && ref_laws::within(ExprView::Rule(n), #[trigger] xs[i]);
            assert(clean(xs[i], defs, rules));
        }
    }
}

proof fn lemma_list_refs(
    xs: Seq<ExprView>,
    defs: Seq<(Seq<char>, TokenView)>,
    rules: Seq<(Seq<char>, RuleView)>,
    ctx: RuleView,
)
    ensures
        token_laws::all_errors(validate::list_ref_diags(xs, defs, rules, ctx)),
        validate::list_ref_diags(xs, defs, rules, ctx).len() == 0 <==> forall|i: int|
            0 <= i < xs.len() ==> clean(#[trigger] xs[i], defs, rules),
    decreases xs, xs.len(),
{
    if xs.len() > 0 {
        let p = xs.drop_last();
        lemma_list_refs(p, defs, rules, ctx);
        lemma_expr_refs(xs.last(), defs, rules, ctx);
        assert(validate::expr_ref_diags(xs.last(), defs, rules, ctx).len() == 0 <==> clean(
            xs.last(),
            defs,
            rules,
        ));
        assert forall|i: int| 0 <= i < p.len() implies #[trigger] p[i] == xs[i] by {}
        if forall|i: int| 0 <= i < xs.len() ==> clean(#[trigger] xs[i], defs, rules) {
            assert(clean(xs[xs.len() - 1], defs, rules));
            assert forall|i: int| 0 <= i < p.len() implies clean(
                #[trigger] p[i],
                defs,
                rules,
            ) by {
                assert(clean(xs[i], defs, rules));
            }
        }
        if validate::list_ref_diags(xs, defs, rules, ctx).len() == 0 {
            assert forall|i: int| 0 <= i < xs.len() implies clean(
                #[trigger] xs[i],
                defs,
                rules,
            ) by {
                if i < p.len() {
                    assert(clean(p[i], defs, rules));
                }
            }
        }
    }
}

/// The validators report no error if and only if the grammar is sound: no name
/// is taken or given twice, every reference is to something that can stand
/// there, tokens form no cycle, no rule begins with itself, and some rule is no
/// fragment.
pub proof fn law_sound_grammars_are_valid(g: Grammar)
    requires
        validate::well_named(g.token_map()),
    ensures
        !diagnostic::any_error(validate::validate_diags(g)) <==> sound(g),
{
    if !diagnostic::any_error(validate::validate_diags(g)) {
        lemma_valid_is_sound(g);
    }
    if sound(g) {
        lemma_sound_is_valid(g);
    }
}

proof fn lemma_valid_is_sound(g: Grammar)
    requires
        validate::well_named(g.token_map()),
        !diagnostic::any_error(validate::validate_diags(g)),
    ensures
        sound(g),
{
    let tokens = g.token_list();
    let rules = g.rule_list();
    let defs = g.token_map();
    token_laws::lemma_tokens_checked(g);
    law_cycles_are_reported(defs);
    assert forall|i: int| 0 <= i < tokens.len() implies !taken_name(
        (#[trigger] tokens[i]).name,
    ) by {
        lemma_reserved(tokens[i].name);
        assert(!validate::reserved(tokens[i].name));
    }
    assert forall|i: int, j: int| 0 <= i < j < tokens.len() implies (#[trigger] tokens[i]).name
        != (#[trigger] tokens[j]).name by {
        assert(!validate::repeats_token(tokens, j));
    }
    assert forall|i: int| 0 <= i < rules.len() implies clean(
        (#[trigger] rules[i]).body,
        defs,
        g.rule_map(),
    ) by {
        closed::lemma_rule_checked(g, i);
        lemma_expr_refs(rules[i].body, defs, g.rule_map(), rules[i]);
        let l = validate::expr_ref_diags(rules[i].body, defs, g.rule_map(), rules[i]);
        if l.len() > 0 {
            assert(l[0].severity == Severity::Error);
        }
    }
    assert forall|i: int, n: Seq<char>|
        0 <= i < rules.len() && #[trigger] ref_laws::within(
            ExprView::Token(n),
            rules[i].body,
        ) implies (ir::lookup(defs, n) matches Some(t) && !t.is_fragment) by {
        assert(clean(rules[i].body, defs, g.rule_map()));
    }
    assert forall|i: int, n: Seq<char>|
        0 <= i < rules.len() && #[trigger] ref_laws::within(
            ExprView::Rule(n),
            rules[i].body,
        ) implies ir::lookup(g.rule_map(), n) is Some by {
        assert(clean(rules[i].body, defs, g.rule_map()));
    }
    assert forall|i: int, j: int| 0 <= i < j < rules.len() implies (#[trigger] rules[i]).name != (
    #[trigger] rules[j]).name by {
        closed::lemma_rule_checked(g, j);
    }
    assert forall|i: int, n: Seq<char>|
        0 <= i < tokens.len() && #[trigger] ref_laws::part_of(
            PatternView::Ref(n),
            tokens[i].pattern,
        ) implies ir::lookup(defs, n) is Some by {
        ref_laws::law_pattern_refs_are_in_the_pattern(tokens[i].pattern, n);
        assert(token_laws::refs_known(defs[i].1.pattern, defs));
    }
    lemma_last_checks(g);
}

/// What the last two checks say.
proof fn lemma_last_checks(g: Grammar)
    requires
        !diagnostic::any_error(validate::validate_diags(g)),
    ensures
        forall|i: int|
            0 <= i < g.rule_list().len() ==> !left_recursion::left_recursive(
                g.rule_list(),
                #[trigger] g.rule_list()[i],
            ),
        exists|i: int| 0 <= i < g.rule_list().len() && !(#[trigger] g.rule_list()[i]).is_fragment,
{
    let rules = g.rule_list();
    let each = |i: int| validate::left_recursion_diag(rules, rules[i]);
    let e = validate::gathered(each, rules.len());
    let f = validate::when(
        validate::only_fragments(rules),
        diagnostic::error_view(
            "grammar contains no non-fragment rules; nothing would be emitted"@,
        ),
    );
    let all = validate::validate_diags(g);
    let front = all.take(all.len() - f.len() - e.len());
    assert(all =~= front + e + f);
    closed::lemma_error_parts(front + e, f);
    closed::lemma_error_parts(front, e);
    if validate::only_fragments(rules) {
        assert(f[0].severity == Severity::Error);
    }
    assert forall|i: int| 0 <= i < rules.len() implies !left_recursion::left_recursive(
        rules,
        #[trigger] rules[i],
    ) by {
        closed::lemma_gathered_clean(each, rules.len(), i);
        if left_recursion::left_recursive(rules, rules[i]) {
            assert(each(i)[0].severity == Severity::Error);
        }
    }
}

proof fn lemma_sound_is_valid(g: Grammar)
    requires
        validate::well_named(g.token_map()),
        sound(g),
    ensures
        !diagnostic::any_error(validate::validate_diags(g)),
{
    let tokens = g.token_list();
    let rules = g.rule_list();
    let defs = g.token_map();
    let a0 = |i: int| validate::reserved_diag(tokens[i]);
    let a1 = |i: int| validate::when(
        validate::repeats_token(tokens, i),
        diagnostic::error_at("duplicate token: "@ + tokens[i].name, tokens[i].span),
    );
    let a2 = |i: int| validate::when(
        validate::repeats_rule(rules, i),
        diagnostic::error_at("duplicate rule: "@ + rules[i].name, rules[i].span),
    );
    let b = |i: int| validate::expr_ref_diags(rules[i].body, defs, g.rule_map(), rules[i]);
    let c = |i: int| validate::pattern_ref_diags(defs, tokens[i]);
    let e = |i: int| validate::left_recursion_diag(rules, rules[i]);
    assert forall|i: int| 0 <= i < tokens.len() implies (#[trigger] a0(i)).len() == 0 by {
        lemma_reserved(tokens[i].name);
        assert(!taken_name(tokens[i].name));
    }
    assert forall|i: int| 0 <= i < tokens.len() implies (#[trigger] a1(i)).len() == 0 by {
        if validate::repeats_token(tokens, i) {
            let j = choose|j: int| 0 <= j < i && (#[trigger] tokens[j]).name == tokens[i].name;
            assert(tokens[j].name != tokens[i].name);
        }
    }
    assert forall|i: int| 0 <= i < rules.len() implies (#[trigger] a2(i)).len() == 0 by {
        if validate::repeats_rule(rules, i) {
            let j = choose|j: int| 0 <= j < i && (#[trigger] rules[j]).name == rules[i].name;
            assert(rules[j].name != rules[i].name);
        }
    }
    assert forall|i: int| 0 <= i < rules.len() implies (#[trigger] b(i)).len() == 0 by {
        lemma_expr_refs(rules[i].body, defs, g.rule_map(), rules[i]);
    }
    assert forall|i: int| 0 <= i < tokens.len() implies (#[trigger] c(i)).len() == 0 by {
        let names = refs::pattern_refs(tokens[i].pattern);
        let one = |j: int| validate::pattern_ref_diag(names[j], defs, tokens[i]);
        assert forall|j: int| 0 <= j < names.len() implies (#[trigger] one(j)).len() == 0 by {
            ref_laws::law_pattern_refs_are_in_the_pattern(tokens[i].pattern, names[j]);
            assert(names.contains(names[j]));
            assert(ref_laws::part_of(PatternView::Ref(names[j]), tokens[i].pattern));
        }
        lemma_gathered_none(one, names.len());
    }
    assert forall|i: int| 0 <= i < rules.len() implies (#[trigger] e(i)).len() == 0 by {
        assert(!left_recursion::left_recursive(rules, rules[i]));
    }
    lemma_gathered_none(a0, tokens.len());
    lemma_gathered_none(a1, tokens.len());
    lemma_gathered_none(a2, rules.len());
    lemma_gathered_none(b, rules.len());
    lemma_gathered_none(c, tokens.len());
    lemma_gathered_none(e, rules.len());
    law_cycles_are_reported(defs);
    let i = choose|i: int| 0 <= i < rules.len() && !(#[trigger] rules[i]).is_fragment;
    assert(!validate::only_fragments(rules));
    assert(validate::validate_diags(g).len() == 0);
}

} // verus!
