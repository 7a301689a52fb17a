//! What a grammar derives: the marks that its rules give, each rule that is
//! no fragment between the marks that enter and leave it.
use vstd::prelude::*;

use crate::analysis::first_follow;
use crate::analysis::first_set::{self, NameSeq};
use crate::analysis::AnalyzedGrammar;
use crate::grammar::ir::{ExprView, RuleView, TokenView};
use crate::lowering::layout;
use crate::lowering::program;

verus! {

/// A mark of a derivation: a rule is entered or left, or a token is taken,
/// under the number of its label if it has one.
pub ghost enum Mark {
    Enter(u16),
    Exit(u16),
    Token(u16, Option<u16>),
}

/// What derivations speak of: the rules and tokens of a grammar, and its
/// labels in the order of their numbers.
pub ghost struct Terms {
    pub rules: Seq<RuleView>,
    pub tokens: Seq<TokenView>,
    pub labels: Seq<Seq<char>>,
}

/// A language of marks.
pub type Marks = spec_fn(Seq<Mark>) -> bool;

/// The language of each rule.
pub type Calls = spec_fn(Seq<char>, Seq<Mark>) -> bool;

/// The mark of a token.
pub open spec fn token_mark(t: Terms, n: Seq<char>, label: Option<Seq<char>>) -> Mark {
    Mark::Token(program::kind_of(t.tokens, n), layout::label_id(t.labels, label))
}

/// No mark is a token.
pub open spec fn tokenless(w: Seq<Mark>) -> bool {
    forall|i: int| 0 <= i < w.len() ==> !((#[trigger] w[i]) is Token)
}

/// A word of `a` and behind it one of `b`.
pub open spec fn joined(a: Marks, b: Marks, w: Seq<Mark>) -> bool {
    exists|m: int| 0 <= m <= w.len() && a(#[trigger] w.take(m)) && b(w.skip(m))
}

/// Words of `a` one behind the other, none at all being allowed.
pub open spec fn repeated(a: Marks, w: Seq<Mark>) -> bool
    decreases w.len(),
{
    w.len() == 0 || exists|m: int|
        0 < m <= w.len() && a(#[trigger] w.take(m)) && repeated(a, w.skip(m))
}

/// What the expression derives, if the rules derive what `c` says. An
/// alternative that can do without a token may be passed over without a mark.
pub open spec fn gives(t: Terms, c: Calls, e: ExprView, w: Seq<Mark>) -> bool
    decreases e, 0nat,
{
    match e {
        ExprView::Empty => w.len() == 0,
        ExprView::Token(n) => w == seq![token_mark(t, n, None)],
        ExprView::Rule(n) => c(n, w),
        ExprView::Concat(xs) => items_give(t, c, xs, w),
        ExprView::Alt(xs) => {
            ||| exists|i: int| 0 <= i < xs.len() && gives(t, c, #[trigger] xs[i], w)
            ||| w.len() == 0 && exists|i: int, v: Seq<Mark>|
                0 <= i < xs.len() && gives(t, c, #[trigger] xs[i], v) && #[trigger] tokenless(v)
        },
        ExprView::Opt(x) => w.len() == 0 || gives(t, c, *x, w),
        ExprView::Star(x) => star_gives(t, c, *x, w),
        ExprView::Plus(x) => exists|m: int|
            0 <= m <= w.len() && gives(t, c, *x, #[trigger] w.take(m)) && star_gives(
                t,
                c,
                *x,
                w.skip(m),
            ),
        ExprView::Label(name, x) => match *x {
            ExprView::Token(n) => w == seq![token_mark(t, n, Some(name))],
            _ => gives(t, c, *x, w),
        },
    }
}

/// What the expression derives, any number of times.
pub open spec fn star_gives(t: Terms, c: Calls, x: ExprView, w: Seq<Mark>) -> bool
    decreases x, 1 + w.len(),
{
    w.len() == 0 || exists|m: int|
        0 < m <= w.len() && gives(t, c, x, #[trigger] w.take(m)) && star_gives(
            t,
            c,
            x,
            w.skip(m),
        )
}

/// What the expressions derive one behind the other.
pub open spec fn items_give(t: Terms, c: Calls, xs: Seq<ExprView>, w: Seq<Mark>) -> bool
    decreases xs, 0nat,
{
    if xs.len() == 0 {
        w.len() == 0
    } else {
        exists|m: int|
            0 <= m <= w.len() && items_give(t, c, xs.drop_last(), #[trigger] w.take(m))
                && gives(t, c, xs.last(), w.skip(m))
    }
}

/// What an expression derives, as a language.
pub open spec fn given(t: Terms, c: Calls, e: ExprView) -> Marks {
    |v: Seq<Mark>| gives(t, c, e, v)
}

/// What expressions derive one behind the other, as a language.
pub open spec fn items_given(t: Terms, c: Calls, xs: Seq<ExprView>) -> Marks {
    |v: Seq<Mark>| items_give(t, c, xs, v)
}

/// Any number of words, as a language.
pub open spec fn again(a: Marks) -> Marks {
    |v: Seq<Mark>| repeated(a, v)
}

pub proof fn lemma_star(t: Terms, c: Calls, x: ExprView, w: Seq<Mark>)
    ensures
        star_gives(t, c, x, w) == repeated(given(t, c, x), w),
    decreases w.len(),
{
    let a = given(t, c, x);
    if w.len() > 0 {
        if star_gives(t, c, x, w) {
            let m = choose|m: int|
                0 < m <= w.len() && gives(t, c, x, #[trigger] w.take(m)) && star_gives(
                    t,
                    c,
                    x,
                    w.skip(m),
                );
            lemma_star(t, c, x, w.skip(m));
            assert(a(w.take(m)));
        }
        if repeated(a, w) {
            let m = choose|m: int|
                0 < m <= w.len() && a(#[trigger] w.take(m)) && repeated(a, w.skip(m));
            lemma_star(t, c, x, w.skip(m));
            assert(gives(t, c, x, w.take(m)));
        }
    }
}

pub proof fn lemma_plus(t: Terms, c: Calls, x: ExprView, w: Seq<Mark>)
    ensures
        gives(t, c, ExprView::Plus(Box::new(x)), w) == joined(
            given(t, c, x),
            again(given(t, c, x)),
            w,
        ),
{
    let e = ExprView::Plus(Box::new(x));
    let a = given(t, c, x);
    assert(*e->Plus_0 == x);
    if gives(t, c, e, w) {
        let m = choose|m: int|
            0 <= m <= w.len() && gives(t, c, x, #[trigger] w.take(m)) && star_gives(
                t,
                c,
                x,
                w.skip(m),
            );
        lemma_star(t, c, x, w.skip(m));
        assert(a(w.take(m)) && again(a)(w.skip(m)));
    }
    if joined(a, again(a), w) {
        let m = choose|m: int| 0 <= m <= w.len() && a(#[trigger] w.take(m)) && again(a)(w.skip(m));
        lemma_star(t, c, x, w.skip(m));
        assert(gives(t, c, x, w.take(m)));
    }
}

pub proof fn lemma_items(t: Terms, c: Calls, xs: Seq<ExprView>, w: Seq<Mark>)
    requires
        xs.len() > 0,
    ensures
        items_give(t, c, xs, w) == joined(
            items_given(t, c, xs.drop_last()),
            given(t, c, xs.last()),
            w,
        ),
{
    let a = items_given(t, c, xs.drop_last());
    let b = given(t, c, xs.last());
    if items_give(t, c, xs, w) {
        let m = choose|m: int|
            0 <= m <= w.len() && items_give(t, c, xs.drop_last(), #[trigger] w.take(m)) && gives(
                t,
                c,
                xs.last(),
                w.skip(m),
            );
        assert(a(w.take(m)) && b(w.skip(m)));
    }
    if joined(a, b, w) {
        let m = choose|m: int| 0 <= m <= w.len() && a(#[trigger] w.take(m)) && b(w.skip(m));
        assert(items_give(t, c, xs.drop_last(), w.take(m)));
    }
}

/// What the rule derives.
pub open spec fn rule_gives(t: Terms, c: Calls, r: RuleView, w: Seq<Mark>) -> bool {
    let kind = program::rule_kind(program::public_names(t.rules), r.name);
    if r.is_fragment {
        gives(t, c, r.body, w)
    } else {
        &&& w.len() >= 2
        &&& w[0] == Mark::Enter(kind)
        &&& w.last() == Mark::Exit(kind)
        &&& gives(t, c, r.body, w.subrange(1, w.len() - 1))
    }
}

/// What a rule of the name derives, if the rules in it derive what `c` says.
pub open spec fn named_gives(t: Terms, c: Calls, n: Seq<char>, w: Seq<Mark>) -> bool {
    exists|i: int|
        0 <= i < t.rules.len() && (#[trigger] t.rules[i]).name == n && rule_gives(
            t,
            c,
            t.rules[i],
            w,
        )
}

/// What the rules derive with rules nested at most `d` deep.
pub open spec fn deep(t: Terms, d: nat) -> Calls
    decreases d,
{
    if d == 0 {
        |n: Seq<char>, w: Seq<Mark>| false
    } else {
        let c = deep(t, (d - 1) as nat);
        |n: Seq<char>, w: Seq<Mark>| named_gives(t, c, n, w)
    }
}

/// A derivation with rules nested at most `d` deep is there.
pub open spec fn derived_at(t: Terms, n: Seq<char>, w: Seq<Mark>, d: nat) -> bool {
    deep(t, d)(n, w)
}

/// A rule of the name derives the marks.
pub open spec fn derives(t: Terms, n: Seq<char>, w: Seq<Mark>) -> bool {
    exists|d: nat| #[trigger] derived_at(t, n, w, d)
}

/// What the rules derive.
pub open spec fn derivable(t: Terms) -> Calls {
    |n: Seq<char>, w: Seq<Mark>| derives(t, n, w)
}

/// The language of each rule is no larger.
pub open spec fn calls_le(a: Calls, b: Calls) -> bool {
    forall|n: Seq<char>, w: Seq<Mark>| #[trigger] a(n, w) ==> b(n, w)
}

/// What the rules derive is in their languages.
pub open spec fn closed_calls(t: Terms, c: Calls) -> bool {
    forall|i: int, w: Seq<Mark>|
        0 <= i < t.rules.len() && #[trigger] rule_gives(t, c, t.rules[i], w) ==> c(
            t.rules[i].name,
            w,
        )
}

pub proof fn lemma_joined_mono(a: Marks, b: Marks, a2: Marks, b2: Marks, w: Seq<Mark>)
    requires
        joined(a, b, w),
        forall|v: Seq<Mark>| #[trigger] a(v) ==> a2(v),
        forall|v: Seq<Mark>| #[trigger] b(v) ==> b2(v),
    ensures
        joined(a2, b2, w),
{
    let m = choose|m: int| 0 <= m <= w.len() && a(#[trigger] w.take(m)) && b(w.skip(m));
    assert(a2(w.take(m)) && b2(w.skip(m)));
}

pub proof fn lemma_repeated_mono(a: Marks, a2: Marks, w: Seq<Mark>)
    requires
        repeated(a, w),
        forall|v: Seq<Mark>| #[trigger] a(v) ==> a2(v),
    ensures
        repeated(a2, w),
    decreases w.len(),
{
    if w.len() > 0 {
        let m = choose|m: int|
            0 < m <= w.len() && a(#[trigger] w.take(m)) && repeated(a, w.skip(m));
        lemma_repeated_mono(a, a2, w.skip(m));
        assert(a2(w.take(m)));
    }
}

/// Larger languages of the rules give larger ones of the expressions.
pub proof fn lemma_gives_mono(t: Terms, a: Calls, b: Calls, e: ExprView, w: Seq<Mark>)
    requires
        calls_le(a, b),
        gives(t, a, e, w),
    ensures
        gives(t, b, e, w),
    decreases e, 0nat,
{
    match e {
        ExprView::Concat(xs) => lemma_items_mono(t, a, b, xs, w),
        ExprView::Alt(xs) => {
            if exists|i: int| 0 <= i < xs.len() && gives(t, a, #[trigger] xs[i], w) {
                let i = choose|i: int| 0 <= i < xs.len() && gives(t, a, #[trigger] xs[i], w);
                lemma_gives_mono(t, a, b, xs[i], w);
            } else {
                let (i, v) = choose|i: int, v: Seq<Mark>|
                    0 <= i < xs.len() && gives(t, a, #[trigger] xs[i], v)
                        && #[trigger] tokenless(v);
                lemma_gives_mono(t, a, b, xs[i], v);
            }
        },
        ExprView::Opt(x) => {
            if w.len() > 0 {
                lemma_gives_mono(t, a, b, *x, w);
            }
        },
        ExprView::Star(x) => {
            lemma_given_mono(t, a, b, *x);
            lemma_star(t, a, *x, w);
            lemma_star(t, b, *x, w);
            lemma_repeated_mono(given(t, a, *x), given(t, b, *x), w);
        },
        ExprView::Plus(x) => {
            let la = given(t, a, *x);
            let lb = given(t, b, *x);
            lemma_given_mono(t, a, b, *x);
            lemma_plus(t, a, *x, w);
            lemma_plus(t, b, *x, w);
            assert forall|v: Seq<Mark>| #[trigger] again(la)(v) implies again(lb)(v) by {
                lemma_repeated_mono(la, lb, v);
            }
            lemma_joined_mono(la, again(la), lb, again(lb), w);
        },
        ExprView::Label(_, x) => {
            if !(*x is Token) {
                lemma_gives_mono(t, a, b, *x, w);
            }
        },
        _ => {},
    }
}

proof fn lemma_given_mono(t: Terms, a: Calls, b: Calls, e: ExprView)
    requires
        calls_le(a, b),
    ensures
        forall|v: Seq<Mark>| #[trigger] given(t, a, e)(v) ==> given(t, b, e)(v),
    decreases e, 1nat,
{
    assert forall|v: Seq<Mark>| #[trigger] given(t, a, e)(v) implies given(t, b, e)(v) by {
        lemma_gives_mono(t, a, b, e, v);
    }
}

proof fn lemma_items_mono(t: Terms, a: Calls, b: Calls, xs: Seq<ExprView>, w: Seq<Mark>)
    requires
        calls_le(a, b),
        items_give(t, a, xs, w),
    ensures
        items_give(t, b, xs, w),
    decreases xs, 0nat,
{
    if xs.len() > 0 {
        let ia = items_given(t, a, xs.drop_last());
        let ib = items_given(t, b, xs.drop_last());
        assert forall|v: Seq<Mark>| #[trigger] ia(v) implies ib(v) by {
            lemma_items_mono(t, a, b, xs.drop_last(), v);
        }
        lemma_given_mono(t, a, b, xs.last());
        lemma_items(t, a, xs, w);
        lemma_items(t, b, xs, w);
        lemma_joined_mono(ia, given(t, a, xs.last()), ib, given(t, b, xs.last()), w);
    }
}

proof fn lemma_rule_mono(t: Terms, a: Calls, b: Calls, r: RuleView, w: Seq<Mark>)
    requires
        calls_le(a, b),
        rule_gives(t, a, r, w),
    ensures
        rule_gives(t, b, r, w),
{
    if r.is_fragment {
        lemma_gives_mono(t, a, b, r.body, w);
    } else {
        lemma_gives_mono(t, a, b, r.body, w.subrange(1, w.len() - 1));
    }
}

/// More depth derives no less.
proof fn lemma_deeper(t: Terms, d: nat, d2: nat)
    requires
        d <= d2,
    ensures
        calls_le(deep(t, d), deep(t, d2)),
    decreases d2,
{
    if 0 < d {
        let a = deep(t, (d - 1) as nat);
        let b = deep(t, (d2 - 1) as nat);
        lemma_deeper(t, (d - 1) as nat, (d2 - 1) as nat);
        assert forall|n: Seq<char>, w: Seq<Mark>| #[trigger] deep(t, d)(n, w) implies deep(t, d2)(
            n,
            w,
        ) by {
            assert(named_gives(t, a, n, w));
            let i = choose|i: int|
                0 <= i < t.rules.len() && (#[trigger] t.rules[i]).name == n && rule_gives(
                    t,
                    a,
                    t.rules[i],
                    w,
                );
            lemma_rule_mono(t, a, b, t.rules[i], w);
            assert(named_gives(t, b, n, w));
        }
    }
}

proof fn lemma_joined_deep(
    t: Terms,
    x: ExprView,
    y: ExprView,
    w: Seq<Mark>,
    v: Seq<Mark>,
    d: nat,
    e: nat,
) -> (r: nat)
    requires
        gives(t, deep(t, d), x, w),
        gives(t, deep(t, e), y, v),
    ensures
        gives(t, deep(t, r), x, w),
        gives(t, deep(t, r), y, v),
        r >= d,
        r >= e,
{
    let r = if d >= e {
        d
    } else {
        e
    };
    lemma_deeper(t, d, r);
    lemma_deeper(t, e, r);
    lemma_gives_mono(t, deep(t, d), deep(t, r), x, w);
    lemma_gives_mono(t, deep(t, e), deep(t, r), y, v);
    r
}

/// What is derived is derived within some depth.
proof fn lemma_depth(t: Terms, e: ExprView, w: Seq<Mark>) -> (d: nat)
    requires
        gives(t, derivable(t), e, w),
    ensures
        gives(t, deep(t, d), e, w),
    decreases e, 0nat,
{
    let c = derivable(t);
    match e {
        ExprView::Rule(n) => {
            let d = choose|d: nat| #[trigger] derived_at(t, n, w, d);
            d
        },
        ExprView::Concat(xs) => lemma_items_depth(t, xs, w),
        ExprView::Alt(xs) => {
            if exists|i: int| 0 <= i < xs.len() && gives(t, c, #[trigger] xs[i], w) {
                let i = choose|i: int| 0 <= i < xs.len() && gives(t, c, #[trigger] xs[i], w);
                lemma_depth(t, xs[i], w)
            } else {
                let (i, v) = choose|i: int, v: Seq<Mark>|
                    0 <= i < xs.len() && gives(t, c, #[trigger] xs[i], v)
                        && #[trigger] tokenless(v);
                lemma_depth(t, xs[i], v)
            }
        },
        ExprView::Opt(x) => if w.len() > 0 {
            lemma_depth(t, *x, w)
        } else {
            0
        },
        ExprView::Star(x) => lemma_star_depth(t, *x, w),
        ExprView::Plus(x) => {
            let m = choose|m: int|
                0 <= m <= w.len() && gives(t, c, *x, #[trigger] w.take(m)) && star_gives(
                    t,
                    c,
                    *x,
                    w.skip(m),
                );
            let d1 = lemma_depth(t, *x, w.take(m));
            let d2 = lemma_star_depth(t, *x, w.skip(m));
            let star = ExprView::Star(x);
            assert(gives(t, deep(t, d2), star, w.skip(m)));
            lemma_joined_deep(t, *x, star, w.take(m), w.skip(m), d1, d2)
        },
        ExprView::Label(_, x) => if *x is Token {
            0
        } else {
            lemma_depth(t, *x, w)
        },
        _ => 0,
    }
}

proof fn lemma_star_depth(t: Terms, x: ExprView, w: Seq<Mark>) -> (d: nat)
    requires
        star_gives(t, derivable(t), x, w),
    ensures
        star_gives(t, deep(t, d), x, w),
    decreases x, 1 + w.len(),
{
    let c = derivable(t);
    if w.len() == 0 {
        0
    } else {
        let m = choose|m: int|
            0 < m <= w.len() && gives(t, c, x, #[trigger] w.take(m)) && star_gives(
                t,
                c,
                x,
                w.skip(m),
            );
        let d1 = lemma_depth(t, x, w.take(m));
        let d2 = lemma_star_depth(t, x, w.skip(m));
        let star = ExprView::Star(Box::new(x));
        assert(gives(t, deep(t, d2), star, w.skip(m)));
        let d = lemma_joined_deep(t, x, star, w.take(m), w.skip(m), d1, d2);
        assert(star_gives(t, deep(t, d), x, w.skip(m)));
        d
    }
}

proof fn lemma_items_depth(t: Terms, xs: Seq<ExprView>, w: Seq<Mark>) -> (d: nat)
    requires
        items_give(t, derivable(t), xs, w),
    ensures
        items_give(t, deep(t, d), xs, w),
    decreases xs, 0nat,
{
    let c = derivable(t);
    if xs.len() == 0 {
        0
    } else {
        let m = choose|m: int|
            0 <= m <= w.len() && items_give(t, c, xs.drop_last(), #[trigger] w.take(m)) && gives(
                t,
                c,
                xs.last(),
                w.skip(m),
            );
        let d1 = lemma_items_depth(t, xs.drop_last(), w.take(m));
        let d2 = lemma_depth(t, xs.last(), w.skip(m));
        let all = ExprView::Concat(xs.drop_last());
        assert(gives(t, deep(t, d1), all, w.take(m)));
        let d = lemma_joined_deep(t, all, xs.last(), w.take(m), w.skip(m), d1, d2);
        assert(items_give(t, deep(t, d), xs.drop_last(), w.take(m)));
        d
    }
}

/// What the rules derive from what they derive, they derive.
pub proof fn lemma_derivable_closed(t: Terms)
    ensures
        closed_calls(t, derivable(t)),
{
    let c = derivable(t);
    assert forall|i: int, w: Seq<Mark>|
        0 <= i < t.rules.len() && #[trigger] rule_gives(t, c, t.rules[i], w) implies c(
        t.rules[i].name,
        w,
    ) by {
        let r = t.rules[i];
        let d = lemma_depth(
            t,
            r.body,
            if r.is_fragment {
                w
            } else {
                w.subrange(1, w.len() - 1)
            },
        );
        assert(rule_gives(t, deep(t, d), r, w));
        assert(named_gives(t, deep(t, d), r.name, w));
        assert(derived_at(t, r.name, w, (d + 1) as nat));
    }
}

/// The expression can do without a token.
pub open spec fn blank(t: Terms, c: Calls, e: ExprView) -> bool {
    exists|v: Seq<Mark>| gives(t, c, e, v) && #[trigger] tokenless(v)
}

/// A rule can do without a token.
spec fn blank_call(c: Calls, n: Seq<char>) -> bool {
    exists|v: Seq<Mark>| c(n, v) && #[trigger] tokenless(v)
}

/// The rules that can do without a token.
spec fn blank_rules(c: Calls) -> Map<Seq<char>, bool> {
    Map::new(|n: Seq<char>| true, |n: Seq<char>| blank_call(c, n))
}

/// Every sequence, but the empty one only for rules that can do without a
/// token.
spec fn blank_firsts(c: Calls) -> Map<Seq<char>, Set<NameSeq>> {
    Map::new(
        |n: Seq<char>| true,
        |n: Seq<char>| Set::new(|s: NameSeq| s.len() > 0 || blank_call(c, n)),
    )
}

proof fn lemma_tokenless_joined(a: Seq<Mark>, b: Seq<Mark>)
    requires
        tokenless(a),
        tokenless(b),
    ensures
        tokenless(a + b),
{
    assert forall|i: int| 0 <= i < (a + b).len() implies !((#[trigger] (a + b)[i]) is Token) by {
        if i < a.len() {
            assert((a + b)[i] == a[i]);
        } else {
            assert((a + b)[i] == b[i - a.len()]);
        }
    }
}

proof fn lemma_empty_parts(a: Set<NameSeq>, b: Set<NameSeq>, k: nat)
    requires
        k >= 1,
        first_set::concat_k_of(a, b, k).contains(Seq::empty()),
    ensures
        a.contains(Seq::empty()),
        b.contains(Seq::empty()),
{
    let e = Seq::<Seq<char>>::empty();
    let (x, y) = choose|x: NameSeq, y: NameSeq|
        first_set::joins(a, b, k, x, y) && e == first_set::cut(x + y, k);
    assert((x + y).len() == x.len() + y.len());
    assert(first_set::cut(x + y, k).len() == 0);
    assert(x =~= e && y =~= e);
}

proof fn lemma_blank_expr(t: Terms, c: Calls, e: ExprView, k: nat)
    requires
        k >= 1,
        first_follow::first_expr(e, blank_rules(c), blank_firsts(c), k).contains(Seq::empty()),
    ensures
        blank(t, c, e),
    decreases e, 0nat,
{
    let none = Seq::<Mark>::empty();
    assert(tokenless(none));
    match e {
        ExprView::Empty => {
            assert(gives(t, c, e, none));
        },
        ExprView::Token(n) => {
            assert(seq![n].len() == 1);
            assert(false);
        },
        ExprView::Rule(n) => {
            let v = choose|v: Seq<Mark>| c(n, v) && #[trigger] tokenless(v);
            assert(gives(t, c, e, v));
        },
        ExprView::Concat(xs) => {
            lemma_blank_items(t, c, xs, k);
            let v = choose|v: Seq<Mark>| items_give(t, c, xs, v) && #[trigger] tokenless(v);
            assert(gives(t, c, e, v));
        },
        ExprView::Alt(xs) => {
            let i = choose|i: int|
                0 <= i < xs.len() && first_follow::first_expr(
                    #[trigger] xs[i],
                    blank_rules(c),
                    blank_firsts(c),
                    k,
                ).contains(Seq::empty());
            lemma_blank_expr(t, c, xs[i], k);
            let v = choose|v: Seq<Mark>| gives(t, c, xs[i], v) && #[trigger] tokenless(v);
            assert(gives(t, c, e, v));
        },
        ExprView::Opt(_) => {
            assert(gives(t, c, e, none));
        },
        ExprView::Star(x) => {
            assert(star_gives(t, c, *x, none));
            assert(gives(t, c, e, none));
        },
        ExprView::Plus(x) => {
            let inner = first_follow::first_expr(*x, blank_rules(c), blank_firsts(c), k);
            lemma_empty_parts(inner, first_set::star_k_of(inner, k), k);
            lemma_blank_expr(t, c, *x, k);
            let v = choose|v: Seq<Mark>| gives(t, c, *x, v) && #[trigger] tokenless(v);
            assert(v.take(v.len() as int) =~= v);
            assert(star_gives(t, c, *x, v.skip(v.len() as int)));
            assert(gives(t, c, e, v));
        },
        ExprView::Label(name, x) => {
            lemma_blank_expr(t, c, *x, k);
            let v = choose|v: Seq<Mark>| gives(t, c, *x, v) && #[trigger] tokenless(v);
            if let ExprView::Token(n) = *x {
                assert(v[0] == token_mark(t, n, None));
            } else {
                assert(gives(t, c, e, v));
            }
        },
    }
}

proof fn lemma_blank_items(t: Terms, c: Calls, xs: Seq<ExprView>, k: nat)
    requires
        k >= 1,
        first_follow::first_concat(xs, blank_rules(c), blank_firsts(c), k).contains(Seq::empty()),
    ensures
        exists|v: Seq<Mark>| items_give(t, c, xs, v) && #[trigger] tokenless(v),
    decreases xs, 0nat,
{
    if xs.len() == 0 {
        let none = Seq::<Mark>::empty();
        assert(tokenless(none) && items_give(t, c, xs, none));
    } else {
        let before = xs.drop_last();
        lemma_empty_parts(
            first_follow::first_concat(before, blank_rules(c), blank_firsts(c), k),
            first_follow::first_expr(xs.last(), blank_rules(c), blank_firsts(c), k),
            k,
        );
        lemma_blank_items(t, c, before, k);
        lemma_blank_expr(t, c, xs.last(), k);
        let a = choose|v: Seq<Mark>| items_give(t, c, before, v) && #[trigger] tokenless(v);
        let b = choose|v: Seq<Mark>| gives(t, c, xs.last(), v) && #[trigger] tokenless(v);
        let v = a + b;
        lemma_tokenless_joined(a, b);
        assert(v.take(a.len() as int) =~= a);
        assert(v.skip(a.len() as int) =~= b);
        assert(items_give(t, c, xs, v));
    }
}

/// An expression whose FIRST set holds the empty sequence can do without a
/// token.
pub proof fn lemma_blank(t: Terms, c: Calls, ag: AnalyzedGrammar, e: ExprView)
    requires
        ag.wf(),
        t.rules == ag.grammar.rule_list(),
        closed_calls(t, c),
        program::first_in(ag, e).contains(Seq::empty()),
    ensures
        blank(t, c, e),
{
    let k = ag.k as nat;
    let n2 = blank_rules(c);
    let f2 = blank_firsts(c);
    assert forall|i: int| 0 <= i < t.rules.len() implies first_follow::rule_closed(
        #[trigger] t.rules[i],
        k,
        n2,
        f2,
    ) by {
        let r = t.rules[i];
        let s = first_follow::first_expr(r.body, n2, f2, k);
        if s.contains(Seq::empty()) {
            lemma_blank_expr(t, c, r.body, k);
            let v = choose|v: Seq<Mark>| gives(t, c, r.body, v) && #[trigger] tokenless(v);
            if r.is_fragment {
                assert(rule_gives(t, c, t.rules[i], v));
            } else {
                let kind = program::rule_kind(program::public_names(t.rules), r.name);
                let w = seq![Mark::Enter(kind)] + v + seq![Mark::Exit(kind)];
                assert(w.subrange(1, w.len() - 1) =~= v);
                assert(rule_gives(t, c, t.rules[i], w));
                lemma_tokenless_joined(seq![Mark::Enter(kind)], v);
                lemma_tokenless_joined(seq![Mark::Enter(kind)] + v, seq![Mark::Exit(kind)]);
            }
            assert(blank_call(c, r.name));
        }
        assert forall|x: NameSeq| #[trigger] s.contains(x) implies first_follow::set_at(
            f2,
            r.name,
        ).contains(x) by {
            if x.len() == 0 {
                assert(x =~= Seq::empty());
            }
        }
    }
    assert(first_follow::first_closed(t.rules, k, n2, f2));
    first_follow::lemma_first_mono(
        e,
        ag.nullable@,
        first_follow::firsts(ag.first),
        n2,
        f2,
        k,
    );
    lemma_blank_expr(t, c, e, k);
}

} // verus!
