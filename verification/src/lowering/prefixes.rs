//! FIRST sets hold what derivations begin with.
use vstd::prelude::*;

use crate::analysis::first_follow;
use crate::analysis::first_set::{self, NameSeq};
use crate::analysis::AnalyzedGrammar;
use crate::grammar::ir::ExprView;
use crate::lowering::derivation::{self, Mark, Terms};
use crate::lowering::program;

verus! {

/// The kinds of the tokens among the marks.
pub open spec fn token_kinds(w: Seq<Mark>) -> Seq<u16>
    decreases w.len(),
{
    if w.len() == 0 {
        Seq::empty()
    } else {
        let rest = token_kinds(w.skip(1));
        match w[0] {
            Mark::Token(k, _) => seq![k] + rest,
            _ => rest,
        }
    }
}

/// At most the first `k`.
pub open spec fn first_kinds(l: Seq<u16>, k: nat) -> Seq<u16> {
    if l.len() <= k {
        l
    } else {
        l.take(k as int)
    }
}

/// The set holds the names of the first `k` tokens.
pub open spec fn foreseen(t: Terms, f: Set<NameSeq>, k: nat, w: Seq<Mark>) -> bool {
    exists|s: NameSeq|
        f.contains(s) && #[trigger] program::kinds_of(t.tokens, s) == first_kinds(
            token_kinds(w),
            k,
        )
}

pub proof fn lemma_kinds_joined(a: Seq<Mark>, b: Seq<Mark>)
    ensures
        token_kinds(a + b) == token_kinds(a) + token_kinds(b),
    decreases a.len(),
{
    if a.len() == 0 {
        assert(a + b =~= b);
        assert(token_kinds(a) + token_kinds(b) =~= token_kinds(b));
    } else {
        assert((a + b).skip(1) =~= a.skip(1) + b);
        assert((a + b)[0] == a[0]);
        lemma_kinds_joined(a.skip(1), b);
        let rest = token_kinds(a.skip(1)) + token_kinds(b);
        if let Mark::Token(k, _) = a[0] {
            assert(seq![k] + rest =~= token_kinds(a) + token_kinds(b));
        }
    }
}

pub proof fn lemma_one_kind(m: Mark)
    ensures
        token_kinds(seq![m]) == match m {
            Mark::Token(k, _) => seq![k],
            _ => Seq::<u16>::empty(),
        },
{
    reveal_with_fuel(token_kinds, 2);
    let one = seq![m];
    assert(one.skip(1) =~= Seq::<Mark>::empty());
    assert(one[0] == m);
    if let Mark::Token(k, _) = m {
        assert(seq![k] + Seq::<u16>::empty() =~= seq![k]);
    }
}

pub proof fn lemma_tokenless(w: Seq<Mark>)
    requires
        derivation::tokenless(w),
    ensures
        token_kinds(w).len() == 0,
    decreases w.len(),
{
    if w.len() > 0 {
        assert forall|i: int| 0 <= i < w.skip(1).len() implies !((#[trigger] w.skip(1)[i])
            is Token) by {
            assert(w.skip(1)[i] == w[i + 1]);
        }
        lemma_tokenless(w.skip(1));
    }
}

/// What stands behind is foreseen by the concatenation.
pub proof fn lemma_concat(
    t: Terms,
    a: Set<NameSeq>,
    b: Set<NameSeq>,
    k: nat,
    u: Seq<Mark>,
    v: Seq<Mark>,
)
    requires
        foreseen(t, a, k, u),
        foreseen(t, b, k, v),
    ensures
        foreseen(t, first_set::concat_k_of(a, b, k), k, u + v),
{
    let x = choose|s: NameSeq|
        a.contains(s) && #[trigger] program::kinds_of(t.tokens, s) == first_kinds(
            token_kinds(u),
            k,
        );
    let y = choose|s: NameSeq|
        b.contains(s) && #[trigger] program::kinds_of(t.tokens, s) == first_kinds(
            token_kinds(v),
            k,
        );
    lemma_kinds_joined(u, v);
    let all = token_kinds(u) + token_kinds(v);
    let kx = program::kinds_of(t.tokens, x);
    let ky = program::kinds_of(t.tokens, y);
    assert(kx.len() == x.len() && ky.len() == y.len());
    if x.len() >= k {
        assert(first_kinds(all, k) =~= kx);
        assert(first_set::concat_k_of(a, b, k).contains(x));
    } else {
        let s = first_set::cut(x + y, k);
        assert(first_set::joins(a, b, k, x, y));
        assert(first_set::concat_k_of(a, b, k).contains(s));
        let ks = program::kinds_of(t.tokens, s);
        assert(ks =~= first_kinds(all, k)) by {
            assert(kx == token_kinds(u));
            assert(ks.len() == s.len());
            assert((x + y).len() == x.len() + y.len());
            assert(ks.len() == first_kinds(all, k).len());
            assert forall|i: int| 0 <= i < ks.len() implies ks[i] == first_kinds(all, k)[i] by {
                assert(ks[i] == program::kind_of(t.tokens, s[i]));
                assert(s[i] == (x + y)[i]);
                if i < x.len() {
                    assert(kx[i] == program::kind_of(t.tokens, x[i]));
                } else {
                    assert(ky[i - x.len()] == program::kind_of(t.tokens, y[i - x.len()]));
                }
            }
        }
    }
}

/// Some rounds of a loop, and more of them.
pub proof fn lemma_star(
    t: Terms,
    ag: AnalyzedGrammar,
    d: nat,
    x: ExprView,
    n: nat,
    u: Seq<Mark>,
    w: Seq<Mark>,
)
    requires
        known(t, ag),
        derivation::star_gives(t, derivation::deep(t, d), x, w),
        foreseen(
            t,
            first_set::star_n(program::first_in(ag, x), ag.k as nat, n),
            ag.k as nat,
            u,
        ),
    ensures
        foreseen(
            t,
            first_set::star_k_of(program::first_in(ag, x), ag.k as nat),
            ag.k as nat,
            u + w,
        ),
    decreases 2 * d, x, 1 + w.len(),
{
    let k = ag.k as nat;
    let inner = program::first_in(ag, x);
    let c = derivation::deep(t, d);
    if w.len() == 0 {
        assert(u + w =~= u);
        let s = choose|s: NameSeq|
            first_set::star_n(inner, k, n).contains(s) && #[trigger] program::kinds_of(t.tokens, s)
                == first_kinds(token_kinds(u), k);
        assert(first_set::star_k_of(inner, k).contains(s));
    } else {
        let m = choose|m: int|
            0 < m <= w.len() && derivation::gives(t, c, x, #[trigger] w.take(m))
                && derivation::star_gives(t, c, x, w.skip(m));
        lemma_expr(t, ag, d, x, w.take(m));
        let prev = first_set::star_n(inner, k, n);
        lemma_concat(t, prev, inner, k, u, w.take(m));
        let v = u + w.take(m);
        let s = choose|s: NameSeq|
            first_set::concat_k_of(prev, inner, k).contains(s)
                && #[trigger] program::kinds_of(t.tokens, s) == first_kinds(token_kinds(v), k);
        assert(first_set::star_n(inner, k, n + 1).contains(s));
        lemma_star(t, ag, d, x, n + 1, v, w.skip(m));
        assert(v + w.skip(m) =~= u + w);
    }
}

/// The terms are those of the grammar.
pub open spec fn known(t: Terms, ag: AnalyzedGrammar) -> bool {
    ag.wf() && t.rules == ag.grammar.rule_list() && t.tokens == ag.grammar.token_list()
}

/// FIRST(k) of an expression holds the first `k` tokens of whatever it derives.
pub proof fn lemma_expr(t: Terms, ag: AnalyzedGrammar, d: nat, e: ExprView, w: Seq<Mark>)
    requires
        known(t, ag),
        derivation::gives(t, derivation::deep(t, d), e, w),
    ensures
        foreseen(t, program::first_in(ag, e), ag.k as nat, w),
    decreases 2 * d, e, 0nat,
{
    let k = ag.k as nat;
    let c = derivation::deep(t, d);
    let nulls = ag.nullable@;
    let f = first_follow::firsts(ag.first);
    let none = Seq::<Seq<char>>::empty();
    assert(program::kinds_of(t.tokens, none) =~= Seq::<u16>::empty());
    match e {
        ExprView::Empty => {
            assert(first_follow::only_eps().contains(none));
        },
        ExprView::Token(n) => lemma_token(t, ag, n, None, w),
        ExprView::Rule(n) => lemma_named(t, ag, d, n, w),
        ExprView::Concat(xs) => {
            lemma_items(t, ag, d, xs, w);
            first_follow::lemma_first_concat(xs, nulls, f, k);
        },
        ExprView::Alt(xs) => {
            if exists|i: int| 0 <= i < xs.len() && derivation::gives(t, c, #[trigger] xs[i], w) {
                let i = choose|i: int|
                    0 <= i < xs.len() && derivation::gives(t, c, #[trigger] xs[i], w);
                lemma_expr(t, ag, d, xs[i], w);
                lemma_in_alt(t, ag, xs, i, w);
            } else {
                let (i, v) = choose|i: int, v: Seq<Mark>|
                    0 <= i < xs.len() && derivation::gives(t, c, #[trigger] xs[i], v)
                        && #[trigger] derivation::tokenless(v);
                lemma_expr(t, ag, d, xs[i], v);
                lemma_tokenless(v);
                assert(token_kinds(v) =~= token_kinds(w));
                lemma_in_alt(t, ag, xs, i, w);
            }
        },
        ExprView::Opt(x) => {
            if w.len() == 0 {
                assert(program::first_in(ag, e).contains(none));
            } else {
                lemma_expr(t, ag, d, *x, w);
                let s = choose|s: NameSeq|
                    program::first_in(ag, *x).contains(s)
                        && #[trigger] program::kinds_of(t.tokens, s) == first_kinds(
                        token_kinds(w),
                        k,
                    );
                assert(program::first_in(ag, e).contains(s));
            }
        },
        ExprView::Star(x) => lemma_loop(t, ag, d, *x, w),
        ExprView::Plus(x) => {
            let m = choose|m: int|
                0 <= m <= w.len() && derivation::gives(t, c, *x, #[trigger] w.take(m))
                    && derivation::star_gives(t, c, *x, w.skip(m));
            lemma_expr(t, ag, d, *x, w.take(m));
            lemma_loop(t, ag, d, *x, w.skip(m));
            let inner = program::first_in(ag, *x);
            lemma_concat(
                t,
                inner,
                first_set::star_k_of(inner, k),
                k,
                w.take(m),
                w.skip(m),
            );
            assert(w.take(m) + w.skip(m) =~= w);
        },
        ExprView::Label(name, x) => {
            if let ExprView::Token(n) = *x {
                lemma_token(t, ag, n, Some(name), w);
            } else {
                lemma_expr(t, ag, d, *x, w);
            }
        },
    }
}

proof fn lemma_loop(t: Terms, ag: AnalyzedGrammar, d: nat, x: ExprView, w: Seq<Mark>)
    requires
        known(t, ag),
        derivation::star_gives(t, derivation::deep(t, d), x, w),
    ensures
        foreseen(
            t,
            first_set::star_k_of(program::first_in(ag, x), ag.k as nat),
            ag.k as nat,
            w,
        ),
    decreases 2 * d, x, 2 + w.len(),
{
    let k = ag.k as nat;
    let inner = program::first_in(ag, x);
    let none = Seq::<Seq<char>>::empty();
    assert(program::kinds_of(t.tokens, none) =~= Seq::<u16>::empty());
    assert(first_set::star_n(inner, k, 0).contains(none));
    let u = Seq::<Mark>::empty();
    lemma_star(t, ag, d, x, 0, u, w);
    assert(u + w =~= w);
}

proof fn lemma_token(
    t: Terms,
    ag: AnalyzedGrammar,
    n: Seq<char>,
    label: Option<Seq<char>>,
    w: Seq<Mark>,
)
    requires
        known(t, ag),
        w == seq![derivation::token_mark(t, n, label)],
    ensures
        foreseen(t, program::first_in(ag, ExprView::Token(n)), ag.k as nat, w),
{
    lemma_one_kind(derivation::token_mark(t, n, label));
    let s = seq![n];
    assert(program::kinds_of(t.tokens, s) =~= first_kinds(token_kinds(w), ag.k as nat));
    assert(program::first_in(ag, ExprView::Token(n)).contains(s));
}

proof fn lemma_in_alt(t: Terms, ag: AnalyzedGrammar, xs: Seq<ExprView>, i: int, w: Seq<Mark>)
    requires
        0 <= i < xs.len(),
        foreseen(t, program::first_in(ag, xs[i]), ag.k as nat, w),
    ensures
        foreseen(t, program::first_in(ag, ExprView::Alt(xs)), ag.k as nat, w),
{
    let s = choose|s: NameSeq|
        program::first_in(ag, xs[i]).contains(s) && #[trigger] program::kinds_of(t.tokens, s)
            == first_kinds(token_kinds(w), ag.k as nat);
    first_follow::lemma_first_alt(
        xs,
        ag.nullable@,
        first_follow::firsts(ag.first),
        ag.k as nat,
        s,
    );
}

proof fn lemma_items(t: Terms, ag: AnalyzedGrammar, d: nat, xs: Seq<ExprView>, w: Seq<Mark>)
    requires
        known(t, ag),
        derivation::items_give(t, derivation::deep(t, d), xs, w),
    ensures
        foreseen(
            t,
            first_follow::first_concat(
                xs,
                ag.nullable@,
                first_follow::firsts(ag.first),
                ag.k as nat,
            ),
            ag.k as nat,
            w,
        ),
    decreases 2 * d, xs, 0nat,
{
    let c = derivation::deep(t, d);
    let nulls = ag.nullable@;
    let f = first_follow::firsts(ag.first);
    let k = ag.k as nat;
    if xs.len() == 0 {
        let none = Seq::<Seq<char>>::empty();
        assert(program::kinds_of(t.tokens, none) =~= Seq::<u16>::empty());
        assert(first_follow::only_eps().contains(none));
    } else {
        let m = choose|m: int|
            0 <= m <= w.len() && derivation::items_give(t, c, xs.drop_last(), #[trigger] w.take(m))
                && derivation::gives(t, c, xs.last(), w.skip(m));
        lemma_items(t, ag, d, xs.drop_last(), w.take(m));
        lemma_expr(t, ag, d, xs.last(), w.skip(m));
        lemma_concat(
            t,
            first_follow::first_concat(xs.drop_last(), nulls, f, k),
            first_follow::first_expr(xs.last(), nulls, f, k),
            k,
            w.take(m),
            w.skip(m),
        );
        assert(w.take(m) + w.skip(m) =~= w);
    }
}

proof fn lemma_named(t: Terms, ag: AnalyzedGrammar, d: nat, n: Seq<char>, w: Seq<Mark>)
    requires
        known(t, ag),
        derivation::deep(t, d)(n, w),
    ensures
        foreseen(t, program::first_in(ag, ExprView::Rule(n)), ag.k as nat, w),
        foreseen(
            t,
            first_follow::set_at(first_follow::firsts(ag.first), n),
            ag.k as nat,
            w,
        ),
    decreases 2 * d - 1, ExprView::Rule(n), 0nat,
{
    let k = ag.k as nat;
    let nulls = ag.nullable@;
    let f = first_follow::firsts(ag.first);
    assert(d > 0);
    let c = derivation::deep(t, (d - 1) as nat);
    assert(derivation::named_gives(t, c, n, w));
    let i = choose|i: int|
        0 <= i < t.rules.len() && (#[trigger] t.rules[i]).name == n && derivation::rule_gives(
            t,
            c,
            t.rules[i],
            w,
        );
    let r = t.rules[i];
    let v = if r.is_fragment {
        w
    } else {
        w.subrange(1, w.len() - 1)
    };
    lemma_expr(t, ag, (d - 1) as nat, r.body, v);
    if !r.is_fragment {
        let a = seq![w[0]];
        let b = seq![w.last()];
        assert(w =~= a + v + b);
        lemma_kinds_joined(a + v, b);
        lemma_kinds_joined(a, v);
        lemma_one_kind(w[0]);
        lemma_one_kind(w.last());
        assert(token_kinds(w) =~= token_kinds(v));
    }
    assert(first_follow::rule_closed(t.rules[i], k, nulls, f));
    let s = choose|s: NameSeq|
        program::first_in(ag, r.body).contains(s) && #[trigger] program::kinds_of(t.tokens, s)
            == first_kinds(token_kinds(v), k);
    assert(first_follow::set_at(f, n).contains(s));
    assert(program::first_in(ag, ExprView::Rule(n)).contains(s));
}

/// FIRST(k) of a rule holds the first `k` tokens of whatever it derives.
pub proof fn law_first_holds_what_derivations_begin_with(
    t: Terms,
    ag: AnalyzedGrammar,
    n: Seq<char>,
    w: Seq<Mark>,
)
    requires
        known(t, ag),
        derivation::derives(t, n, w),
    ensures
        foreseen(
            t,
            first_follow::set_at(first_follow::firsts(ag.first), n),
            ag.k as nat,
            w,
        ),
{
    let d = choose|d: nat| #[trigger] derivation::derived_at(t, n, w, d);
    lemma_named(t, ag, d, n, w);
}

} // verus!
