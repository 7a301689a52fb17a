//! What holds of FIRST sets and of the operations that they are made with.
use vstd::prelude::*;

use crate::analysis::first_follow::{self, Firsts, Nulls};
use crate::analysis::first_set::{self, NameSeq};
use crate::analysis::follow;
use crate::analysis::universe;
use crate::grammar::ir::{ExprView, RuleView};

verus! {

/// What is cut off behind does not matter.
proof fn lemma_cut_right(x: NameSeq, y: NameSeq, k: nat)
    ensures
        first_set::cut(x + first_set::cut(y, k), k) == first_set::cut(x + y, k),
{
    assert(first_set::cut(x + first_set::cut(y, k), k) =~= first_set::cut(x + y, k));
}

proof fn lemma_cut_left(x: NameSeq, y: NameSeq, k: nat)
    ensures
        first_set::cut(first_set::cut(x, k) + y, k) == first_set::cut(x + y, k),
{
    assert(first_set::cut(first_set::cut(x, k) + y, k) =~= first_set::cut(x + y, k));
}

/// A sequence that is long enough stays as it is.
proof fn lemma_cut_long(x: NameSeq, y: NameSeq, k: nat)
    requires
        x.len() >= k,
    ensures
        first_set::cut(x + y, k) == first_set::cut(x, k),
{
    assert(first_set::cut(x + y, k) =~= first_set::cut(x, k));
}

/// A sequence of the concatenation comes of one of each set, or is one of the
/// first that is long enough.
proof fn lemma_joined(a: Set<NameSeq>, b: Set<NameSeq>, k: nat, x: NameSeq, y: NameSeq)
    requires
        a.contains(x),
        b.contains(y),
        x.len() <= k,
    ensures
        first_set::concat_k_of(a, b, k).contains(first_set::cut(x + y, k)),
{
    if x.len() < k {
        assert(first_set::joins(a, b, k, x, y));
    } else {
        lemma_cut_long(x, y, k);
        assert(first_set::cut(x, k) == x);
    }
}

/// Length-bounded concatenation is associative on sets that are not empty and
/// hold no sequence that is longer than the bound.
pub proof fn law_concat_is_associative(
    a: Set<NameSeq>,
    b: Set<NameSeq>,
    c: Set<NameSeq>,
    k: nat,
)
    requires
        forall|s: NameSeq| #[trigger] a.contains(s) ==> s.len() <= k,
        forall|s: NameSeq| #[trigger] b.contains(s) ==> s.len() <= k,
        exists|s: NameSeq| c.contains(s),
    ensures
        first_set::concat_k_of(first_set::concat_k_of(a, b, k), c, k) == first_set::concat_k_of(
            a,
            first_set::concat_k_of(b, c, k),
            k,
        ),
{
    let ab = first_set::concat_k_of(a, b, k);
    let bc = first_set::concat_k_of(b, c, k);
    let l = first_set::concat_k_of(ab, c, k);
    let r = first_set::concat_k_of(a, bc, k);
    let any = choose|s: NameSeq| c.contains(s);
    assert forall|s: NameSeq| l.contains(s) implies r.contains(s) by {
        if ab.contains(s) && s.len() >= k {
            if !(a.contains(s) && s.len() >= k) {
                let (x, y) = choose|x: NameSeq, y: NameSeq|
                    first_set::joins(a, b, k, x, y) && s == first_set::cut(x + y, k);
                lemma_joined(b, c, k, y, any);
                lemma_cut_right(x, y + any, k);
                assert(x + (y + any) =~= (x + y) + any);
                lemma_cut_long(x + y, any, k);
                lemma_joined(a, bc, k, x, first_set::cut(y + any, k));
            }
        } else {
            let (p, z) = choose|p: NameSeq, z: NameSeq|
                first_set::joins(ab, c, k, p, z) && s == first_set::cut(p + z, k);
            let (x, y) = choose|x: NameSeq, y: NameSeq|
                first_set::joins(a, b, k, x, y) && p == first_set::cut(x + y, k);
            assert(p == x + y);
            lemma_joined(b, c, k, y, z);
            lemma_cut_right(x, y + z, k);
            assert(x + (y + z) =~= p + z);
            lemma_joined(a, bc, k, x, first_set::cut(y + z, k));
        }
    }
    assert forall|s: NameSeq| r.contains(s) implies l.contains(s) by {
        if a.contains(s) && s.len() >= k {
            assert(ab.contains(s));
        } else {
            let (x, w) = choose|x: NameSeq, w: NameSeq|
                first_set::joins(a, bc, k, x, w) && s == first_set::cut(x + w, k);
            if b.contains(w) && w.len() >= k {
                lemma_joined(a, b, k, x, w);
                assert(ab.contains(s));
                assert(s.len() >= k);
            } else {
                let (y, z) = choose|y: NameSeq, z: NameSeq|
                    first_set::joins(b, c, k, y, z) && w == first_set::cut(y + z, k);
                lemma_joined(a, b, k, x, y);
                lemma_cut_right(x, y + z, k);
                assert(x + (y + z) =~= (x + y) + z);
                lemma_cut_left(x + y, z, k);
                lemma_joined(ab, c, k, first_set::cut(x + y, k), z);
            }
        }
    }
    assert(l =~= r);
}

/// The set of ε alone is a unit of length-bounded concatenation.
pub proof fn law_concat_has_a_unit(a: Set<NameSeq>, k: nat)
    requires
        forall|s: NameSeq| #[trigger] a.contains(s) ==> s.len() <= k,
        k >= 1 || exists|s: NameSeq| a.contains(s),
    ensures
        first_set::concat_k_of(first_follow::only_eps(), a, k) == a,
        first_set::concat_k_of(a, first_follow::only_eps(), k) == a,
{
    let eps = first_follow::only_eps();
    let none = Seq::<Seq<char>>::empty();
    let l = first_set::concat_k_of(eps, a, k);
    let r = first_set::concat_k_of(a, eps, k);
    assert forall|s: NameSeq| l.contains(s) <==> a.contains(s) by {
        if a.contains(s) {
            lemma_joined(eps, a, k, none, s);
            assert(none + s =~= s);
        }
        if l.contains(s) {
            if eps.contains(s) && s.len() >= k {
                let t = choose|t: NameSeq| a.contains(t);
                assert(t =~= s);
            } else {
                let (x, y) = choose|x: NameSeq, y: NameSeq|
                    first_set::joins(eps, a, k, x, y) && s == first_set::cut(x + y, k);
                assert(x + y =~= y);
            }
        }
    }
    assert(l =~= a);
    assert forall|s: NameSeq| r.contains(s) <==> a.contains(s) by {
        if a.contains(s) {
            lemma_joined(a, eps, k, s, none);
            assert(s + none =~= s);
        }
        if r.contains(s) && !(a.contains(s) && s.len() >= k) {
            let (x, y) = choose|x: NameSeq, y: NameSeq|
                first_set::joins(a, eps, k, x, y) && s == first_set::cut(x + y, k);
            assert(x + y =~= x);
        }
    }
    assert(r =~= a);
}

/// The sequences one after the other.
pub open spec fn chained(ws: Seq<NameSeq>) -> NameSeq
    decreases ws.len(),
{
    if ws.len() == 0 {
        Seq::empty()
    } else {
        chained(ws.drop_last()) + ws.last()
    }
}

/// Every one of the sequences is in the set.
pub open spec fn all_of(inner: Set<NameSeq>, ws: Seq<NameSeq>) -> bool {
    forall|i: int| 0 <= i < ws.len() ==> inner.contains(#[trigger] ws[i])
}

proof fn lemma_chain_in_star(inner: Set<NameSeq>, k: nat, ws: Seq<NameSeq>)
    requires
        all_of(inner, ws),
    ensures
        first_set::star_n(inner, k, ws.len()).contains(first_set::cut(chained(ws), k)),
    decreases ws.len(),
{
    if ws.len() > 0 {
        let init = ws.drop_last();
        let n = (ws.len() - 1) as nat;
        assert(all_of(inner, init)) by {
            assert forall|i: int| 0 <= i < init.len() implies inner.contains(#[trigger] init[i]) by {
                assert(init[i] == ws[i]);
            }
        }
        lemma_chain_in_star(inner, k, init);
        let p = first_set::cut(chained(init), k);
        let prev = first_set::star_n(inner, k, n);
        assert(inner.contains(ws[ws.len() - 1]));
        lemma_joined(prev, inner, k, p, ws.last());
        lemma_cut_left(chained(init), ws.last(), k);
    }
}

proof fn lemma_star_is_chain(inner: Set<NameSeq>, k: nat, n: nat, s: NameSeq) -> (ws: Seq<NameSeq>)
    requires
        first_set::star_n(inner, k, n).contains(s),
    ensures
        all_of(inner, ws),
        s == first_set::cut(chained(ws), k),
    decreases n,
{
    if n == 0 {
        let ws = Seq::<NameSeq>::empty();
        assert(s =~= first_set::cut(chained(ws), k));
        ws
    } else {
        let prev = first_set::star_n(inner, k, (n - 1) as nat);
        if prev.contains(s) {
            lemma_star_is_chain(inner, k, (n - 1) as nat, s)
        } else {
            let (x, y) = choose|x: NameSeq, y: NameSeq|
                first_set::joins(prev, inner, k, x, y) && s == first_set::cut(x + y, k);
            let before = lemma_star_is_chain(inner, k, (n - 1) as nat, x);
            let ws = before.push(y);
            assert(ws.drop_last() =~= before);
            lemma_cut_left(chained(before), y, k);
            ws
        }
    }
}

/// Length-bounded repetition is the set of the repetitions, each cut to the
/// bound.
pub proof fn law_star_is_the_repetitions(inner: Set<NameSeq>, k: nat)
    ensures
        forall|s: NameSeq| #[trigger]
            first_set::star_k_of(inner, k).contains(s) <==> exists|ws: Seq<NameSeq>| #[trigger]
                all_of(inner, ws) && s == first_set::cut(chained(ws), k),
        forall|s: NameSeq| #[trigger] first_set::star_k_of(inner, k).contains(s) ==> s.len() <= k,
{
    let star = first_set::star_k_of(inner, k);
    assert forall|s: NameSeq| #[trigger] star.contains(s) <==> exists|ws: Seq<NameSeq>| #[trigger]
        all_of(inner, ws) && s == first_set::cut(chained(ws), k) by {
        if star.contains(s) {
            let n = choose|n: nat| #[trigger] first_set::star_n(inner, k, n).contains(s);
            let ws = lemma_star_is_chain(inner, k, n, s);
            assert(all_of(inner, ws));
        }
        if exists|ws: Seq<NameSeq>| #[trigger]
            all_of(inner, ws) && s == first_set::cut(chained(ws), k) {
            let ws = choose|ws: Seq<NameSeq>| #[trigger]
                all_of(inner, ws) && s == first_set::cut(chained(ws), k);
            lemma_chain_in_star(inner, k, ws);
        }
    }
}

/// Length-bounded repetition is the least set that holds ε and is closed under
/// one more round.
pub proof fn law_star_is_least(inner: Set<NameSeq>, k: nat, t: Set<NameSeq>)
    requires
        t.contains(Seq::empty()),
        first_set::concat_k_of(t, inner, k).subset_of(t),
    ensures
        first_set::star_k_of(inner, k).contains(Seq::empty()),
        first_set::concat_k_of(first_set::star_k_of(inner, k), inner, k).subset_of(
            first_set::star_k_of(inner, k),
        ),
        first_set::star_k_of(inner, k).subset_of(t),
{
    let star = first_set::star_k_of(inner, k);
    assert(first_set::star_n(inner, k, 0).contains(Seq::empty()));
    assert forall|s: NameSeq| first_set::concat_k_of(star, inner, k).contains(
        s,
    ) implies star.contains(s) by {
        if !(star.contains(s) && s.len() >= k) {
            let (x, y) = choose|x: NameSeq, y: NameSeq|
                first_set::joins(star, inner, k, x, y) && s == first_set::cut(x + y, k);
            let n = choose|n: nat| #[trigger] first_set::star_n(inner, k, n).contains(x);
            assert(first_set::joins(first_set::star_n(inner, k, n), inner, k, x, y));
            assert(((n + 1) - 1) as nat == n);
            assert(first_set::star_n(inner, k, n + 1).contains(s));
        }
    }
    assert forall|s: NameSeq| star.contains(s) implies t.contains(s) by {
        let n = choose|n: nat| #[trigger] first_set::star_n(inner, k, n).contains(s);
        lemma_star_below(inner, k, t, n);
    }
}

proof fn lemma_star_below(inner: Set<NameSeq>, k: nat, t: Set<NameSeq>, n: nat)
    requires
        t.contains(Seq::empty()),
        first_set::concat_k_of(t, inner, k).subset_of(t),
    ensures
        first_set::star_n(inner, k, n).subset_of(t),
    decreases n,
{
    if n > 0 {
        lemma_star_below(inner, k, t, (n - 1) as nat);
        first_set::lemma_concat_mono(
            first_set::star_n(inner, k, (n - 1) as nat),
            t,
            inner,
            inner,
            k,
        );
    }
}

proof fn lemma_chained_joined(us: Seq<NameSeq>, vs: Seq<NameSeq>)
    ensures
        chained(us + vs) == chained(us) + chained(vs),
    decreases vs.len(),
{
    if vs.len() == 0 {
        assert(us + vs =~= us);
        assert(chained(us) + Seq::<Seq<char>>::empty() =~= chained(us));
    } else {
        assert((us + vs).drop_last() =~= us + vs.drop_last());
        lemma_chained_joined(us, vs.drop_last());
        assert(chained(us) + chained(vs.drop_last()) + vs.last() =~= chained(us) + (chained(
            vs.drop_last(),
        ) + vs.last()));
    }
}

/// Repeating what is repeated adds nothing.
pub proof fn law_star_is_idempotent(inner: Set<NameSeq>, k: nat)
    ensures
        first_set::star_k_of(first_set::star_k_of(inner, k), k) == first_set::star_k_of(inner, k),
{
    let star = first_set::star_k_of(inner, k);
    let twice = first_set::star_k_of(star, k);
    law_star_is_the_repetitions(inner, k);
    assert(first_set::concat_k_of(star, star, k).subset_of(star)) by {
        assert forall|s: NameSeq| first_set::concat_k_of(star, star, k).contains(
            s,
        ) implies star.contains(s) by {
            if !(star.contains(s) && s.len() >= k) {
                let (x, y) = choose|x: NameSeq, y: NameSeq|
                    first_set::joins(star, star, k, x, y) && s == first_set::cut(x + y, k);
                let us = choose|ws: Seq<NameSeq>| #[trigger]
                    all_of(inner, ws) && x == first_set::cut(chained(ws), k);
                let vs = choose|ws: Seq<NameSeq>| #[trigger]
                    all_of(inner, ws) && y == first_set::cut(chained(ws), k);
                lemma_chained_joined(us, vs);
                lemma_cut_left(chained(us), y, k);
                lemma_cut_right(chained(us), chained(vs), k);
                assert(all_of(inner, us + vs));
            }
        }
    }
    assert(star.contains(Seq::empty())) by {
        assert(first_set::star_n(inner, k, 0).contains(Seq::empty()));
    }
    law_star_is_least(star, k, star);
    assert forall|s: NameSeq| star.contains(s) implies twice.contains(s) by {
        let one = seq![s];
        assert(one.drop_last() =~= Seq::<NameSeq>::empty());
        assert(chained(one.drop_last()) + s =~= s);
        lemma_chain_in_star(star, k, one);
        assert(first_set::cut(chained(one), k) == s);
    }
    assert(twice =~= star);
}

proof fn lemma_concat_eps(a: Set<NameSeq>, b: Set<NameSeq>, k: nat)
    requires
        k >= 1,
    ensures
        first_set::concat_k_of(a, b, k).contains(Seq::empty()) <==> a.contains(Seq::empty())
            && b.contains(Seq::empty()),
{
    let none = Seq::<Seq<char>>::empty();
    if first_set::concat_k_of(a, b, k).contains(none) {
        let (x, y) = choose|x: NameSeq, y: NameSeq|
            first_set::joins(a, b, k, x, y) && none == first_set::cut(x + y, k);
        assert(first_set::cut(x + y, k).len() == 0);
        assert(x =~= none);
        assert(y =~= none);
    }
    if a.contains(none) && b.contains(none) {
        lemma_joined(a, b, k, none, none);
        assert(none + none =~= none);
    }
}

proof fn lemma_star_eps(inner: Set<NameSeq>, k: nat)
    ensures
        first_set::star_k_of(inner, k).contains(Seq::empty()),
{
    assert(first_set::star_n(inner, k, 0).contains(Seq::empty()));
}

proof fn lemma_eps(e: ExprView, nulls: Nulls, f: Firsts, k: nat)
    requires
        k >= 1,
        forall|n: Seq<char>|
            (#[trigger] first_follow::set_at(f, n)).contains(Seq::empty())
                ==> first_follow::null_at(nulls, n),
    ensures
        first_follow::first_expr(e, nulls, f, k).contains(Seq::empty())
            <==> follow::expr_nullable_of(e, nulls),
    decreases e, 0nat,
{
    let none = Seq::<Seq<char>>::empty();
    match e {
        ExprView::Empty => {},
        ExprView::Token(n) => {
            assert(seq![n].len() == 1);
        },
        ExprView::Rule(n) => {},
        ExprView::Concat(xs) => {
            lemma_concat_items_eps(xs, xs.len(), nulls, f, k);
            assert(xs.take(xs.len() as int) =~= xs);
            first_follow::lemma_first_concat(xs, nulls, f, k);
        },
        ExprView::Alt(xs) => {
            assert forall|i: int| 0 <= i < xs.len() implies (first_follow::first_expr(
                #[trigger] xs[i],
                nulls,
                f,
                k,
            ).contains(none) <==> follow::expr_nullable_of(xs[i], nulls)) by {
                lemma_eps(xs[i], nulls, f, k);
            }
            first_follow::lemma_first_alt(xs, nulls, f, k, none);
        },
        ExprView::Opt(x) => {},
        ExprView::Star(x) => lemma_star_eps(first_follow::first_expr(*x, nulls, f, k), k),
        ExprView::Plus(x) => {
            let inner = first_follow::first_expr(*x, nulls, f, k);
            lemma_eps(*x, nulls, f, k);
            lemma_star_eps(inner, k);
            lemma_concat_eps(inner, first_set::star_k_of(inner, k), k);
        },
        ExprView::Label(_, x) => lemma_eps(*x, nulls, f, k),
    }
}

proof fn lemma_concat_items_eps(xs: Seq<ExprView>, n: nat, nulls: Nulls, f: Firsts, k: nat)
    requires
        k >= 1,
        n <= xs.len(),
        forall|n: Seq<char>|
            (#[trigger] first_follow::set_at(f, n)).contains(Seq::empty())
                ==> first_follow::null_at(nulls, n),
    ensures
        first_follow::first_concat(xs.take(n as int), nulls, f, k).contains(Seq::empty())
            <==> forall|i: int| 0 <= i < n ==> follow::expr_nullable_of(#[trigger] xs[i], nulls),
    decreases xs, n,
{
    let some = xs.take(n as int);
    if n > 0 {
        assert(some.drop_last() =~= xs.take(n - 1));
        assert(some.last() == xs[n - 1]);
        lemma_concat_items_eps(xs, (n - 1) as nat, nulls, f, k);
        lemma_eps(xs[n - 1], nulls, f, k);
        lemma_concat_eps(
            first_follow::first_concat(some.drop_last(), nulls, f, k),
            first_follow::first_expr(xs[n - 1], nulls, f, k),
            k,
        );
    }
}

/// FIRST(k) holds ε exactly where the expression can be empty, and no sequence
/// of more than `k` names.
pub proof fn law_first_of_an_expression(e: ExprView, nulls: Nulls, f: Firsts, k: nat)
    requires
        k >= 1,
        forall|n: Seq<char>, s: NameSeq| #[trigger]
            first_follow::set_at(f, n).contains(s) ==> s.len() <= k,
        forall|n: Seq<char>|
            (#[trigger] first_follow::set_at(f, n)).contains(Seq::empty())
                ==> first_follow::null_at(nulls, n),
    ensures
        first_follow::first_expr(e, nulls, f, k).contains(Seq::empty())
            <==> follow::expr_nullable_of(e, nulls),
        forall|s: NameSeq| #[trigger]
            first_follow::first_expr(e, nulls, f, k).contains(s) ==> s.len() <= k,
{
    lemma_eps(e, nulls, f, k);
    let all = Set::<Seq<char>>::full();
    let u = universe::all_seqs(all, k);
    assert forall|n: Seq<char>| (#[trigger] first_follow::set_at(f, n)).subset_of(u) by {
        assert forall|s: NameSeq| first_follow::set_at(f, n).contains(s) implies u.contains(s) by {}
    }
    first_follow::lemma_first_bounded(e, nulls, f, k, all, k);
    assert forall|s: NameSeq| #[trigger]
        first_follow::first_expr(e, nulls, f, k).contains(s) implies s.len() <= k by {
        assert(u.contains(s));
    }
}

/// The FIRST table of rules with different names is a fixed point: each rule has
/// FIRST(k) of its body over the table itself.
pub proof fn law_first_is_a_fixed_point(
    rules: Seq<RuleView>,
    k: nat,
    nulls: Nulls,
    f: Firsts,
    i: int,
)
    requires
        first_follow::is_first(rules, k, nulls, f),
        forall|p: int, q: int|
            0 <= p < q < rules.len() ==> (#[trigger] rules[p]).name != (#[trigger] rules[q]).name,
        0 <= i < rules.len(),
    ensures
        first_follow::set_at(f, rules[i].name) == first_follow::first_expr(
            rules[i].body,
            nulls,
            f,
            k,
        ),
{
    let name = rules[i].name;
    let first = first_follow::first_expr(rules[i].body, nulls, f, k);
    let less = f.insert(name, first);
    assert(first_follow::rule_closed(rules[i], k, nulls, f));
    assert forall|n: Seq<char>| (#[trigger] first_follow::set_at(less, n)).subset_of(
        first_follow::set_at(f, n),
    ) by {}
    assert forall|j: int| 0 <= j < rules.len() implies first_follow::rule_closed(
        #[trigger] rules[j],
        k,
        nulls,
        less,
    ) by {
        assert(first_follow::rule_closed(rules[j], k, nulls, f));
        first_follow::lemma_first_mono(rules[j].body, nulls, less, nulls, f, k);
        if j != i {
            assert(rules[j].name != name);
            assert(first_follow::set_at(less, rules[j].name) == first_follow::set_at(
                f,
                rules[j].name,
            ));
        }
    }
    assert(first_follow::first_closed(rules, k, nulls, less));
    assert(first_follow::set_at(f, name).subset_of(first_follow::set_at(less, name)));
    assert(first_follow::set_at(f, name) =~= first);
}

/// Length-bounded concatenation is concatenation, cut to the bound.
pub proof fn law_concat_is_cut_concatenation(
    a: Set<NameSeq>,
    b: Set<NameSeq>,
    k: nat,
    s: NameSeq,
)
    requires
        forall|x: NameSeq| #[trigger] a.contains(x) ==> x.len() <= k,
        exists|y: NameSeq| b.contains(y),
    ensures
        first_set::concat_k_of(a, b, k).contains(s) <==> exists|x: NameSeq, y: NameSeq|
            #![trigger a.contains(x), b.contains(y)]
            a.contains(x) && b.contains(y) && s == (if (x + y).len() <= k {
                x + y
            } else {
                (x + y).take(k as int)
            }),
{
    if first_set::concat_k_of(a, b, k).contains(s) {
        if a.contains(s) && s.len() >= k {
            let y = choose|y: NameSeq| b.contains(y);
            assert((s + y).take(k as int) =~= s);
            if (s + y).len() <= k {
                assert(s + y =~= s);
            }
            assert(a.contains(s) && b.contains(y));
        } else {
            let (x, y) = choose|x: NameSeq, y: NameSeq|
                first_set::joins(a, b, k, x, y) && s == first_set::cut(x + y, k);
            assert(a.contains(x) && b.contains(y));
        }
    }
    if exists|x: NameSeq, y: NameSeq|
        #![trigger a.contains(x), b.contains(y)]
        a.contains(x) && b.contains(y) && s == (if (x + y).len() <= k {
            x + y
        } else {
            (x + y).take(k as int)
        }) {
        let (x, y) = choose|x: NameSeq, y: NameSeq|
            #![trigger a.contains(x), b.contains(y)]
            a.contains(x) && b.contains(y) && s == (if (x + y).len() <= k {
                x + y
            } else {
                (x + y).take(k as int)
            });
        if x.len() < k {
            assert(first_set::joins(a, b, k, x, y));
        } else {
            if (x + y).len() <= k {
                assert(x + y =~= x);
            } else {
                assert((x + y).take(k as int) =~= x);
            }
        }
    }
}

/// FIRST by parts. A sequence begins as its front does, and goes on as its last
/// part where that is short; an alternation begins as its parts do; `x?` as `x`
/// or nothing; `x+` as `x x*`; a label makes no difference.
pub proof fn law_first_by_parts(
    xs: Seq<ExprView>,
    ys: Seq<ExprView>,
    x: ExprView,
    name: Seq<char>,
    nulls: Nulls,
    f: Firsts,
    k: nat,
)
    requires
        k >= 1,
    ensures
        first_follow::first_expr(ExprView::Concat(Seq::empty()), nulls, f, k)
            == first_follow::first_expr(ExprView::Empty, nulls, f, k),
        first_follow::first_expr(ExprView::Empty, nulls, f, k) == Set::<NameSeq>::empty().insert(
            Seq::empty(),
        ),
        first_follow::first_expr(ExprView::Token(name), nulls, f, k)
            == Set::<NameSeq>::empty().insert(seq![name]),
        first_follow::first_expr(ExprView::Concat(xs.push(x)), nulls, f, k)
            == first_set::concat_k_of(
            first_follow::first_expr(ExprView::Concat(xs), nulls, f, k),
            first_follow::first_expr(x, nulls, f, k),
            k,
        ),
        first_follow::first_expr(ExprView::Alt(xs + ys), nulls, f, k) == first_follow::first_expr(
            ExprView::Alt(xs),
            nulls,
            f,
            k,
        ).union(first_follow::first_expr(ExprView::Alt(ys), nulls, f, k)),
        first_follow::first_expr(ExprView::Alt(seq![x]), nulls, f, k) == first_follow::first_expr(
            x,
            nulls,
            f,
            k,
        ),
        first_follow::first_expr(ExprView::Opt(Box::new(x)), nulls, f, k)
            == first_follow::first_expr(
            ExprView::Alt(seq![x, ExprView::Empty]),
            nulls,
            f,
            k,
        ),
        first_follow::first_expr(ExprView::Plus(Box::new(x)), nulls, f, k)
            == first_set::concat_k_of(
            first_follow::first_expr(x, nulls, f, k),
            first_follow::first_expr(ExprView::Star(Box::new(x)), nulls, f, k),
            k,
        ),
        first_follow::first_expr(ExprView::Label(name, Box::new(x)), nulls, f, k)
            == first_follow::first_expr(x, nulls, f, k),
{
    let (ca, ce) = (ExprView::Concat(xs.push(x)), ExprView::Concat(Seq::<ExprView>::empty()));
    first_follow::lemma_first_concat(xs.push(x), nulls, f, k);
    first_follow::lemma_first_concat(xs, nulls, f, k);
    first_follow::lemma_first_concat(Seq::empty(), nulls, f, k);
    assert(xs.push(x).drop_last() =~= xs);
    assert(first_follow::first_expr(ExprView::Empty, nulls, f, k)
        =~= Set::<NameSeq>::empty().insert(Seq::empty()));
    let all = xs + ys;
    let (aa, ax, ay) = (ExprView::Alt(all), ExprView::Alt(xs), ExprView::Alt(ys));
    assert(aa->Alt_0 == all && ax->Alt_0 == xs && ay->Alt_0 == ys);
    assert forall|s: NameSeq| first_follow::first_expr(aa, nulls, f, k).contains(s)
        <==> first_follow::first_expr(ax, nulls, f, k).union(
        first_follow::first_expr(ay, nulls, f, k),
    ).contains(s) by {
        if first_follow::first_expr(aa, nulls, f, k).contains(s) {
            let i = choose|i: int|
                0 <= i < all.len() && first_follow::first_expr(
                    #[trigger] all[i],
                    nulls,
                    f,
                    k,
                ).contains(s);
            if i < xs.len() {
                assert(first_follow::first_expr(xs[i], nulls, f, k).contains(s));
            } else {
                assert(first_follow::first_expr(ys[i - xs.len()], nulls, f, k).contains(s));
            }
        }
        if first_follow::first_expr(ax, nulls, f, k).contains(s) {
            let i = choose|i: int|
                0 <= i < xs.len() && first_follow::first_expr(
                    #[trigger] xs[i],
                    nulls,
                    f,
                    k,
                ).contains(s);
            assert(first_follow::first_expr(all[i], nulls, f, k).contains(s));
        }
        if first_follow::first_expr(ay, nulls, f, k).contains(s) {
            let i = choose|i: int|
                0 <= i < ys.len() && first_follow::first_expr(
                    #[trigger] ys[i],
                    nulls,
                    f,
                    k,
                ).contains(s);
            assert(first_follow::first_expr(all[xs.len() + i], nulls, f, k).contains(s));
        }
    }
    assert(first_follow::first_expr(aa, nulls, f, k) =~= first_follow::first_expr(
        ax,
        nulls,
        f,
        k,
    ).union(first_follow::first_expr(ay, nulls, f, k)));
    let one = seq![x];
    let two = seq![x, ExprView::Empty];
    let (a1, a2) = (ExprView::Alt(one), ExprView::Alt(two));
    assert(a1->Alt_0 == one && a2->Alt_0 == two);
    let fx = first_follow::first_expr(x, nulls, f, k);
    assert(one[0] == x && two[0] == x && two[1] == ExprView::Empty);
    assert(first_follow::first_expr(a1, nulls, f, k) =~= fx);
    assert(first_follow::first_expr(a2, nulls, f, k) =~= fx.union(first_follow::only_eps()));
}

} // verus!
