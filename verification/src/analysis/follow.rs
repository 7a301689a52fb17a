//! FOLLOW sets: what can come after each rule.
use vstd::prelude::*;

use crate::analysis::first_follow::{self, FirstTable, Firsts, FollowTable, NullTable, Nulls};
use crate::analysis::first_set::{self, FirstSet, NameSeq};
use crate::analysis::universe;
use crate::grammar::ir::{self, Expr, ExprView, Grammar, RuleView};
use crate::name_map::{self, NameMap};
use crate::names::{self, NameSet};

verus! {

/// Placeholder name used inside FOLLOW sets to mean "end of input". No token
/// of a grammar can have it.
pub const EOF_MARKER: &'static str = "$EOF";

/// The set of the sequence that is the end-of-input marker alone.
pub open spec fn only_eof() -> Set<NameSeq> {
    Set::empty().insert(seq![EOF_MARKER@])
}

/// The first names of the non-empty sequences, each as a sequence of one.
pub open spec fn heads(s: Set<NameSeq>) -> Set<NameSeq> {
    Set::new(
        |x: NameSeq|
            x.len() == 1 && exists|y: NameSeq|
                #[trigger] s.contains(y) && y.len() > 0 && y[0] == x[0],
    )
}

/// The expression can derive ε.
pub open spec fn expr_nullable_of(e: ExprView, nulls: Nulls) -> bool
    decreases e,
{
    match e {
        ExprView::Empty => true,
        ExprView::Token(_) => false,
        ExprView::Rule(n) => first_follow::null_at(nulls, n),
        ExprView::Concat(xs) => forall|i: int|
            0 <= i < xs.len() ==> expr_nullable_of(#[trigger] xs[i], nulls),
        ExprView::Alt(xs) => exists|i: int|
            0 <= i < xs.len() && expr_nullable_of(#[trigger] xs[i], nulls),
        ExprView::Opt(_) => true,
        ExprView::Star(_) => true,
        ExprView::Plus(x) => expr_nullable_of(*x, nulls),
        ExprView::Label(_, x) => expr_nullable_of(*x, nulls),
    }
}

/// What FIRST(1) says may come first in the sequence `xs`.
pub open spec fn seq_heads(xs: Seq<ExprView>, nulls: Nulls, f: Firsts) -> Set<NameSeq>
    decreases xs.len(),
{
    if xs.len() == 0 {
        Set::empty()
    } else {
        let here = first_follow::first_expr(xs[0], nulls, f, 1);
        if here.contains(Seq::empty()) {
            heads(here).union(seq_heads(xs.skip(1), nulls, f))
        } else {
            heads(here)
        }
    }
}

/// FIRST(1) of every expression in the sequence has ε.
pub open spec fn seq_eps(xs: Seq<ExprView>, nulls: Nulls, f: Firsts) -> bool {
    forall|i: int|
        0 <= i < xs.len() ==> first_follow::first_expr(#[trigger] xs[i], nulls, f, 1).contains(
            Seq::empty(),
        )
}

/// What can come after item `i - 1` of a sequence: what can come first in the
/// rest, and, if the rest can be empty, what comes after the sequence.
#[verifier::opaque]
pub open spec fn after(
    xs: Seq<ExprView>,
    i: int,
    tail: Set<NameSeq>,
    nulls: Nulls,
    f: Firsts,
) -> Set<NameSeq> {
    let rest = xs.skip(i);
    if seq_eps(rest, nulls, f) {
        seq_heads(rest, nulls, f).union(tail)
    } else {
        seq_heads(rest, nulls, f)
    }
}

/// What can come after the body of a repetition: what begins the next round,
/// and what comes after the repetition.
pub open spec fn after_round(x: ExprView, tail: Set<NameSeq>, nulls: Nulls, f: Firsts) -> Set<
    NameSeq,
> {
    heads(first_follow::first_expr(x, nulls, f, 1)).union(tail)
}

/// The table `fo` has what the occurrences of rules in `e` let follow, where
/// `tail` comes after `e`.
pub open spec fn follow_closed(
    e: ExprView,
    tail: Set<NameSeq>,
    nulls: Nulls,
    f: Firsts,
    fo: Firsts,
) -> bool
    decreases e,
{
    match e {
        ExprView::Empty => true,
        ExprView::Token(_) => true,
        ExprView::Rule(n) => tail.subset_of(first_follow::set_at(fo, n)),
        ExprView::Concat(xs) => forall|i: int|
            0 <= i < xs.len() ==> follow_closed(
                #[trigger] xs[i],
                after(xs, i + 1, tail, nulls, f),
                nulls,
                f,
                fo,
            ),
        ExprView::Alt(xs) => forall|i: int|
            0 <= i < xs.len() ==> follow_closed(#[trigger] xs[i], tail, nulls, f, fo),
        ExprView::Opt(x) => follow_closed(*x, tail, nulls, f, fo),
        ExprView::Star(x) => follow_closed(*x, after_round(*x, tail, nulls, f), nulls, f, fo),
        ExprView::Plus(x) => follow_closed(*x, after_round(*x, tail, nulls, f), nulls, f, fo),
        ExprView::Label(_, x) => follow_closed(*x, tail, nulls, f, fo),
    }
}

/// The table has the end of input and all that the bodies let follow.
pub open spec fn follow_holds(rules: Seq<RuleView>, nulls: Nulls, f: Firsts, fo: Firsts) -> bool {
    forall|i: int|
        0 <= i < rules.len() ==> only_eof().subset_of(
            first_follow::set_at(fo, (#[trigger] rules[i]).name),
        ) && follow_closed(
            rules[i].body,
            first_follow::set_at(fo, rules[i].name),
            nulls,
            f,
            fo,
        )
}

/// The least table that has the end of input and all that the bodies let
/// follow.
pub open spec fn is_follow(rules: Seq<RuleView>, nulls: Nulls, f: Firsts, fo: Firsts) -> bool {
    &&& follow_holds(rules, nulls, f, fo)
    &&& forall|fo2: Firsts| #[trigger]
        follow_holds(rules, nulls, f, fo2) ==> first_follow::tables_le(fo, fo2)
}

/// What a [`FollowTable`] holds, each name as a sequence of one.
pub open spec fn singles(t: FollowTable) -> Firsts {
    Map::new(
        |n: Seq<char>| t@.contains_key(n),
        |n: Seq<char>| Set::new(|x: NameSeq| x.len() == 1 && t@[n]@.contains(x[0])),
    )
}

/// `new` came out of `old`: it says more iff `changed`.
pub open spec fn grown(old: Firsts, new: Firsts, changed: bool) -> bool {
    &&& first_follow::tables_le(old, new)
    &&& !changed ==> new == old
    &&& changed ==> exists|n: Seq<char>, s: NameSeq| #[trigger]
        first_follow::set_at(new, n).contains(s) && !first_follow::set_at(old, n).contains(s)
}

pub proof fn lemma_grown_trans(a: Firsts, b: Firsts, c: Firsts, x: bool, y: bool)
    requires
        grown(a, b, x),
        grown(b, c, y),
    ensures
        grown(a, c, x || y),
{
    assert forall|n: Seq<char>| (#[trigger] first_follow::set_at(a, n)).subset_of(
        first_follow::set_at(c, n),
    ) by {
        assert(first_follow::set_at(a, n).subset_of(first_follow::set_at(b, n)));
        assert(first_follow::set_at(b, n).subset_of(first_follow::set_at(c, n)));
    }
    if x {
        let (n, s) = choose|n: Seq<char>, s: NameSeq| #[trigger]
            first_follow::set_at(b, n).contains(s) && !first_follow::set_at(a, n).contains(s);
        assert(first_follow::set_at(b, n).subset_of(first_follow::set_at(c, n)));
        assert(first_follow::set_at(c, n).contains(s) && !first_follow::set_at(a, n).contains(s));
    }
    if y {
        let (n, s) = choose|n: Seq<char>, s: NameSeq| #[trigger]
            first_follow::set_at(c, n).contains(s) && !first_follow::set_at(b, n).contains(s);
        assert(first_follow::set_at(a, n).subset_of(first_follow::set_at(b, n)));
        assert(first_follow::set_at(c, n).contains(s) && !first_follow::set_at(a, n).contains(s));
    }
}

/// Adds `s` to the set under `name`; true if it was not all there.
pub(crate) fn add_to(t: &mut FirstTable, name: &str, s: &FirstSet) -> (grew: bool)
    requires
        first_follow::table_wf(*old(t)),
    ensures
        first_follow::table_wf(*final(t)),
        grown(first_follow::firsts(*old(t)), first_follow::firsts(*final(t)), grew),
        grew == !s@.subset_of(first_follow::set_at(first_follow::firsts(*old(t)), name@)),
        forall|n: Seq<char>| #[trigger]
            first_follow::set_at(first_follow::firsts(*final(t)), n) == (if n == name@ {
                first_follow::set_at(first_follow::firsts(*old(t)), n).union(s@)
            } else {
                first_follow::set_at(first_follow::firsts(*old(t)), n)
            }),
{
    let ghost f0 = first_follow::firsts(*t);
    let mut cur = match t.get(name) {
        Some(c) => c.clone(),
        None => FirstSet::new(),
    };
    let ghost c0 = cur@;
    assert(c0 =~= first_follow::set_at(f0, name@));
    let grew = cur.extend(s);
    if grew {
        let ghost cv = cur@;
        let ghost t0 = *t;
        t.put(name, cur);
        proof {
            let f1 = first_follow::firsts(*t);
            assert(f1 =~= f0.insert(name@, cv));
            assert forall|n: Seq<char>| #[trigger] first_follow::set_at(f1, n) == (if n == name@ {
                first_follow::set_at(f0, n).union(s@)
            } else {
                first_follow::set_at(f0, n)
            }) by {}
            let x = choose|x: NameSeq| s@.contains(x) && !c0.contains(x);
            assert(first_follow::set_at(f1, name@).contains(x) && !first_follow::set_at(
                f0,
                name@,
            ).contains(x));
        }
    } else {
        proof {
            assert forall|n: Seq<char>| #[trigger] first_follow::set_at(f0, n) == (if n == name@ {
                first_follow::set_at(f0, n).union(s@)
            } else {
                first_follow::set_at(f0, n)
            }) by {
                if n == name@ {
                    assert(first_follow::set_at(f0, n).union(s@) =~= first_follow::set_at(f0, n));
                }
            }
        }
    }
    grew
}

/// A copy of the set under `name`; empty if there is none.
pub(crate) fn set_of(t: &FirstTable, name: &str) -> (r: FirstSet)
    requires
        first_follow::table_wf(*t),
    ensures
        r.wf(),
        r@ == first_follow::set_at(first_follow::firsts(*t), name@),
{
    match t.get(name) {
        Some(s) => s.clone(),
        None => FirstSet::new(),
    }
}

/// The first names of the non-empty sequences.
fn heads_of(s: &FirstSet) -> (r: FirstSet)
    ensures
        r.wf(),
        r@ == heads(s@),
{
    let mut r = FirstSet::new();
    let mut i: usize = 0;
    while i < s.len()
        invariant
            i <= s.list().len(),
            r.wf(),
            forall|x: NameSeq| #[trigger]
                r@.contains(x) <==> x.len() == 1 && exists|j: int|
                    0 <= j < i && (#[trigger] s.list()[j]).len() > 0 && s.list()[j][0] == x[0],
        decreases s.list().len() - i,
    {
        let y = s.get(i);
        let ghost before = r@;
        if y.len() > 0 {
            let mut one: Vec<String> = Vec::new();
            one.push(y[0].clone());
            assert(names::list_view(one@) =~= seq![s.list()[i as int][0]]);
            r.insert(one);
        }
        proof {
            let yv = s.list()[i as int];
            assert forall|x: NameSeq| #[trigger] r@.contains(x) <==> x.len() == 1 && exists|j: int|
                0 <= j < i + 1 && (#[trigger] s.list()[j]).len() > 0 && s.list()[j][0] == x[0] by {
                assert(before.contains(x) <==> x.len() == 1 && exists|j: int|
                    0 <= j < i && (#[trigger] s.list()[j]).len() > 0 && s.list()[j][0] == x[0]);
                if yv.len() > 0 && x.len() == 1 && yv[0] == x[0] {
                    assert(x =~= seq![yv[0]]);
                }
                if x.len() == 1 && exists|j: int|
                    0 <= j < i + 1 && (#[trigger] s.list()[j]).len() > 0 && s.list()[j][0] == x[0] {
                    let j = choose|j: int|
                        0 <= j < i + 1 && (#[trigger] s.list()[j]).len() > 0 && s.list()[j][0]
                            == x[0];
                    if j < i {
                        assert(before.contains(x));
                    }
                }
                assert(s.list()[i as int] == yv);
            }
        }
        i += 1;
    }
    proof {
        assert forall|x: NameSeq| r@.contains(x) <==> heads(s@).contains(x) by {
            if r@.contains(x) {
                let j = choose|j: int|
                    0 <= j < s.list().len() && (#[trigger] s.list()[j]).len() > 0 && s.list()[j][0]
                        == x[0];
                assert(s.list().contains(s.list()[j]));
                assert(s@.contains(s.list()[j]));
            }
            if heads(s@).contains(x) {
                let y = choose|y: NameSeq|
                    #[trigger] s@.contains(y) && y.len() > 0 && y[0] == x[0];
                let j = choose|j: int| 0 <= j < s.list().len() && s.list()[j] == y;
                assert(s.list()[j].len() > 0);
            }
        }
        assert(r@ =~= heads(s@));
    }
    r
}

/// What can come first in `a` and then `b` is what can come first in `a`, and,
/// where `a` can be empty, in `b`.
proof fn lemma_heads_joined(a: Set<NameSeq>, b: Set<NameSeq>)
    ensures
        heads(first_set::concat_k_of(a, b, 1)) == (if a.contains(Seq::empty()) {
            heads(a).union(heads(b))
        } else {
            heads(a)
        }),
        first_set::concat_k_of(a, b, 1).contains(Seq::empty()) <==> a.contains(Seq::empty())
            && b.contains(Seq::empty()),
{
    let c = first_set::concat_k_of(a, b, 1);
    let e = Seq::<Seq<char>>::empty();
    assert forall|x: NameSeq| heads(c).contains(x) <==> heads(a).contains(x) || (a.contains(e)
        && heads(b).contains(x)) by {
        if heads(c).contains(x) {
            let s = choose|s: NameSeq| #[trigger] c.contains(s) && s.len() > 0 && s[0] == x[0];
            if !(a.contains(s) && s.len() >= 1) {
                let (u, v) = choose|u: NameSeq, v: NameSeq|
                    first_set::joins(a, b, 1, u, v) && s == first_set::cut(u + v, 1);
                assert(u =~= e);
                assert(u + v =~= v);
                assert(v.len() > 0 && v[0] == x[0]);
            }
        }
        if heads(a).contains(x) {
            let s = choose|s: NameSeq| #[trigger] a.contains(s) && s.len() > 0 && s[0] == x[0];
            assert(c.contains(s));
        }
        if a.contains(e) && heads(b).contains(x) {
            let v = choose|v: NameSeq| #[trigger] b.contains(v) && v.len() > 0 && v[0] == x[0];
            let s = first_set::cut(e + v, 1);
            assert(e + v =~= v);
            assert(first_set::joins(a, b, 1, e, v));
            assert(c.contains(s));
        }
    }
    assert(heads(c) =~= if a.contains(e) {
        heads(a).union(heads(b))
    } else {
        heads(a)
    });
    if c.contains(e) {
        let (u, v) = choose|u: NameSeq, v: NameSeq|
            first_set::joins(a, b, 1, u, v) && e == first_set::cut(u + v, 1);
        assert(u =~= e);
        assert(u + v =~= v);
        assert(v =~= e);
    }
    if a.contains(e) && b.contains(e) {
        assert(first_set::joins(a, b, 1, e, e));
        assert(e + e =~= e);
        assert(first_set::cut(e + e, 1) =~= e);
        assert(c.contains(e));
    }
}

/// What can come first in a sequence and one more expression behind it.
proof fn lemma_seq_heads_last(xs: Seq<ExprView>, nulls: Nulls, f: Firsts)
    requires
        xs.len() > 0,
    ensures
        seq_heads(xs, nulls, f) == (if seq_eps(xs.drop_last(), nulls, f) {
            seq_heads(xs.drop_last(), nulls, f).union(
                heads(first_follow::first_expr(xs.last(), nulls, f, 1)),
            )
        } else {
            seq_heads(xs.drop_last(), nulls, f)
        }),
        seq_eps(xs, nulls, f) <==> seq_eps(xs.drop_last(), nulls, f) && first_follow::first_expr(
            xs.last(),
            nulls,
            f,
            1,
        ).contains(Seq::empty()),
    decreases xs.len(),
{
    let before = xs.drop_last();
    let e = Seq::<Seq<char>>::empty();
    let last = first_follow::first_expr(xs.last(), nulls, f, 1);
    assert(seq_eps(xs, nulls, f) <==> seq_eps(before, nulls, f) && last.contains(e)) by {
        if seq_eps(xs, nulls, f) {
            assert forall|i: int| 0 <= i < before.len() implies first_follow::first_expr(
                #[trigger] before[i],
                nulls,
                f,
                1,
            ).contains(e) by {
                assert(before[i] == xs[i]);
            }
            assert(xs[xs.len() - 1] == xs.last());
        }
        if seq_eps(before, nulls, f) && last.contains(e) {
            assert forall|i: int| 0 <= i < xs.len() implies first_follow::first_expr(
                #[trigger] xs[i],
                nulls,
                f,
                1,
            ).contains(e) by {
                if i < before.len() {
                    assert(before[i] == xs[i]);
                }
            }
        }
    }
    if xs.len() == 1 {
        assert(xs.skip(1).len() == 0);
        assert(xs[0] == xs.last());
        assert(seq_heads(xs.skip(1), nulls, f) =~= Set::empty());
        assert(seq_heads(before, nulls, f) =~= Set::empty());
        assert(seq_heads(xs, nulls, f) =~= heads(last));
        assert(seq_heads(before, nulls, f).union(heads(last)) =~= heads(last));
        assert(seq_eps(before, nulls, f));
    } else {
        let here = first_follow::first_expr(xs[0], nulls, f, 1);
        let rest = xs.skip(1);
        lemma_seq_heads_last(rest, nulls, f);
        assert(rest.drop_last() =~= before.skip(1));
        assert(rest.last() == xs.last());
        assert(before[0] == xs[0]);
        assert(seq_eps(before, nulls, f) <==> here.contains(e) && seq_eps(
            before.skip(1),
            nulls,
            f,
        )) by {
            if seq_eps(before, nulls, f) {
                assert forall|i: int| 0 <= i < before.skip(1).len() implies first_follow::first_expr(
                    #[trigger] before.skip(1)[i],
                    nulls,
                    f,
                    1,
                ).contains(e) by {
                    assert(before.skip(1)[i] == before[i + 1]);
                }
            }
            if here.contains(e) && seq_eps(before.skip(1), nulls, f) {
                assert forall|i: int| 0 <= i < before.len() implies first_follow::first_expr(
                    #[trigger] before[i],
                    nulls,
                    f,
                    1,
                ).contains(e) by {
                    if i > 0 {
                        assert(before.skip(1)[i - 1] == before[i]);
                    }
                }
            }
        }
        if here.contains(e) {
            let h = heads(here);
            let r = seq_heads(before.skip(1), nulls, f);
            if seq_eps(before, nulls, f) {
                assert(h.union(r.union(heads(last))) =~= h.union(r).union(heads(last)));
            }
        }
    }
}

/// The single tokens that can come first in a sequence are the heads of its
/// FIRST(1), and the sequence can be empty exactly if ε is in that.
pub proof fn law_first_of_a_sequence(xs: Seq<ExprView>, nulls: Nulls, f: Firsts)
    ensures
        seq_heads(xs, nulls, f) == heads(
            first_follow::first_expr(ExprView::Concat(xs), nulls, f, 1),
        ),
        seq_eps(xs, nulls, f) <==> first_follow::first_expr(
            ExprView::Concat(xs),
            nulls,
            f,
            1,
        ).contains(Seq::empty()),
    decreases xs.len(),
{
    first_follow::lemma_first_concat(xs, nulls, f, 1);
    if xs.len() == 0 {
        assert(heads(first_follow::only_eps()) =~= Set::empty());
    } else {
        law_first_of_a_sequence(xs.drop_last(), nulls, f);
        first_follow::lemma_first_concat(xs.drop_last(), nulls, f, 1);
        lemma_seq_heads_last(xs, nulls, f);
        lemma_heads_joined(
            first_follow::first_concat(xs.drop_last(), nulls, f, 1),
            first_follow::first_expr(xs.last(), nulls, f, 1),
        );
    }
}

/// What can come first in the expressions from position `from` on, and whether
/// they can all be empty.
pub fn first_of_seq_1(
    xs: &Vec<Expr>,
    from: usize,
    nullable: &NullTable,
    first: &FirstTable,
) -> (r: (FirstSet, bool))
    requires
        from <= xs@.len(),
        nullable.wf(),
        first.wf(),
    ensures
        r.0.wf(),
        r.0@ == seq_heads(
            ir::exprs_view(xs@).skip(from as int),
            nullable@,
            first_follow::firsts(*first),
        ),
        r.1 == seq_eps(
            ir::exprs_view(xs@).skip(from as int),
            nullable@,
            first_follow::firsts(*first),
        ),
{
    let ghost views = ir::exprs_view(xs@);
    let ghost nv = nullable@;
    let ghost fv = first_follow::firsts(*first);
    let mut out = FirstSet::new();
    let mut i: usize = from;
    proof {
        assert(out@.union(seq_heads(views.skip(from as int), nv, fv)) =~= seq_heads(
            views.skip(from as int),
            nv,
            fv,
        ));
    }
    while i < xs.len()
        invariant
            from <= i <= xs@.len(),
            views == ir::exprs_view(xs@),
            nv == nullable@,
            fv == first_follow::firsts(*first),
            nullable.wf(),
            first.wf(),
            out.wf(),
            out@.union(seq_heads(views.skip(i as int), nv, fv)) == seq_heads(
                views.skip(from as int),
                nv,
                fv,
            ),
            forall|j: int|
                from <= j < i ==> first_follow::first_expr(
                    #[trigger] views[j],
                    nv,
                    fv,
                    1,
                ).contains(Seq::empty()),
        decreases xs@.len() - i,
    {
        let f = first_follow::first_of(&xs[i], nullable, first, 1);
        let h = heads_of(&f);
        let ghost before = out@;
        out.extend(&h);
        let has_eps = f.contains(&Vec::new());
        proof {
            assert(names::list_view(Seq::<String>::empty()) =~= Seq::<Seq<char>>::empty());
            let rest = views.skip(i as int);
            assert(rest[0] == views[i as int]);
            assert(rest.skip(1) =~= views.skip(i + 1));
            assert(f@ == first_follow::first_expr(views[i as int], nv, fv, 1));
            if has_eps {
                assert(out@.union(seq_heads(views.skip(i + 1), nv, fv)) =~= before.union(
                    seq_heads(rest, nv, fv),
                ));
            } else {
                assert(out@ =~= before.union(seq_heads(rest, nv, fv)));
                assert(!seq_eps(views.skip(from as int), nv, fv)) by {
                    assert(views.skip(from as int)[i - from] == views[i as int]);
                }
            }
        }
        if !has_eps {
            return (out, false);
        }
        i += 1;
    }
    proof {
        assert(out@.union(seq_heads(views.skip(i as int), nv, fv)) =~= out@);
        assert forall|j: int| 0 <= j < views.skip(from as int).len() implies first_follow::first_expr(
            #[trigger] views.skip(from as int)[j],
            nv,
            fv,
            1,
        ).contains(Seq::empty()) by {
            assert(views.skip(from as int)[j] == views[from + j]);
        }
    }
    (out, true)
}

/// The expression can derive ε.
pub fn expr_nullable(e: &Expr, nullable: &NullTable) -> (r: bool)
    requires
        nullable.wf(),
    ensures
        r == expr_nullable_of(e@, nullable@),
    decreases e,
{
    match e {
        Expr::Empty => true,
        Expr::Token(_) => false,
        Expr::Rule(n) => match nullable.get(n.as_str()) {
            Some(b) => *b,
            None => false,
        },
        Expr::Concat(xs) => all_nullable(xs, nullable),
        Expr::Alt(xs) => any_nullable(xs, nullable),
        Expr::Opt(_) => true,
        Expr::Star(_) => true,
        Expr::Plus(x) => expr_nullable(x, nullable),
        Expr::Label(_, x) => expr_nullable(x, nullable),
    }
}

fn all_nullable(xs: &Vec<Expr>, nullable: &NullTable) -> (r: bool)
    requires
        nullable.wf(),
    ensures
        r == expr_nullable_of(ExprView::Concat(ir::exprs_view(xs@)), nullable@),
    decreases xs,
{
    let ghost views = ir::exprs_view(xs@);
    proof {
        let p = ExprView::Concat(views);
        assert(p->Concat_0 == views);
    }
    let mut i: usize = 0;
    while i < xs.len()
        invariant
            i <= xs@.len(),
            nullable.wf(),
            views == ir::exprs_view(xs@),
            forall|j: int| 0 <= j < i ==> expr_nullable_of(#[trigger] views[j], nullable@),
        decreases xs@.len() - i,
    {
        if !expr_nullable(&xs[i], nullable) {
            proof {
                let p = ExprView::Concat(views);
                assert(p->Concat_0 == views);
                assert(!expr_nullable_of(views[i as int], nullable@));
            }
            return false;
        }
        i += 1;
    }
    true
}

fn any_nullable(xs: &Vec<Expr>, nullable: &NullTable) -> (r: bool)
    requires
        nullable.wf(),
    ensures
        r == expr_nullable_of(ExprView::Alt(ir::exprs_view(xs@)), nullable@),
    decreases xs,
{
    let ghost views = ir::exprs_view(xs@);
    proof {
        let p = ExprView::Alt(views);
        assert(p->Alt_0 == views);
    }
    let mut i: usize = 0;
    while i < xs.len()
        invariant
            i <= xs@.len(),
            nullable.wf(),
            views == ir::exprs_view(xs@),
            forall|j: int| 0 <= j < i ==> !expr_nullable_of(#[trigger] views[j], nullable@),
        decreases xs@.len() - i,
    {
        if expr_nullable(&xs[i], nullable) {
            proof {
                let p = ExprView::Alt(views);
                assert(p->Alt_0 == views);
                assert(expr_nullable_of(views[i as int], nullable@));
            }
            return true;
        }
        i += 1;
    }
    false
}

/// The rules that occur in the expression.
pub open spec fn rule_refs(e: ExprView) -> Seq<Seq<char>>
    decreases e, 0nat,
{
    match e {
        ExprView::Rule(n) => seq![n],
        ExprView::Concat(xs) => list_refs(xs),
        ExprView::Alt(xs) => list_refs(xs),
        ExprView::Opt(x) => rule_refs(*x),
        ExprView::Star(x) => rule_refs(*x),
        ExprView::Plus(x) => rule_refs(*x),
        ExprView::Label(_, x) => rule_refs(*x),
        _ => Seq::empty(),
    }
}

/// The rules that occur in the expressions.
pub open spec fn list_refs(xs: Seq<ExprView>) -> Seq<Seq<char>>
    decreases xs, xs.len(),
{
    if xs.len() == 0 {
        Seq::empty()
    } else {
        list_refs(xs.drop_last()) + rule_refs(xs.last())
    }
}

pub proof fn lemma_list_refs(xs: Seq<ExprView>, i: int, n: Seq<char>)
    requires
        0 <= i < xs.len(),
        rule_refs(xs[i]).contains(n),
    ensures
        list_refs(xs).contains(n),
    decreases xs.len(),
{
    let a = list_refs(xs.drop_last());
    let b = rule_refs(xs.last());
    if i == xs.len() - 1 {
        let j = choose|j: int| 0 <= j < b.len() && b[j] == n;
        assert((a + b)[a.len() + j] == n);
    } else {
        assert(xs.drop_last()[i] == xs[i]);
        lemma_list_refs(xs.drop_last(), i, n);
        let j = choose|j: int| 0 <= j < a.len() && a[j] == n;
        assert((a + b)[j] == n);
    }
}

/// The table that files all of `u` under each of the names.
pub open spec fn full(keys: Set<Seq<char>>, u: Set<NameSeq>) -> Firsts {
    Map::new(|n: Seq<char>| keys.contains(n), |n: Seq<char>| u)
}

/// The tokens of the expression are in `sigma` and its rules in `keys`.
pub open spec fn names_known(e: ExprView, keys: Set<Seq<char>>, sigma: Set<Seq<char>>) -> bool {
    &&& forall|n: Seq<char>| first_follow::mentions(e, n) ==> #[trigger] sigma.contains(n)
    &&& forall|n: Seq<char>| #[trigger] rule_refs(e).contains(n) ==> keys.contains(n)
}

pub proof fn lemma_known_parts(
    e: ExprView,
    xs: Seq<ExprView>,
    keys: Set<Seq<char>>,
    sigma: Set<Seq<char>>,
)
    requires
        names_known(e, keys, sigma),
        e == ExprView::Concat(xs) || e == ExprView::Alt(xs),
    ensures
        forall|i: int| 0 <= i < xs.len() ==> names_known(#[trigger] xs[i], keys, sigma),
{
    if e is Concat {
        assert(e->Concat_0 == xs);
    } else {
        assert(e->Alt_0 == xs);
    }
    assert forall|i: int| 0 <= i < xs.len() implies names_known(#[trigger] xs[i], keys, sigma) by {
        assert forall|n: Seq<char>| first_follow::mentions(
            xs[i],
            n,
        ) implies #[trigger] sigma.contains(n) by {
            assert(first_follow::mentions(xs[i], n));
            assert(first_follow::mentions(e, n));
        }
        assert forall|n: Seq<char>| #[trigger] rule_refs(xs[i]).contains(n) implies keys.contains(
            n,
        ) by {
            lemma_list_refs(xs, i, n);
            assert(rule_refs(e).contains(n));
        }
    }
}

/// What the universe must be for the tables over it.
pub open spec fn bounded(f: Firsts, sigma: Set<Seq<char>>, len: nat) -> bool {
    forall|n: Seq<char>|
        (#[trigger] first_follow::set_at(f, n)).subset_of(universe::all_seqs(sigma, len))
}

/// The sequences of one name of the alphabet.
pub open spec fn ones(sigma: Set<Seq<char>>) -> Set<NameSeq> {
    Set::new(|x: NameSeq| x.len() == 1 && sigma.contains(x[0]))
}

proof fn lemma_heads_bounded(s: Set<NameSeq>, sigma: Set<Seq<char>>, len: nat)
    requires
        s.subset_of(universe::all_seqs(sigma, len)),
    ensures
        heads(s).subset_of(ones(sigma)),
{
    assert forall|x: NameSeq| heads(s).contains(x) implies ones(sigma).contains(x) by {
        let y = choose|y: NameSeq| #[trigger] s.contains(y) && y.len() > 0 && y[0] == x[0];
        assert(universe::all_seqs(sigma, len).contains(y));
        assert(sigma.contains(y[0]));
    }
}

proof fn lemma_seq_heads_bounded(
    xs: Seq<ExprView>,
    nulls: Nulls,
    f: Firsts,
    keys: Set<Seq<char>>,
    sigma: Set<Seq<char>>,
    len: nat,
)
    requires
        1 <= len,
        bounded(f, sigma, len),
        forall|i: int| 0 <= i < xs.len() ==> names_known(#[trigger] xs[i], keys, sigma),
    ensures
        seq_heads(xs, nulls, f).subset_of(ones(sigma)),
    decreases xs.len(),
{
    if xs.len() > 0 {
        assert(names_known(xs[0], keys, sigma));
        first_follow::lemma_first_bounded(xs[0], nulls, f, 1, sigma, len);
        lemma_heads_bounded(first_follow::first_expr(xs[0], nulls, f, 1), sigma, len);
        let rest = xs.skip(1);
        assert forall|i: int| 0 <= i < rest.len() implies names_known(
            #[trigger] rest[i],
            keys,
            sigma,
        ) by {
            assert(rest[i] == xs[i + 1]);
        }
        lemma_seq_heads_bounded(rest, nulls, f, keys, sigma, len);
    }
}

pub proof fn lemma_known_inner(
    e: ExprView,
    x: ExprView,
    keys: Set<Seq<char>>,
    sigma: Set<Seq<char>>,
)
    requires
        names_known(e, keys, sigma),
        e == ExprView::Opt(Box::new(x)) || e == ExprView::Star(Box::new(x)) || e == ExprView::Plus(
            Box::new(x),
        ) || (e is Label && *e->Label_1 == x),
    ensures
        names_known(x, keys, sigma),
{
    assert(rule_refs(e) == rule_refs(x));
    assert forall|n: Seq<char>| first_follow::mentions(x, n) implies #[trigger] sigma.contains(
        n,
    ) by {
        assert(first_follow::mentions(e, n));
    }
}

/// A table that says no more than the full one is finite.
proof fn lemma_full_tagged(
    fo: Firsts,
    keys: Set<Seq<char>>,
    u: Set<NameSeq>,
    sigma: Set<Seq<char>>,
    len: nat,
)
    requires
        first_follow::tables_le(fo, full(keys, u)),
        u.subset_of(universe::all_seqs(sigma, len)),
    ensures
        first_follow::tagged(fo).subset_of(universe::all_seqs(sigma.union(keys), len + 1)),
{
    let big = sigma.union(keys);
    assert forall|s: NameSeq| first_follow::tagged(fo).contains(s) implies universe::all_seqs(
        big,
        len + 1,
    ).contains(s) by {
        let t = s.skip(1);
        assert(first_follow::set_at(fo, s[0]).subset_of(first_follow::set_at(full(keys, u), s[0])));
        assert(first_follow::set_at(full(keys, u), s[0]).contains(t));
        assert(universe::all_seqs(sigma, len).contains(t));
        assert forall|i: int| 0 <= i < s.len() implies big.contains(#[trigger] s[i]) by {
            if i > 0 {
                assert(s[i] == t[i - 1]);
            }
        }
    }
}

pub proof fn lemma_add_set_le(fo0: Firsts, fo1: Firsts, fo2: Firsts, n: Seq<char>, s: Set<NameSeq>)
    requires
        forall|m: Seq<char>| #[trigger]
            first_follow::set_at(fo1, m) == (if m == n {
                first_follow::set_at(fo0, m).union(s)
            } else {
                first_follow::set_at(fo0, m)
            }),
        first_follow::tables_le(fo0, fo2),
        s.subset_of(first_follow::set_at(fo2, n)),
    ensures
        first_follow::tables_le(fo1, fo2),
{
    assert forall|m: Seq<char>| (#[trigger] first_follow::set_at(fo1, m)).subset_of(
        first_follow::set_at(fo2, m),
    ) by {
        assert(first_follow::set_at(fo0, m).subset_of(first_follow::set_at(fo2, m)));
    }
}

proof fn lemma_after_mono(
    xs: Seq<ExprView>,
    i: int,
    t1: Set<NameSeq>,
    t2: Set<NameSeq>,
    nulls: Nulls,
    f: Firsts,
)
    requires
        t1.subset_of(t2),
    ensures
        after(xs, i, t1, nulls, f).subset_of(after(xs, i, t2, nulls, f)),
{
    reveal(after);
}

/// A table that does for a tail does for a smaller one.
proof fn lemma_closed_mono(
    e: ExprView,
    t1: Set<NameSeq>,
    t2: Set<NameSeq>,
    nulls: Nulls,
    f: Firsts,
    fo: Firsts,
)
    requires
        t1.subset_of(t2),
        follow_closed(e, t2, nulls, f, fo),
    ensures
        follow_closed(e, t1, nulls, f, fo),
    decreases e,
{
    match e {
        ExprView::Concat(xs) => {
            assert forall|i: int| 0 <= i < xs.len() implies follow_closed(
                #[trigger] xs[i],
                after(xs, i + 1, t1, nulls, f),
                nulls,
                f,
                fo,
            ) by {
                lemma_after_mono(xs, i + 1, t1, t2, nulls, f);
                lemma_closed_mono(
                    xs[i],
                    after(xs, i + 1, t1, nulls, f),
                    after(xs, i + 1, t2, nulls, f),
                    nulls,
                    f,
                    fo,
                );
            }
        },
        ExprView::Alt(xs) => {
            assert forall|i: int| 0 <= i < xs.len() implies follow_closed(
                #[trigger] xs[i],
                t1,
                nulls,
                f,
                fo,
            ) by {
                lemma_closed_mono(xs[i], t1, t2, nulls, f, fo);
            }
        },
        ExprView::Opt(x) => lemma_closed_mono(*x, t1, t2, nulls, f, fo),
        ExprView::Label(_, x) => lemma_closed_mono(*x, t1, t2, nulls, f, fo),
        ExprView::Star(x) => lemma_closed_mono(
            *x,
            after_round(*x, t1, nulls, f),
            after_round(*x, t2, nulls, f),
            nulls,
            f,
            fo,
        ),
        ExprView::Plus(x) => lemma_closed_mono(
            *x,
            after_round(*x, t1, nulls, f),
            after_round(*x, t2, nulls, f),
            nulls,
            f,
            fo,
        ),
        _ => {},
    }
}

/// The full table has all that an expression lets follow.
proof fn lemma_full_closed(
    e: ExprView,
    tail: Set<NameSeq>,
    nulls: Nulls,
    f: Firsts,
    keys: Set<Seq<char>>,
    sigma: Set<Seq<char>>,
    len: nat,
)
    requires
        1 <= len,
        tail.subset_of(ones(sigma)),
        bounded(f, sigma, len),
        names_known(e, keys, sigma),
    ensures
        follow_closed(e, tail, nulls, f, full(keys, ones(sigma))),
    decreases e,
{
    let fo = full(keys, ones(sigma));
    match e {
        ExprView::Empty => {},
        ExprView::Token(_) => {},
        ExprView::Rule(n) => {
            assert(rule_refs(e)[0] == n);
            assert(rule_refs(e).contains(n));
        },
        ExprView::Concat(xs) => {
            lemma_known_parts(e, xs, keys, sigma);
            assert forall|i: int| 0 <= i < xs.len() implies follow_closed(
                #[trigger] xs[i],
                after(xs, i + 1, tail, nulls, f),
                nulls,
                f,
                fo,
            ) by {
                let rest = xs.skip(i + 1);
                assert forall|j: int| 0 <= j < rest.len() implies names_known(
                    #[trigger] rest[j],
                    keys,
                    sigma,
                ) by {
                    assert(rest[j] == xs[i + 1 + j]);
                }
                lemma_seq_heads_bounded(rest, nulls, f, keys, sigma, len);
                assert(after(xs, i + 1, tail, nulls, f).subset_of(ones(sigma))) by {
                    reveal(after);
                }
                lemma_full_closed(
                    xs[i],
                    after(xs, i + 1, tail, nulls, f),
                    nulls,
                    f,
                    keys,
                    sigma,
                    len,
                );
            }
        },
        ExprView::Alt(xs) => {
            lemma_known_parts(e, xs, keys, sigma);
            assert forall|i: int| 0 <= i < xs.len() implies follow_closed(
                #[trigger] xs[i],
                tail,
                nulls,
                f,
                fo,
            ) by {
                lemma_full_closed(xs[i], tail, nulls, f, keys, sigma, len);
            }
        },
        ExprView::Opt(x) => {
            lemma_known_inner(e, *x, keys, sigma);
            lemma_full_closed(*x, tail, nulls, f, keys, sigma, len);
        },
        ExprView::Star(x) => {
            lemma_known_inner(e, *x, keys, sigma);
            lemma_full_round(*x, tail, nulls, f, keys, sigma, len);
            lemma_full_closed(*x, after_round(*x, tail, nulls, f), nulls, f, keys, sigma, len);
        },
        ExprView::Plus(x) => {
            lemma_known_inner(e, *x, keys, sigma);
            lemma_full_round(*x, tail, nulls, f, keys, sigma, len);
            lemma_full_closed(*x, after_round(*x, tail, nulls, f), nulls, f, keys, sigma, len);
        },
        ExprView::Label(_, x) => {
            lemma_known_inner(e, *x, keys, sigma);
            lemma_full_closed(*x, tail, nulls, f, keys, sigma, len);
        },
    }
}

proof fn lemma_full_round(
    x: ExprView,
    tail: Set<NameSeq>,
    nulls: Nulls,
    f: Firsts,
    keys: Set<Seq<char>>,
    sigma: Set<Seq<char>>,
    len: nat,
)
    requires
        1 <= len,
        tail.subset_of(ones(sigma)),
        bounded(f, sigma, len),
        names_known(x, keys, sigma),
    ensures
        after_round(x, tail, nulls, f).subset_of(ones(sigma)),
{
    first_follow::lemma_first_bounded(x, nulls, f, 1, sigma, len);
    lemma_heads_bounded(first_follow::first_expr(x, nulls, f, 1), sigma, len);
}

/// Every table closed under the one expression contains `fo1` if it contains
/// `fo0`.
spec fn forced(
    e: ExprView,
    tail: Set<NameSeq>,
    nulls: Nulls,
    f: Firsts,
    fo0: Firsts,
    fo1: Firsts,
) -> bool {
    forall|fo2: Firsts| #[trigger]
        follow_closed(e, tail, nulls, f, fo2) && first_follow::tables_le(fo0, fo2)
            ==> first_follow::tables_le(fo1, fo2)
}

/// What can come after the item before position `from`, where `tail` comes
/// after them all.
fn after_of(
    xs: &Vec<Expr>,
    from: usize,
    tail: &FirstSet,
    nullable: &NullTable,
    first: &FirstTable,
) -> (r: FirstSet)
    requires
        from <= xs@.len(),
        nullable.wf(),
        first.wf(),
        tail.wf(),
    ensures
        r.wf(),
        r@ == after(
            ir::exprs_view(xs@),
            from as int,
            tail@,
            nullable@,
            first_follow::firsts(*first),
        ),
{
    proof {
        reveal(after);
    }
    let (mut out, empty) = first_of_seq_1(xs, from, nullable, first);
    if empty {
        out.extend(tail);
    }
    out
}

/// Adds to `follow` what `e`, with `tail` after it, lets follow; true if
/// something was not there.
fn walk_follow(
    e: &Expr,
    tail: &FirstSet,
    nullable: &NullTable,
    first: &FirstTable,
    follow: &mut FirstTable,
) -> (changed: bool)
    requires
        nullable.wf(),
        first_follow::table_wf(*first),
        first_follow::table_wf(*old(follow)),
        tail.wf(),
    ensures
        first_follow::table_wf(*final(follow)),
        grown(
            first_follow::firsts(*old(follow)),
            first_follow::firsts(*final(follow)),
            changed,
        ),
        !changed ==> follow_closed(
            e@,
            tail@,
            nullable@,
            first_follow::firsts(*first),
            first_follow::firsts(*final(follow)),
        ),
        forced(
            e@,
            tail@,
            nullable@,
            first_follow::firsts(*first),
            first_follow::firsts(*old(follow)),
            first_follow::firsts(*final(follow)),
        ),
    decreases e,
{
    let ghost fo0 = first_follow::firsts(*follow);
    let ghost nv = nullable@;
    let ghost fv = first_follow::firsts(*first);
    match e {
        Expr::Empty => false,
        Expr::Token(_) => false,
        Expr::Rule(n) => {
            let changed = add_to(follow, n.as_str(), tail);
            proof {
                let fo1 = first_follow::firsts(*follow);
                assert forall|fo2: Firsts| #[trigger]
                    follow_closed(e@, tail@, nv, fv, fo2) && first_follow::tables_le(
                        fo0,
                        fo2,
                    ) implies first_follow::tables_le(fo1, fo2) by {
                    lemma_add_set_le(fo0, fo1, fo2, n@, tail@);
                }
            }
            changed
        },
        Expr::Concat(xs) => walk_follow_concat(xs, tail, nullable, first, follow),
        Expr::Alt(xs) => walk_follow_alt(xs, tail, nullable, first, follow),
        Expr::Opt(x) => {
            let changed = walk_follow(x, tail, nullable, first, follow);
            proof {
                let fo1 = first_follow::firsts(*follow);
                lemma_forced_inner(e@, tail@, x@, tail@, nv, fv, fo0, fo1);
            }
            changed
        },
        Expr::Label(_, x) => {
            let changed = walk_follow(x, tail, nullable, first, follow);
            proof {
                let fo1 = first_follow::firsts(*follow);
                lemma_forced_inner(e@, tail@, x@, tail@, nv, fv, fo0, fo1);
            }
            changed
        },
        Expr::Star(x) => {
            let fx = first_follow::first_of(x, nullable, first, 1);
            let mut body_tail = heads_of(&fx);
            body_tail.extend(tail);
            let changed = walk_follow(x, &body_tail, nullable, first, follow);
            proof {
                let fo1 = first_follow::firsts(*follow);
                lemma_forced_inner(e@, tail@, x@, body_tail@, nv, fv, fo0, fo1);
            }
            changed
        },
        Expr::Plus(x) => {
            let fx = first_follow::first_of(x, nullable, first, 1);
            let mut body_tail = heads_of(&fx);
            body_tail.extend(tail);
            let changed = walk_follow(x, &body_tail, nullable, first, follow);
            proof {
                let fo1 = first_follow::firsts(*follow);
                lemma_forced_inner(e@, tail@, x@, body_tail@, nv, fv, fo0, fo1);
            }
            changed
        },
    }
}

proof fn lemma_forced_inner(
    e: ExprView,
    tail: Set<NameSeq>,
    x: ExprView,
    inner_tail: Set<NameSeq>,
    nulls: Nulls,
    f: Firsts,
    fo0: Firsts,
    fo1: Firsts,
)
    requires
        forced(x, inner_tail, nulls, f, fo0, fo1),
        match e {
            ExprView::Opt(y) => *y == x && inner_tail == tail,
            ExprView::Label(_, y) => *y == x && inner_tail == tail,
            ExprView::Star(y) => *y == x && inner_tail == after_round(x, tail, nulls, f),
            ExprView::Plus(y) => *y == x && inner_tail == after_round(x, tail, nulls, f),
            _ => false,
        },
    ensures
        forced(e, tail, nulls, f, fo0, fo1),
{
    assert forall|fo2: Firsts| #[trigger]
        follow_closed(e, tail, nulls, f, fo2) && first_follow::tables_le(
            fo0,
            fo2,
        ) implies first_follow::tables_le(fo1, fo2) by {
        assert(follow_closed(x, inner_tail, nulls, f, fo2));
    }
}

fn walk_follow_alt(
    xs: &Vec<Expr>,
    tail: &FirstSet,
    nullable: &NullTable,
    first: &FirstTable,
    follow: &mut FirstTable,
) -> (changed: bool)
    requires
        nullable.wf(),
        first_follow::table_wf(*first),
        first_follow::table_wf(*old(follow)),
        tail.wf(),
    ensures
        first_follow::table_wf(*final(follow)),
        grown(
            first_follow::firsts(*old(follow)),
            first_follow::firsts(*final(follow)),
            changed,
        ),
        !changed ==> follow_closed(
            ExprView::Alt(ir::exprs_view(xs@)),
            tail@,
            nullable@,
            first_follow::firsts(*first),
            first_follow::firsts(*final(follow)),
        ),
        forced(
            ExprView::Alt(ir::exprs_view(xs@)),
            tail@,
            nullable@,
            first_follow::firsts(*first),
            first_follow::firsts(*old(follow)),
            first_follow::firsts(*final(follow)),
        ),
    decreases xs,
{
    let ghost views = ir::exprs_view(xs@);
    let ghost whole = ExprView::Alt(views);
    let ghost nv = nullable@;
    let ghost fv = first_follow::firsts(*first);
    let ghost fo0 = first_follow::firsts(*follow);
    proof {
        assert(whole->Alt_0 == views);
    }
    let mut changed = false;
    let mut i: usize = 0;
    while i < xs.len()
        invariant
            i <= xs@.len(),
            nullable.wf(),
            first_follow::table_wf(*first),
            first_follow::table_wf(*follow),
            tail.wf(),
            views == ir::exprs_view(xs@),
            whole == ExprView::Alt(views),
            whole->Alt_0 == views,
            nv == nullable@,
            fv == first_follow::firsts(*first),
            grown(fo0, first_follow::firsts(*follow), changed),
            !changed ==> forall|j: int|
                0 <= j < i ==> follow_closed(#[trigger] views[j], tail@, nv, fv, fo0),
            forced(whole, tail@, nv, fv, fo0, first_follow::firsts(*follow)),
        decreases xs@.len() - i,
    {
        let ghost fo1 = first_follow::firsts(*follow);
        let ghost c1 = changed;
        let c = walk_follow(&xs[i], tail, nullable, first, follow);
        proof {
            let fo3 = first_follow::firsts(*follow);
            lemma_grown_trans(fo0, fo1, fo3, c1, c);
            assert(views[i as int] == xs@[i as int]@);
            assert forall|fo2: Firsts| #[trigger]
                follow_closed(whole, tail@, nv, fv, fo2) && first_follow::tables_le(
                    fo0,
                    fo2,
                ) implies first_follow::tables_le(fo3, fo2) by {
                assert(first_follow::tables_le(fo1, fo2));
                assert(follow_closed(views[i as int], tail@, nv, fv, fo2));
            }
        }
        changed = changed || c;
        i += 1;
    }
    changed
}

proof fn lemma_forced_item(
    xs: Seq<ExprView>,
    i: int,
    tail: Set<NameSeq>,
    nulls: Nulls,
    f: Firsts,
    fo0: Firsts,
    fo1: Firsts,
    fo3: Firsts,
)
    requires
        0 <= i < xs.len(),
        forced(ExprView::Concat(xs), tail, nulls, f, fo0, fo1),
        forced(xs[i], after(xs, i + 1, tail, nulls, f), nulls, f, fo1, fo3),
    ensures
        forced(ExprView::Concat(xs), tail, nulls, f, fo0, fo3),
{
    let whole = ExprView::Concat(xs);
    assert(whole->Concat_0 == xs);
    assert forall|fo2: Firsts| #[trigger]
        follow_closed(whole, tail, nulls, f, fo2) && first_follow::tables_le(
            fo0,
            fo2,
        ) implies first_follow::tables_le(fo3, fo2) by {
        assert(first_follow::tables_le(fo1, fo2));
        let rest = after(xs, i + 1, tail, nulls, f);
        assert(follow_closed(xs[i], rest, nulls, f, fo2));
    }
}

fn walk_follow_concat(
    xs: &Vec<Expr>,
    tail: &FirstSet,
    nullable: &NullTable,
    first: &FirstTable,
    follow: &mut FirstTable,
) -> (changed: bool)
    requires
        nullable.wf(),
        first_follow::table_wf(*first),
        first_follow::table_wf(*old(follow)),
        tail.wf(),
    ensures
        first_follow::table_wf(*final(follow)),
        grown(
            first_follow::firsts(*old(follow)),
            first_follow::firsts(*final(follow)),
            changed,
        ),
        !changed ==> follow_closed(
            ExprView::Concat(ir::exprs_view(xs@)),
            tail@,
            nullable@,
            first_follow::firsts(*first),
            first_follow::firsts(*final(follow)),
        ),
        forced(
            ExprView::Concat(ir::exprs_view(xs@)),
            tail@,
            nullable@,
            first_follow::firsts(*first),
            first_follow::firsts(*old(follow)),
            first_follow::firsts(*final(follow)),
        ),
    decreases xs,
{
    let ghost views = ir::exprs_view(xs@);
    let ghost whole = ExprView::Concat(views);
    let ghost nv = nullable@;
    let ghost fv = first_follow::firsts(*first);
    let ghost fo0 = first_follow::firsts(*follow);
    proof {
        assert(whole->Concat_0 == views);
    }
    let mut changed = false;
    let mut i: usize = xs.len();
    while i > 0
        invariant
            i <= xs@.len(),
            nullable.wf(),
            first_follow::table_wf(*first),
            first_follow::table_wf(*follow),
            tail.wf(),
            views == ir::exprs_view(xs@),
            whole == ExprView::Concat(views),
            whole->Concat_0 == views,
            nv == nullable@,
            fv == first_follow::firsts(*first),
            grown(fo0, first_follow::firsts(*follow), changed),
            !changed ==> forall|j: int|
                i <= j < views.len() ==> follow_closed(
                    #[trigger] views[j],
                    after(views, j + 1, tail@, nv, fv),
                    nv,
                    fv,
                    fo0,
                ),
            forced(whole, tail@, nv, fv, fo0, first_follow::firsts(*follow)),
        decreases i,
    {
        let ghost fo1 = first_follow::firsts(*follow);
        let ghost c1 = changed;
        let rest = after_of(xs, i, tail, nullable, first);
        i -= 1;
        let c = walk_follow(&xs[i], &rest, nullable, first, follow);
        proof {
            let fo3 = first_follow::firsts(*follow);
            lemma_grown_trans(fo0, fo1, fo3, c1, c);
            assert(views[i as int] == xs@[i as int]@);
            lemma_forced_item(views, i as int, tail@, nv, fv, fo0, fo1, fo3);
        }
        changed = changed || c;
    }
    changed
}

/// The names of a sequence of sets of singletons, as a set of names.
fn names_of(s: &FirstSet) -> (r: NameSet)
    requires
        forall|x: NameSeq| #[trigger] s@.contains(x) ==> x.len() == 1,
    ensures
        r.wf(),
        forall|n: Seq<char>| #[trigger] r@.contains(n) <==> s@.contains(seq![n]),
{
    let mut r = NameSet::new();
    let mut i: usize = 0;
    while i < s.len()
        invariant
            i <= s.list().len(),
            forall|x: NameSeq| #[trigger] s@.contains(x) ==> x.len() == 1,
            r.wf(),
            forall|n: Seq<char>| #[trigger]
                r@.contains(n) <==> exists|j: int| 0 <= j < i && #[trigger] s.list()[j] == seq![n],
        decreases s.list().len() - i,
    {
        let ghost before = r@;
        let ghost y = s.list()[i as int];
        assert(s@.contains(y)) by {
            assert(s.list().contains(y));
        }
        let one = s.get(i);
        r.insert(one[0].as_str());
        proof {
            assert(y =~= seq![y[0]]);
            assert forall|n: Seq<char>| #[trigger] r@.contains(n) <==> exists|j: int|
                0 <= j < i + 1 && #[trigger] s.list()[j] == seq![n] by {
                assert(before.contains(n) <==> exists|j: int|
                    0 <= j < i && #[trigger] s.list()[j] == seq![n]);
                if exists|j: int| 0 <= j < i + 1 && #[trigger] s.list()[j] == seq![n] {
                    let j = choose|j: int| 0 <= j < i + 1 && #[trigger] s.list()[j] == seq![n];
                    if j < i {
                        assert(before.contains(n));
                    } else {
                        assert(seq![n][0] == y[0]);
                    }
                }
                if r@.contains(n) && !before.contains(n) {
                    assert(s.list()[i as int] == seq![n]);
                }
            }
        }
        i += 1;
    }
    proof {
        assert forall|n: Seq<char>| #[trigger] r@.contains(n) <==> s@.contains(seq![n]) by {
            if s@.contains(seq![n]) {
                let j = choose|j: int| 0 <= j < s.list().len() && s.list()[j] == seq![n];
                assert(s.list()[j] == seq![n]);
            }
            if r@.contains(n) {
                let j = choose|j: int| 0 <= j < s.list().len() && #[trigger] s.list()[j] == seq![n];
                assert(s.list().contains(seq![n]));
            }
        }
    }
    r
}

/// The names under which something can be filed.
pub open spec fn all_keys(rules: Seq<RuleView>) -> Set<Seq<char>> {
    first_follow::rule_names(rules).union(
        list_refs(Seq::new(rules.len(), |i: int| rules[i].body)).to_set(),
    )
}

pub proof fn lemma_all_keys(rules: Seq<RuleView>)
    ensures
        all_keys(rules).finite(),
        forall|i: int|
            0 <= i < rules.len() ==> all_keys(rules).contains((#[trigger] rules[i]).name)
                && forall|n: Seq<char>|
                rule_refs(rules[i].body).contains(n) ==> #[trigger] all_keys(rules).contains(n),
{
    let bodies = Seq::new(rules.len(), |i: int| rules[i].body);
    first_follow::lemma_rule_names_finite(rules);
    vstd::seq_lib::seq_to_set_is_finite(list_refs(bodies));
    vstd::set_lib::lemma_set_union_finite_iff(
        first_follow::rule_names(rules),
        list_refs(bodies).to_set(),
    );
    assert forall|i: int| 0 <= i < rules.len() implies all_keys(rules).contains(
        (#[trigger] rules[i]).name,
    ) && forall|n: Seq<char>|
        rule_refs(rules[i].body).contains(n) ==> #[trigger] all_keys(rules).contains(n) by {
        assert forall|n: Seq<char>| rule_refs(
            rules[i].body,
        ).contains(n) implies #[trigger] all_keys(rules).contains(n) by {
            assert(bodies[i] == rules[i].body);
            lemma_list_refs(bodies, i, n);
        }
    }
}

/// Every sequence filed in the table.
pub open spec fn filed(f: Firsts) -> Set<NameSeq> {
    Set::new(|s: NameSeq| exists|n: Seq<char>| #[trigger] first_follow::set_at(f, n).contains(s))
}

proof fn lemma_filed_finite(t: FirstTable)
    requires
        t.wf(),
    ensures
        filed(first_follow::firsts(t)).finite(),
{
    let f = first_follow::firsts(t);
    name_map::lemma_dom_finite(t);
    lemma_union_finite(t, t@.dom());
    let all = Set::new(
        |s: NameSeq| exists|n: Seq<char>| #[trigger] t@.dom().contains(n) && t@[n]@.contains(s),
    );
    assert(filed(f) =~= all) by {
        assert forall|s: NameSeq| filed(f).contains(s) <==> all.contains(s) by {
            if filed(f).contains(s) {
                let n = choose|n: Seq<char>| #[trigger] first_follow::set_at(f, n).contains(s);
                assert(t@.dom().contains(n));
            }
            if all.contains(s) {
                let n = choose|n: Seq<char>| #[trigger]
                    t@.dom().contains(n) && t@[n]@.contains(s);
                assert(first_follow::set_at(f, n).contains(s));
            }
        }
    }
}

proof fn lemma_union_finite(t: FirstTable, dom: Set<Seq<char>>)
    requires
        dom.finite(),
    ensures
        Set::new(
            |s: NameSeq| exists|n: Seq<char>| #[trigger] dom.contains(n) && t@[n]@.contains(s),
        ).finite(),
    decreases dom.len(),
{
    let all = Set::new(
        |s: NameSeq| exists|n: Seq<char>| #[trigger] dom.contains(n) && t@[n]@.contains(s),
    );
    if dom.len() == 0 {
        dom.lemma_len0_is_empty();
        assert(all =~= Set::empty());
    } else {
        let a = dom.choose();
        let rest = dom.remove(a);
        lemma_union_finite(t, rest);
        let less = Set::new(
            |s: NameSeq| exists|n: Seq<char>| #[trigger] rest.contains(n) && t@[n]@.contains(s),
        );
        vstd::seq_lib::seq_to_set_is_finite(t@[a].list());
        assert(all =~= less.union(t@[a]@)) by {
            assert forall|s: NameSeq| all.contains(s) <==> less.union(t@[a]@).contains(s) by {
                if all.contains(s) {
                    let n = choose|n: Seq<char>| #[trigger] dom.contains(n) && t@[n]@.contains(s);
                    if n != a {
                        assert(rest.contains(n));
                    }
                }
                if less.contains(s) {
                    let n = choose|n: Seq<char>| #[trigger]
                        rest.contains(n) && t@[n]@.contains(s);
                    assert(dom.contains(n));
                }
                if t@[a]@.contains(s) {
                    assert(dom.contains(a));
                }
            }
        }
        vstd::set_lib::lemma_set_union_finite_iff(less, t@[a]@);
    }
}

/// The names that can occur in what follows.
pub open spec fn follow_alphabet(rules: Seq<RuleView>, f: Firsts) -> Set<Seq<char>> {
    first_follow::rules_alphabet(rules).union(universe::names_in(filed(f))).insert(EOF_MARKER@)
}

/// The alphabet is finite, and some length bounds the table and `k`.
pub proof fn lemma_follow_alphabet(rules: Seq<RuleView>, t: FirstTable, k: nat) -> (len: nat)
    requires
        t.wf(),
    ensures
        follow_alphabet(rules, first_follow::firsts(t)).finite(),
        1 <= len,
        k <= len,
        bounded(
            first_follow::firsts(t),
            follow_alphabet(rules, first_follow::firsts(t)),
            len,
        ),
{
    let f = first_follow::firsts(t);
    let sigma = follow_alphabet(rules, f);
    lemma_filed_finite(t);
    let l = universe::lemma_finite_bound(filed(f));
    first_follow::lemma_rules_alphabet_finite(rules);
    vstd::set_lib::lemma_set_union_finite_iff(
        first_follow::rules_alphabet(rules),
        universe::names_in(filed(f)),
    );
    let len = l + k + 1;
    assert forall|n: Seq<char>| (#[trigger] first_follow::set_at(f, n)).subset_of(
        universe::all_seqs(sigma, len),
    ) by {
        assert forall|s: NameSeq| first_follow::set_at(f, n).contains(
            s,
        ) implies universe::all_seqs(sigma, len).contains(s) by {
            assert(filed(f).contains(s));
            assert(universe::all_seqs(universe::names_in(filed(f)), l).contains(s));
        }
    }
    len
}

/// A table in which every rule is followed by the end of input.
pub(crate) fn seeded(g: &Grammar) -> (follow: FirstTable)
    ensures
        first_follow::table_wf(follow),
        forall|n: Seq<char>| #[trigger]
            first_follow::set_at(first_follow::firsts(follow), n) == (
            if first_follow::rule_names(g.rule_list()).contains(n) {
                only_eof()
            } else {
                Set::empty()
            }),
        forall|n: Seq<char>| #[trigger]
            follow@.contains_key(n) <==> first_follow::rule_names(g.rule_list()).contains(n),
{
    let rules = g.rule_values();
    let ghost rv = g.rule_list();
    assert(first_follow::rules_view(rules@) =~= rv);
    let mut eof: Vec<String> = Vec::new();
    eof.push(EOF_MARKER.to_owned());
    assert(names::list_view(eof@) =~= seq![EOF_MARKER@]);
    let mut seed = FirstSet::new();
    seed.insert(eof);
    assert(seed@ =~= only_eof());
    let mut follow: FirstTable = NameMap::new();
    let mut i: usize = 0;
    while i < rules.len()
        invariant
            i <= rules@.len(),
            rv == first_follow::rules_view(rules@),
            seed.wf(),
            seed@ == only_eof(),
            first_follow::table_wf(follow),
            forall|n: Seq<char>| #[trigger] follow@.contains_key(n) ==> follow@[n]@ == only_eof(),
            forall|n: Seq<char>| #[trigger]
                follow@.contains_key(n) <==> exists|j: int|
                    0 <= j < i && (#[trigger] rv[j]).name == n,
        decreases rules@.len() - i,
    {
        let name = rules[i].name.as_str();
        assert(name@ == rv[i as int].name);
        follow.put(name, seed.clone());
        i += 1;
    }
    follow
}

pub proof fn lemma_seed_le(rules: Seq<RuleView>, fo: Firsts, fo2: Firsts)
    requires
        forall|n: Seq<char>| #[trigger]
            first_follow::set_at(fo, n) == (if first_follow::rule_names(rules).contains(n) {
                only_eof()
            } else {
                Set::empty()
            }),
        forall|i: int|
            0 <= i < rules.len() ==> only_eof().subset_of(
                first_follow::set_at(fo2, (#[trigger] rules[i]).name),
            ),
    ensures
        first_follow::tables_le(fo, fo2),
{
    assert forall|n: Seq<char>| (#[trigger] first_follow::set_at(fo, n)).subset_of(
        first_follow::set_at(fo2, n),
    ) by {
        if first_follow::rule_names(rules).contains(n) {
            let i = choose|i: int| 0 <= i < rules.len() && (#[trigger] rules[i]).name == n;
            assert(only_eof().subset_of(first_follow::set_at(fo2, rules[i].name)));
        }
    }
}

/// The table with each sequence of one read as its name.
fn to_names(t: &FirstTable) -> (r: FollowTable)
    requires
        first_follow::table_wf(*t),
        forall|n: Seq<char>, x: NameSeq| #[trigger]
            first_follow::set_at(first_follow::firsts(*t), n).contains(x) ==> x.len() == 1,
    ensures
        r.wf(),
        r@.dom() == t@.dom(),
        forall|n: Seq<char>| #[trigger] r@.contains_key(n) ==> r@[n].wf(),
        singles(r) == first_follow::firsts(*t),
{
    let ghost f = first_follow::firsts(*t);
    let mut r: FollowTable = NameMap::new();
    let mut i: usize = 0;
    while i < t.size()
        invariant
            i <= t.keys().len(),
            f == first_follow::firsts(*t),
            first_follow::table_wf(*t),
            forall|n: Seq<char>, x: NameSeq| #[trigger]
                first_follow::set_at(f, n).contains(x) ==> x.len() == 1,
            r.wf(),
            forall|n: Seq<char>| #[trigger]
                r@.contains_key(n) <==> exists|j: int| 0 <= j < i && #[trigger] t.keys()[j] == n,
            forall|n: Seq<char>| #[trigger]
                r@.contains_key(n) ==> t@.contains_key(n) && r@[n].wf() && forall|m: Seq<char>|
                    #[trigger] r@[n]@.contains(m) <==> t@[n]@.contains(seq![m]),
        decreases t.keys().len() - i,
    {
        let n = t.key(i);
        match t.get(n) {
            Some(s) => {
                assert forall|x: NameSeq| #[trigger] s@.contains(x) implies x.len() == 1 by {
                    assert(first_follow::set_at(f, n@).contains(x));
                }
                r.put(n, names_of(s));
            },
            None => {},
        }
        i += 1;
    }
    proof {
        name_map::lemma_keys(*t);
        assert forall|n: Seq<char>| r@.contains_key(n) <==> t@.contains_key(n) by {
            if t@.contains_key(n) {
                let j = choose|j: int| 0 <= j < t.keys().len() && t.keys()[j] == n;
                assert(t.keys()[j] == n);
            }
        }
        assert(r@.dom() =~= t@.dom());
        let s = singles(r);
        assert(s.dom() =~= f.dom());
        assert forall|n: Seq<char>| s.contains_key(n) implies s[n] == f[n] by {
            assert forall|x: NameSeq| s[n].contains(x) <==> f[n].contains(x) by {
                assert(first_follow::set_at(f, n) == f[n]);
                if x.len() == 1 {
                    assert(x =~= seq![x[0]]);
                    assert(r@[n]@.contains(x[0]) <==> t@[n]@.contains(seq![x[0]]));
                }
                if f[n].contains(x) {
                    assert(first_follow::set_at(f, n).contains(x));
                }
            }
            assert(s[n] =~= f[n]);
        }
        assert(s =~= f);
    }
    r
}

/// What holds throughout the saturation of FOLLOW.
spec fn follow_inv(rules: Seq<RuleView>, nulls: Nulls, f: Firsts, fo: Firsts) -> bool {
    &&& forall|i: int|
        0 <= i < rules.len() ==> only_eof().subset_of(
            first_follow::set_at(fo, (#[trigger] rules[i]).name),
        )
    &&& forall|fo2: Firsts| #[trigger]
        follow_holds(rules, nulls, f, fo2) ==> first_follow::tables_le(fo, fo2)
}

/// The table of all singletons of an alphabet has all that may follow.
proof fn lemma_ones_hold(
    rules: Seq<RuleView>,
    nulls: Nulls,
    f: Firsts,
    sigma: Set<Seq<char>>,
    len: nat,
)
    requires
        1 <= len,
        sigma == follow_alphabet(rules, f),
        bounded(f, sigma, len),
    ensures
        follow_holds(rules, nulls, f, full(all_keys(rules), ones(sigma))),
{
    let keys = all_keys(rules);
    let u = ones(sigma);
    let fo = full(keys, u);
    lemma_all_keys(rules);
    assert forall|i: int| 0 <= i < rules.len() implies only_eof().subset_of(
        first_follow::set_at(fo, (#[trigger] rules[i]).name),
    ) && follow_closed(
        rules[i].body,
        first_follow::set_at(fo, rules[i].name),
        nulls,
        f,
        fo,
    ) by {
        assert forall|n: Seq<char>| first_follow::mentions(
            rules[i].body,
            n,
        ) implies #[trigger] sigma.contains(n) by {
            assert(first_follow::rules_alphabet(rules).contains(n));
        }
        assert(names_known(rules[i].body, keys, sigma));
        lemma_full_closed(rules[i].body, u, nulls, f, keys, sigma, len);
        assert forall|s: NameSeq| only_eof().contains(s) implies u.contains(s) by {}
    }
}

/// Progress of a saturation: more is filed, within a finite universe.
pub proof fn lemma_progress(
    fo0: Firsts,
    fo1: Firsts,
    keys: Set<Seq<char>>,
    u: Set<NameSeq>,
    sigma: Set<Seq<char>>,
    len: nat,
)
    requires
        grown(fo0, fo1, true),
        first_follow::tables_le(fo1, full(keys, u)),
        u.subset_of(universe::all_seqs(sigma, len)),
        keys.finite(),
        sigma.finite(),
    ensures
        first_follow::tagged(fo0).len() < first_follow::tagged(fo1).len() <= universe::all_seqs(
            sigma.union(keys),
            len + 1,
        ).len(),
{
    let all = universe::all_seqs(sigma.union(keys), len + 1);
    lemma_full_tagged(fo1, keys, u, sigma, len);
    vstd::set_lib::lemma_set_union_finite_iff(sigma, keys);
    universe::lemma_all_seqs_finite(sigma.union(keys), len + 1);
    assert forall|x: NameSeq| first_follow::tagged(fo0).contains(x) implies first_follow::tagged(
        fo1,
    ).contains(x) by {
        assert(first_follow::set_at(fo0, x[0]).subset_of(first_follow::set_at(fo1, x[0])));
    }
    let (n, s) = choose|n: Seq<char>, s: NameSeq| #[trigger]
        first_follow::set_at(fo1, n).contains(s) && !first_follow::set_at(fo0, n).contains(s);
    let x = seq![n] + s;
    assert(x.skip(1) =~= s);
    universe::lemma_gain(first_follow::tagged(fo0), first_follow::tagged(fo1), all, x);
}

/// Compute FOLLOW (single-token) for every rule. Every rule can be followed by
/// the end of input, since any rule could be the outermost one.
pub fn compute_follow(g: &Grammar, first: &FirstTable, nullable: &NullTable) -> (r: FollowTable)
    requires
        first_follow::table_wf(*first),
        nullable.wf(),
    ensures
        r.wf(),
        forall|n: Seq<char>| #[trigger] r@.contains_key(n) ==> r@[n].wf(),
        is_follow(g.rule_list(), nullable@, first_follow::firsts(*first), singles(r)),
{
    let rules = g.rule_values();
    let ghost rv = g.rule_list();
    assert(first_follow::rules_view(rules@) =~= rv);
    let ghost nv = nullable@;
    let ghost fv = first_follow::firsts(*first);
    let ghost sigma = follow_alphabet(rv, fv);
    let ghost keys = all_keys(rv);
    proof {
        let len = lemma_follow_alphabet(rv, *first, 0);
        lemma_all_keys(rv);
        lemma_ones_hold(rv, nv, fv, sigma, len);
    }
    let ghost all = universe::all_seqs(sigma.union(keys), 2);
    let mut follow = seeded(g);
    proof {
        let fo = first_follow::firsts(follow);
        assert forall|fo2: Firsts| #[trigger]
            follow_holds(rv, nv, fv, fo2) implies first_follow::tables_le(fo, fo2) by {
            lemma_seed_le(rv, fo, fo2);
        }
        assert(follow_inv(rv, nv, fv, fo)) by {
            assert forall|i: int| 0 <= i < rv.len() implies only_eof().subset_of(
                first_follow::set_at(fo, (#[trigger] rv[i]).name),
            ) by {
                assert(first_follow::rule_names(rv).contains(rv[i].name));
            }
        }
    }
    let mut changed = true;
    while changed
        invariant
            rv == first_follow::rules_view(rules@),
            nv == nullable@,
            fv == first_follow::firsts(*first),
            nullable.wf(),
            first_follow::table_wf(*first),
            first_follow::table_wf(follow),
            keys.finite(),
            sigma.finite(),
            all == universe::all_seqs(sigma.union(keys), 2),
            follow_holds(rv, nv, fv, full(keys, ones(sigma))),
            follow_inv(rv, nv, fv, first_follow::firsts(follow)),
            !changed ==> follow_holds(rv, nv, fv, first_follow::firsts(follow)),
        decreases
                all.len() - first_follow::tagged(first_follow::firsts(follow)).len(),
                (if changed {
                    1int
                } else {
                    0int
                }),
    {
        changed = false;
        let ghost fo0 = first_follow::firsts(follow);
        let mut i: usize = 0;
        while i < rules.len()
            invariant
                i <= rules@.len(),
                rv == first_follow::rules_view(rules@),
                nv == nullable@,
                fv == first_follow::firsts(*first),
                nullable.wf(),
                first_follow::table_wf(*first),
                first_follow::table_wf(follow),
                follow_inv(rv, nv, fv, fo0),
                follow_inv(rv, nv, fv, first_follow::firsts(follow)),
                grown(fo0, first_follow::firsts(follow), changed),
                !changed ==> forall|j: int|
                    0 <= j < i ==> follow_closed(
                        (#[trigger] rv[j]).body,
                        first_follow::set_at(fo0, rv[j].name),
                        nv,
                        fv,
                        fo0,
                    ),
            decreases rules@.len() - i,
        {
            let ghost fo1 = first_follow::firsts(follow);
            let ghost c1 = changed;
            let host_follow = set_of(&follow, rules[i].name.as_str());
            let c = walk_follow(&rules[i].body, &host_follow, nullable, first, &mut follow);
            proof {
                let fo3 = first_follow::firsts(follow);
                let r = rv[i as int];
                assert(r.name == rules@[i as int].name@ && r.body == rules@[i as int].body@);
                lemma_grown_trans(fo0, fo1, fo3, c1, c);
                assert forall|fo2: Firsts| #[trigger]
                    follow_holds(rv, nv, fv, fo2) implies first_follow::tables_le(fo3, fo2) by {
                    assert(first_follow::tables_le(fo1, fo2));
                    let tail2 = first_follow::set_at(fo2, rv[i as int].name);
                    assert(first_follow::set_at(fo1, r.name).subset_of(tail2));
                    assert(follow_closed(rv[i as int].body, tail2, nv, fv, fo2));
                    lemma_closed_mono(r.body, host_follow@, tail2, nv, fv, fo2);
                }
                assert forall|j: int| 0 <= j < rv.len() implies only_eof().subset_of(
                    first_follow::set_at(fo3, (#[trigger] rv[j]).name),
                ) by {
                    assert(first_follow::set_at(fo1, rv[j].name).subset_of(
                        first_follow::set_at(fo3, rv[j].name),
                    ));
                }
            }
            changed = changed || c;
            i += 1;
        }
        proof {
            if changed {
                lemma_progress(fo0, first_follow::firsts(follow), keys, ones(sigma), sigma, 1);
            }
        }
    }
    let ghost fo = first_follow::firsts(follow);
    proof {
        assert(is_follow(rv, nv, fv, fo));
        assert(first_follow::tables_le(fo, full(keys, ones(sigma))));
        assert forall|n: Seq<char>, x: NameSeq| #[trigger]
            first_follow::set_at(fo, n).contains(x) implies x.len() == 1 by {
            assert(first_follow::set_at(fo, n).subset_of(
                first_follow::set_at(full(keys, ones(sigma)), n),
            ));
        }
    }
    let r = to_names(&follow);
    assert(singles(r) =~= fo);
    r
}

} // verus!
