//! What FOLLOW(k) says.
use vstd::prelude::*;

use crate::analysis::conflict_laws;
use crate::analysis::first_follow::{self, Firsts};
use crate::analysis::first_set::{self, NameSeq};
use crate::analysis::follow;
use crate::analysis::follow_k;
use crate::analysis::lookahead::Tables;
use crate::analysis::EOF_MARKER;
use crate::grammar::ir::{ExprView, RuleView};

verus! {

/// The rule `n` stands somewhere in `e`, and `s` can come behind it there, where
/// `tail` comes after `e`.
pub open spec fn behind_rule(
    e: ExprView,
    tail: Set<NameSeq>,
    t: Tables,
    n: Seq<char>,
    s: NameSeq,
) -> bool
    decreases e,
{
    match e {
        ExprView::Empty => false,
        ExprView::Token(_) => false,
        ExprView::Rule(m) => m == n && tail.contains(s),
        ExprView::Concat(xs) => exists|i: int|
            0 <= i < xs.len() && behind_rule(
                #[trigger] xs[i],
                conflict_laws::tokens_of(t, xs.skip(i + 1), tail),
                t,
                n,
                s,
            ),
        ExprView::Alt(xs) => exists|i: int|
            0 <= i < xs.len() && behind_rule(#[trigger] xs[i], tail, t, n, s),
        ExprView::Opt(x) => behind_rule(*x, tail, t, n, s),
        ExprView::Star(x) => behind_rule(*x, conflict_laws::tokens_of(t, seq![ExprView::Star(x)], tail), t, n, s),
        ExprView::Plus(x) => behind_rule(*x, conflict_laws::tokens_of(t, seq![ExprView::Star(x)], tail), t, n, s),
        ExprView::Label(_, x) => behind_rule(*x, tail, t, n, s),
    }
}

/// `s` comes behind the rule `n`: it is the end of input, or it can come behind
/// some place where the rule stands.
pub open spec fn follows_rule(
    rules: Seq<RuleView>,
    t: Tables,
    fo: Firsts,
    n: Seq<char>,
    s: NameSeq,
) -> bool {
    ||| s == seq![EOF_MARKER@] && exists|i: int|
        0 <= i < rules.len() && (#[trigger] rules[i]).name == n
    ||| exists|i: int|
        0 <= i < rules.len() && behind_rule(
            (#[trigger] rules[i]).body,
            first_follow::set_at(fo, rules[i].name),
            t,
            n,
            s,
        )
}

proof fn lemma_tokens_mono(t: Tables, xs: Seq<ExprView>, a: Set<NameSeq>, b: Set<NameSeq>)
    requires
        a.subset_of(b),
    ensures
        conflict_laws::tokens_of(t, xs, a).subset_of(conflict_laws::tokens_of(t, xs, b)),
    decreases xs.len(),
{
    if xs.len() > 0 {
        lemma_tokens_mono(t, xs.skip(1), a, b);
        let here = first_follow::first_expr(xs[0], t.nulls, t.firsts, t.k);
        first_set::lemma_concat_mono(
            here,
            here,
            conflict_laws::tokens_of(t, xs.skip(1), a),
            conflict_laws::tokens_of(t, xs.skip(1), b),
            t.k,
        );
    }
}

/// The table has what the occurrences of rules in `e` let follow.
spec fn closed(e: ExprView, tail: Set<NameSeq>, t: Tables, fo: Firsts) -> bool {
    follow_k::follow_k_closed(e, tail, t.nulls, t.firsts, fo, t.k)
}

proof fn lemma_behind_mono(
    e: ExprView,
    a: Set<NameSeq>,
    b: Set<NameSeq>,
    t: Tables,
    n: Seq<char>,
    s: NameSeq,
)
    requires
        a.subset_of(b),
        behind_rule(e, a, t, n, s),
    ensures
        behind_rule(e, b, t, n, s),
    decreases e,
{
    match e {
        ExprView::Concat(xs) => {
            let i = choose|i: int|
                0 <= i < xs.len() && behind_rule(
                    #[trigger] xs[i],
                    conflict_laws::tokens_of(t, xs.skip(i + 1), a),
                    t,
                    n,
                    s,
                );
            lemma_tokens_mono(t, xs.skip(i + 1), a, b);
            lemma_behind_mono(
                xs[i],
                conflict_laws::tokens_of(t, xs.skip(i + 1), a),
                conflict_laws::tokens_of(t, xs.skip(i + 1), b),
                t,
                n,
                s,
            );
        },
        ExprView::Alt(xs) => {
            let i = choose|i: int|
                0 <= i < xs.len() && behind_rule(#[trigger] xs[i], a, t, n, s);
            lemma_behind_mono(xs[i], a, b, t, n, s);
        },
        ExprView::Opt(x) => lemma_behind_mono(*x, a, b, t, n, s),
        ExprView::Star(x) => {
            lemma_tokens_mono(t, seq![ExprView::Star(x)], a, b);
            lemma_behind_mono(
                *x,
                conflict_laws::tokens_of(t, seq![ExprView::Star(x)], a),
                conflict_laws::tokens_of(t, seq![ExprView::Star(x)], b),
                t,
                n,
                s,
            );
        },
        ExprView::Plus(x) => {
            lemma_tokens_mono(t, seq![ExprView::Star(x)], a, b);
            lemma_behind_mono(
                *x,
                conflict_laws::tokens_of(t, seq![ExprView::Star(x)], a),
                conflict_laws::tokens_of(t, seq![ExprView::Star(x)], b),
                t,
                n,
                s,
            );
        },
        ExprView::Label(_, x) => lemma_behind_mono(*x, a, b, t, n, s),
        _ => {},
    }
}

/// The table holds what can come behind the rules in an expression.
spec fn holds_all(
    e: ExprView,
    tail: Set<NameSeq>,
    t: Tables,
    fo: Firsts,
) -> bool {
    forall|n: Seq<char>, s: NameSeq| #[trigger]
        behind_rule(e, tail, t, n, s) ==> first_follow::set_at(fo, n).contains(s)
}

proof fn lemma_follow_closed(
    e: ExprView,
    tail: Set<NameSeq>,
    t: Tables,
    fo: Firsts,
)
    ensures
        closed(e, tail, t, fo) <==> holds_all(e, tail, t, fo),
    decreases e,
{
    match e {
        ExprView::Rule(m) => {
            if holds_all(e, tail, t, fo) {
                assert forall|s: NameSeq| tail.contains(s) implies first_follow::set_at(
                    fo,
                    m,
                ).contains(s) by {
                    assert(behind_rule(e, tail, t, m, s));
                }
            }
        },
        ExprView::Concat(xs) => {
            assert forall|i: int| 0 <= i < xs.len() implies closed(
                #[trigger] xs[i],
                follow_k::rest_then(xs, i + 1, tail, t.nulls, t.firsts, t.k),
                t,
                fo,
            ) == holds_all(xs[i], conflict_laws::tokens_of(t, xs.skip(i + 1), tail), t, fo) by {
                conflict_laws::lemma_rest_then(t, xs, i + 1, tail);
                lemma_follow_closed(
                    xs[i],
                    conflict_laws::tokens_of(t, xs.skip(i + 1), tail),
                    t,
                    fo,
                );
            }
            if closed(e, tail, t, fo) {
                assert forall|n: Seq<char>, s: NameSeq| #[trigger]
                    behind_rule(e, tail, t, n, s) implies first_follow::set_at(
                    fo,
                    n,
                ).contains(s) by {
                    let i = choose|i: int|
                        0 <= i < xs.len() && behind_rule(
                            #[trigger] xs[i],
                            conflict_laws::tokens_of(t, xs.skip(i + 1), tail),
                            t,
                            n,
                            s,
                        );
                    assert(holds_all(
                        xs[i],
                        conflict_laws::tokens_of(t, xs.skip(i + 1), tail),
                        t,
                        fo,
                    ));
                }
            }
            if holds_all(e, tail, t, fo) {
                assert forall|i: int| 0 <= i < xs.len() implies closed(
                    #[trigger] xs[i],
                    follow_k::rest_then(xs, i + 1, tail, t.nulls, t.firsts, t.k),
                    t,
                    fo,
                ) by {
                    let rest = conflict_laws::tokens_of(t, xs.skip(i + 1), tail);
                    assert forall|n: Seq<char>, s: NameSeq| #[trigger]
                        behind_rule(xs[i], rest, t, n, s) implies first_follow::set_at(
                        fo,
                        n,
                    ).contains(s) by {
                        assert(behind_rule(e, tail, t, n, s));
                    }
                }
            }
        },
        ExprView::Alt(xs) => {
            assert forall|i: int| 0 <= i < xs.len() implies closed(
                #[trigger] xs[i],
                tail,
                t,
                fo,
            ) == holds_all(xs[i], tail, t, fo) by {
                lemma_follow_closed(xs[i], tail, t, fo);
            }
            if closed(e, tail, t, fo) {
                assert forall|n: Seq<char>, s: NameSeq| #[trigger]
                    behind_rule(e, tail, t, n, s) implies first_follow::set_at(
                    fo,
                    n,
                ).contains(s) by {
                    let i = choose|i: int|
                        0 <= i < xs.len() && behind_rule(#[trigger] xs[i], tail, t, n, s);
                    assert(holds_all(xs[i], tail, t, fo));
                }
            }
            if holds_all(e, tail, t, fo) {
                assert forall|i: int| 0 <= i < xs.len() implies closed(
                    #[trigger] xs[i],
                    tail,
                    t,
                    fo,
                ) by {
                    assert forall|n: Seq<char>, s: NameSeq| #[trigger]
                        behind_rule(xs[i], tail, t, n, s) implies first_follow::set_at(
                        fo,
                        n,
                    ).contains(s) by {
                        assert(behind_rule(e, tail, t, n, s));
                    }
                }
            }
        },
        ExprView::Opt(x) => {
            lemma_follow_closed(*x, tail, t, fo);
            lemma_same_holds(e, tail, *x, tail, t, fo);
        },
        ExprView::Star(x) => {
            conflict_laws::lemma_loop_tail(t, x, tail);
            lemma_follow_closed(*x, conflict_laws::tokens_of(t, seq![ExprView::Star(x)], tail), t, fo);
            lemma_same_holds(e, tail, *x, conflict_laws::tokens_of(t, seq![ExprView::Star(x)], tail), t, fo);
        },
        ExprView::Plus(x) => {
            conflict_laws::lemma_loop_tail(t, x, tail);
            lemma_follow_closed(*x, conflict_laws::tokens_of(t, seq![ExprView::Star(x)], tail), t, fo);
            lemma_same_holds(e, tail, *x, conflict_laws::tokens_of(t, seq![ExprView::Star(x)], tail), t, fo);
        },
        ExprView::Label(_, x) => {
            lemma_follow_closed(*x, tail, t, fo);
            lemma_same_holds(e, tail, *x, tail, t, fo);
        },
        _ => {},
    }
}

proof fn lemma_same_holds(
    e: ExprView,
    tail: Set<NameSeq>,
    x: ExprView,
    rest: Set<NameSeq>,
    t: Tables,
    fo: Firsts,
)
    requires
        match e {
            ExprView::Opt(y) => *y == x && rest == tail,
            ExprView::Label(_, y) => *y == x && rest == tail,
            ExprView::Star(y) => *y == x && rest == conflict_laws::tokens_of(t, seq![ExprView::Star(y)], tail),
            ExprView::Plus(y) => *y == x && rest == conflict_laws::tokens_of(t, seq![ExprView::Star(y)], tail),
            _ => false,
        },
    ensures
        holds_all(e, tail, t, fo) == holds_all(x, rest, t, fo),
{
    assert forall|n: Seq<char>, s: NameSeq|
        behind_rule(e, tail, t, n, s) == behind_rule(x, rest, t, n, s) by {}
    if holds_all(e, tail, t, fo) {
        assert forall|n: Seq<char>, s: NameSeq| #[trigger]
            behind_rule(x, rest, t, n, s) implies first_follow::set_at(fo, n).contains(s) by {
            assert(behind_rule(e, tail, t, n, s));
        }
    }
}

/// FOLLOW(k) of a rule holds the end of input and what can come behind the places
/// where the rule stands, and nothing else.
pub proof fn law_follow_k_is_what_comes_behind(
    rules: Seq<RuleView>,
    t: Tables,
    fo: Firsts,
    n: Seq<char>,
    s: NameSeq,
)
    requires
        follow_k::is_follow_k(rules, t.k, t.nulls, t.firsts, fo),
    ensures
        first_follow::set_at(fo, n).contains(s) <==> follows_rule(rules, t, fo, n, s),
{
    let want = Map::<Seq<char>, Set<NameSeq>>::new(
        |m: Seq<char>| true,
        |m: Seq<char>| Set::new(|x: NameSeq| follows_rule(rules, t, fo, m, x)),
    );
    assert forall|m: Seq<char>, x: NameSeq|
        follows_rule(rules, t, fo, m, x) implies #[trigger] first_follow::set_at(
        fo,
        m,
    ).contains(x) by {
        if x == seq![EOF_MARKER@] && exists|i: int|
            0 <= i < rules.len() && (#[trigger] rules[i]).name == m {
            let i = choose|i: int| 0 <= i < rules.len() && (#[trigger] rules[i]).name == m;
            assert(follow::only_eof().contains(x));
        } else {
            let i = choose|i: int|
                0 <= i < rules.len() && behind_rule(
                    (#[trigger] rules[i]).body,
                    first_follow::set_at(fo, rules[i].name),
                    t,
                    m,
                    x,
                );
            lemma_follow_closed(
                rules[i].body,
                first_follow::set_at(fo, rules[i].name),
                t,
                fo,
            );
        }
    }
    assert(follow_k::follow_k_holds(rules, t.k, t.nulls, t.firsts, want)) by {
        assert forall|i: int| 0 <= i < rules.len() implies follow::only_eof().subset_of(
            first_follow::set_at(want, (#[trigger] rules[i]).name),
        ) && closed(
            rules[i].body,
            first_follow::set_at(want, rules[i].name),
            t,
            want,
        ) by {
            let r = rules[i];
            assert forall|x: NameSeq| follow::only_eof().contains(
                x,
            ) implies first_follow::set_at(want, r.name).contains(x) by {
                assert(rules[i].name == r.name);
            }
            let here = first_follow::set_at(want, r.name);
            assert(here.subset_of(first_follow::set_at(fo, r.name)));
            assert forall|m: Seq<char>, x: NameSeq| #[trigger]
                behind_rule(r.body, here, t, m, x) implies first_follow::set_at(
                want,
                m,
            ).contains(x) by {
                lemma_behind_mono(
                    r.body,
                    here,
                    first_follow::set_at(fo, r.name),
                    t,
                    m,
                    x,
                );
                assert(behind_rule(
                    rules[i].body,
                    first_follow::set_at(fo, rules[i].name),
                    t,
                    m,
                    x,
                ));
            }
            lemma_follow_closed(r.body, here, t, want);
        }
    }
    assert(first_follow::set_at(fo, n).subset_of(first_follow::set_at(want, n)));
}

} // verus!
