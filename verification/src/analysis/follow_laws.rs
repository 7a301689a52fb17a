//! What FOLLOW says, and where a rule recovers to.
use vstd::prelude::*;

use crate::analysis::first_follow::{self, Firsts, Nulls};
use crate::analysis::first_set::NameSeq;
use crate::analysis::follow;
use crate::analysis::{AnalyzedGrammar, EOF_MARKER};
use crate::grammar::ir::{ExprView, RuleView};
use crate::lowering::program;
use crate::names;
use crate::runtime::events::TOKEN_EOF;

verus! {

/// A token that can come directly behind something, where the expressions
/// `rest` and then `tail` come after it.
pub open spec fn comes_next(
    rest: Seq<ExprView>,
    tail: Set<NameSeq>,
    nulls: Nulls,
    f: Firsts,
    s: NameSeq,
) -> bool {
    let first = first_follow::first_expr(ExprView::Concat(rest), nulls, f, 1);
    ||| s.len() == 1 && exists|y: NameSeq| #[trigger]
        first.contains(y) && y.len() > 0 && y[0] == s[0]
    ||| first.contains(Seq::empty()) && tail.contains(s)
}

/// What [`comes_next`] says, as a set.
pub open spec fn next_set(
    rest: Seq<ExprView>,
    tail: Set<NameSeq>,
    nulls: Nulls,
    f: Firsts,
) -> Set<NameSeq> {
    Set::new(|s: NameSeq| comes_next(rest, tail, nulls, f, s))
}

/// What can come behind the body of a repetition: another round, or what comes
/// after the repetition.
pub open spec fn round_set(x: ExprView, tail: Set<NameSeq>, nulls: Nulls, f: Firsts) -> Set<NameSeq> {
    Set::new(
        |s: NameSeq|
            comes_next(seq![x], Set::empty(), nulls, f, s) || tail.contains(s),
    )
}

/// The rule `n` stands somewhere in `e`, and `s` can come behind it there, where
/// `tail` comes after `e`.
pub open spec fn behind_rule(
    e: ExprView,
    tail: Set<NameSeq>,
    nulls: Nulls,
    f: Firsts,
    n: Seq<char>,
    s: NameSeq,
) -> bool
    decreases e,
{
    match e {
        ExprView::Empty => false,
        ExprView::Token(_) => false,
        ExprView::Rule(m) => m == n && tail.contains(s),
        ExprView::Concat(xs) => exists|i: int|
            0 <= i < xs.len() && behind_rule(
                #[trigger] xs[i],
                next_set(xs.skip(i + 1), tail, nulls, f),
                nulls,
                f,
                n,
                s,
            ),
        ExprView::Alt(xs) => exists|i: int|
            0 <= i < xs.len() && behind_rule(#[trigger] xs[i], tail, nulls, f, n, s),
        ExprView::Opt(x) => behind_rule(*x, tail, nulls, f, n, s),
        ExprView::Star(x) => behind_rule(*x, round_set(*x, tail, nulls, f), nulls, f, n, s),
        ExprView::Plus(x) => behind_rule(*x, round_set(*x, tail, nulls, f), nulls, f, n, s),
        ExprView::Label(_, x) => behind_rule(*x, tail, nulls, f, n, s),
    }
}

/// `s` comes behind the rule `n`: it is the end of input, or it can come behind
/// some place where the rule stands.
pub open spec fn follows_rule(
    rules: Seq<RuleView>,
    nulls: Nulls,
    f: Firsts,
    fo: Firsts,
    n: Seq<char>,
    s: NameSeq,
) -> bool {
    ||| s == seq![EOF_MARKER@] && exists|i: int|
        0 <= i < rules.len() && (#[trigger] rules[i]).name == n
    ||| exists|i: int|
        0 <= i < rules.len() && behind_rule(
            (#[trigger] rules[i]).body,
            first_follow::set_at(fo, rules[i].name),
            nulls,
            f,
            n,
            s,
        )
}

proof fn lemma_next_set(xs: Seq<ExprView>, i: int, tail: Set<NameSeq>, nulls: Nulls, f: Firsts)
    requires
        0 <= i <= xs.len(),
    ensures
        follow::after(xs, i, tail, nulls, f) == next_set(xs.skip(i), tail, nulls, f),
{
    reveal(follow::after);
    let rest = xs.skip(i);
    follow::law_first_of_a_sequence(rest, nulls, f);
    assert(follow::after(xs, i, tail, nulls, f) =~= next_set(rest, tail, nulls, f));
}

proof fn lemma_round_set(x: ExprView, tail: Set<NameSeq>, nulls: Nulls, f: Firsts)
    ensures
        follow::after_round(x, tail, nulls, f) == round_set(x, tail, nulls, f),
{
    follow::law_first_of_a_sequence(seq![x], nulls, f);
    let here = first_follow::first_expr(x, nulls, f, 1);
    assert(seq![x].skip(1) =~= Seq::empty());
    assert(follow::seq_heads(seq![x].skip(1), nulls, f) =~= Set::empty());
    assert(follow::seq_heads(seq![x], nulls, f) =~= follow::heads(here));
    assert(follow::after_round(x, tail, nulls, f) =~= round_set(x, tail, nulls, f));
}

proof fn lemma_behind_mono(
    e: ExprView,
    a: Set<NameSeq>,
    b: Set<NameSeq>,
    nulls: Nulls,
    f: Firsts,
    n: Seq<char>,
    s: NameSeq,
)
    requires
        a.subset_of(b),
        behind_rule(e, a, nulls, f, n, s),
    ensures
        behind_rule(e, b, nulls, f, n, s),
    decreases e,
{
    match e {
        ExprView::Concat(xs) => {
            let i = choose|i: int|
                0 <= i < xs.len() && behind_rule(
                    #[trigger] xs[i],
                    next_set(xs.skip(i + 1), a, nulls, f),
                    nulls,
                    f,
                    n,
                    s,
                );
            lemma_behind_mono(
                xs[i],
                next_set(xs.skip(i + 1), a, nulls, f),
                next_set(xs.skip(i + 1), b, nulls, f),
                nulls,
                f,
                n,
                s,
            );
        },
        ExprView::Alt(xs) => {
            let i = choose|i: int|
                0 <= i < xs.len() && behind_rule(#[trigger] xs[i], a, nulls, f, n, s);
            lemma_behind_mono(xs[i], a, b, nulls, f, n, s);
        },
        ExprView::Opt(x) => lemma_behind_mono(*x, a, b, nulls, f, n, s),
        ExprView::Star(x) => lemma_behind_mono(
            *x,
            round_set(*x, a, nulls, f),
            round_set(*x, b, nulls, f),
            nulls,
            f,
            n,
            s,
        ),
        ExprView::Plus(x) => lemma_behind_mono(
            *x,
            round_set(*x, a, nulls, f),
            round_set(*x, b, nulls, f),
            nulls,
            f,
            n,
            s,
        ),
        ExprView::Label(_, x) => lemma_behind_mono(*x, a, b, nulls, f, n, s),
        _ => {},
    }
}

/// The table holds what can come behind the rules in an expression.
spec fn holds_all(
    e: ExprView,
    tail: Set<NameSeq>,
    nulls: Nulls,
    f: Firsts,
    fo: Firsts,
) -> bool {
    forall|n: Seq<char>, s: NameSeq| #[trigger]
        behind_rule(e, tail, nulls, f, n, s) ==> first_follow::set_at(fo, n).contains(s)
}

proof fn lemma_follow_closed(
    e: ExprView,
    tail: Set<NameSeq>,
    nulls: Nulls,
    f: Firsts,
    fo: Firsts,
)
    ensures
        follow::follow_closed(e, tail, nulls, f, fo) <==> holds_all(e, tail, nulls, f, fo),
    decreases e,
{
    match e {
        ExprView::Rule(m) => {
            if holds_all(e, tail, nulls, f, fo) {
                assert forall|s: NameSeq| tail.contains(s) implies first_follow::set_at(
                    fo,
                    m,
                ).contains(s) by {
                    assert(behind_rule(e, tail, nulls, f, m, s));
                }
            }
        },
        ExprView::Concat(xs) => {
            assert forall|i: int| 0 <= i < xs.len() implies follow::follow_closed(
                #[trigger] xs[i],
                follow::after(xs, i + 1, tail, nulls, f),
                nulls,
                f,
                fo,
            ) == holds_all(xs[i], next_set(xs.skip(i + 1), tail, nulls, f), nulls, f, fo) by {
                lemma_next_set(xs, i + 1, tail, nulls, f);
                lemma_follow_closed(
                    xs[i],
                    next_set(xs.skip(i + 1), tail, nulls, f),
                    nulls,
                    f,
                    fo,
                );
            }
            if follow::follow_closed(e, tail, nulls, f, fo) {
                assert forall|n: Seq<char>, s: NameSeq| #[trigger]
                    behind_rule(e, tail, nulls, f, n, s) implies first_follow::set_at(
                    fo,
                    n,
                ).contains(s) by {
                    let i = choose|i: int|
                        0 <= i < xs.len() && behind_rule(
                            #[trigger] xs[i],
                            next_set(xs.skip(i + 1), tail, nulls, f),
                            nulls,
                            f,
                            n,
                            s,
                        );
                    assert(holds_all(
                        xs[i],
                        next_set(xs.skip(i + 1), tail, nulls, f),
                        nulls,
                        f,
                        fo,
                    ));
                }
            }
            if holds_all(e, tail, nulls, f, fo) {
                assert forall|i: int| 0 <= i < xs.len() implies follow::follow_closed(
                    #[trigger] xs[i],
                    follow::after(xs, i + 1, tail, nulls, f),
                    nulls,
                    f,
                    fo,
                ) by {
                    let t = next_set(xs.skip(i + 1), tail, nulls, f);
                    assert forall|n: Seq<char>, s: NameSeq| #[trigger]
                        behind_rule(xs[i], t, nulls, f, n, s) implies first_follow::set_at(
                        fo,
                        n,
                    ).contains(s) by {
                        assert(behind_rule(e, tail, nulls, f, n, s));
                    }
                }
            }
        },
        ExprView::Alt(xs) => {
            assert forall|i: int| 0 <= i < xs.len() implies follow::follow_closed(
                #[trigger] xs[i],
                tail,
                nulls,
                f,
                fo,
            ) == holds_all(xs[i], tail, nulls, f, fo) by {
                lemma_follow_closed(xs[i], tail, nulls, f, fo);
            }
            if follow::follow_closed(e, tail, nulls, f, fo) {
                assert forall|n: Seq<char>, s: NameSeq| #[trigger]
                    behind_rule(e, tail, nulls, f, n, s) implies first_follow::set_at(
                    fo,
                    n,
                ).contains(s) by {
                    let i = choose|i: int|
                        0 <= i < xs.len() && behind_rule(#[trigger] xs[i], tail, nulls, f, n, s);
                    assert(holds_all(xs[i], tail, nulls, f, fo));
                }
            }
            if holds_all(e, tail, nulls, f, fo) {
                assert forall|i: int| 0 <= i < xs.len() implies follow::follow_closed(
                    #[trigger] xs[i],
                    tail,
                    nulls,
                    f,
                    fo,
                ) by {
                    assert forall|n: Seq<char>, s: NameSeq| #[trigger]
                        behind_rule(xs[i], tail, nulls, f, n, s) implies first_follow::set_at(
                        fo,
                        n,
                    ).contains(s) by {
                        assert(behind_rule(e, tail, nulls, f, n, s));
                    }
                }
            }
        },
        ExprView::Opt(x) => {
            lemma_follow_closed(*x, tail, nulls, f, fo);
            lemma_same_holds(e, tail, *x, tail, nulls, f, fo);
        },
        ExprView::Star(x) => {
            lemma_round_set(*x, tail, nulls, f);
            lemma_follow_closed(*x, round_set(*x, tail, nulls, f), nulls, f, fo);
            lemma_same_holds(e, tail, *x, round_set(*x, tail, nulls, f), nulls, f, fo);
        },
        ExprView::Plus(x) => {
            lemma_round_set(*x, tail, nulls, f);
            lemma_follow_closed(*x, round_set(*x, tail, nulls, f), nulls, f, fo);
            lemma_same_holds(e, tail, *x, round_set(*x, tail, nulls, f), nulls, f, fo);
        },
        ExprView::Label(_, x) => {
            lemma_follow_closed(*x, tail, nulls, f, fo);
            lemma_same_holds(e, tail, *x, tail, nulls, f, fo);
        },
        _ => {},
    }
}

proof fn lemma_same_holds(
    e: ExprView,
    tail: Set<NameSeq>,
    x: ExprView,
    t: Set<NameSeq>,
    nulls: Nulls,
    f: Firsts,
    fo: Firsts,
)
    requires
        match e {
            ExprView::Opt(y) => *y == x && t == tail,
            ExprView::Label(_, y) => *y == x && t == tail,
            ExprView::Star(y) => *y == x && t == round_set(x, tail, nulls, f),
            ExprView::Plus(y) => *y == x && t == round_set(x, tail, nulls, f),
            _ => false,
        },
    ensures
        holds_all(e, tail, nulls, f, fo) == holds_all(x, t, nulls, f, fo),
{
    assert forall|n: Seq<char>, s: NameSeq|
        behind_rule(e, tail, nulls, f, n, s) == behind_rule(x, t, nulls, f, n, s) by {}
    if holds_all(e, tail, nulls, f, fo) {
        assert forall|n: Seq<char>, s: NameSeq| #[trigger]
            behind_rule(x, t, nulls, f, n, s) implies first_follow::set_at(fo, n).contains(s) by {
            assert(behind_rule(e, tail, nulls, f, n, s));
        }
    }
}

/// FOLLOW of a rule holds the end of input and what can come behind the places
/// where the rule stands, and nothing else.
pub proof fn law_follow_is_what_comes_behind(
    rules: Seq<RuleView>,
    nulls: Nulls,
    f: Firsts,
    fo: Firsts,
    n: Seq<char>,
    s: NameSeq,
)
    requires
        follow::is_follow(rules, nulls, f, fo),
    ensures
        first_follow::set_at(fo, n).contains(s) <==> follows_rule(rules, nulls, f, fo, n, s),
{
    let want = Map::<Seq<char>, Set<NameSeq>>::new(
        |m: Seq<char>| true,
        |m: Seq<char>| Set::new(|x: NameSeq| follows_rule(rules, nulls, f, fo, m, x)),
    );
    assert forall|m: Seq<char>, x: NameSeq|
        follows_rule(rules, nulls, f, fo, m, x) implies #[trigger] first_follow::set_at(
        fo,
        m,
    ).contains(x) by {
        if x == seq![EOF_MARKER@] && exists|i: int|
            0 <= i < rules.len() && (#[trigger] rules[i]).name == m {
            let i = choose|i: int| 0 <= i < rules.len() && (#[trigger] rules[i]).name == m;
            assert(follow::only_eof().contains(x));
        } else {
            let i = choose|i: int|
                0 <= i < rules.len() && behind_rule(
                    (#[trigger] rules[i]).body,
                    first_follow::set_at(fo, rules[i].name),
                    nulls,
                    f,
                    m,
                    x,
                );
            lemma_follow_closed(
                rules[i].body,
                first_follow::set_at(fo, rules[i].name),
                nulls,
                f,
                fo,
            );
        }
    }
    assert(follow::follow_holds(rules, nulls, f, want)) by {
        assert forall|i: int| 0 <= i < rules.len() implies follow::only_eof().subset_of(
            first_follow::set_at(want, (#[trigger] rules[i]).name),
        ) && follow::follow_closed(
            rules[i].body,
            first_follow::set_at(want, rules[i].name),
            nulls,
            f,
            want,
        ) by {
            let r = rules[i];
            assert forall|x: NameSeq| follow::only_eof().contains(
                x,
            ) implies first_follow::set_at(want, r.name).contains(x) by {
                assert(rules[i].name == r.name);
            }
            let t = first_follow::set_at(want, r.name);
            assert(t.subset_of(first_follow::set_at(fo, r.name)));
            assert forall|m: Seq<char>, x: NameSeq| #[trigger]
                behind_rule(r.body, t, nulls, f, m, x) implies first_follow::set_at(
                want,
                m,
            ).contains(x) by {
                lemma_behind_mono(
                    r.body,
                    t,
                    first_follow::set_at(fo, r.name),
                    nulls,
                    f,
                    m,
                    x,
                );
                assert(behind_rule(
                    rules[i].body,
                    first_follow::set_at(fo, rules[i].name),
                    nulls,
                    f,
                    m,
                    x,
                ));
            }
            lemma_follow_closed(r.body, t, nulls, f, want);
        }
    }
    assert(first_follow::set_at(fo, n).subset_of(first_follow::set_at(want, n)));
}

proof fn lemma_sync_names(ag: AnalyzedGrammar, l: Seq<Seq<char>>, k: u16)
    ensures
        program::sync_names(ag.grammar.token_list(), l).contains(k) <==> exists|i: int|
            0 <= i < l.len() && (#[trigger] l[i]) != EOF_MARKER@ && program::kind_of(
                ag.grammar.token_list(),
                l[i],
            ) == k,
    decreases l.len(),
{
    let tokens = ag.grammar.token_list();
    if l.len() > 0 {
        let p = l.drop_last();
        let before = program::sync_names(tokens, p);
        let all = program::sync_names(tokens, l);
        lemma_sync_names(ag, p, k);
        assert forall|i: int| 0 <= i < p.len() implies #[trigger] p[i] == l[i] by {}
        if before.contains(k) {
            let j = choose|j: int| 0 <= j < before.len() && before[j] == k;
            assert(all[j] == k);
            let i = choose|i: int|
                0 <= i < p.len() && (#[trigger] p[i]) != EOF_MARKER@ && program::kind_of(
                    tokens,
                    p[i],
                ) == k;
            assert(l[i] == p[i]);
        }
        if l.last() != EOF_MARKER@ {
            assert(all[before.len() as int] == program::kind_of(tokens, l.last()));
            assert(l[l.len() - 1] == l.last());
        }
        if all.contains(k) {
            let j = choose|j: int| 0 <= j < all.len() && all[j] == k;
            if j < before.len() {
                assert(before[j] == k);
            }
        }
        if exists|i: int|
            0 <= i < l.len() && (#[trigger] l[i]) != EOF_MARKER@ && program::kind_of(
                tokens,
                l[i],
            ) == k {
            let i = choose|i: int|
                0 <= i < l.len() && (#[trigger] l[i]) != EOF_MARKER@ && program::kind_of(
                    tokens,
                    l[i],
                ) == k;
            if i < p.len() {
                assert(p[i] == l[i]);
            }
        }
    }
}

/// A rule recovers to the end of input and to the tokens that its FOLLOW names,
/// and to nothing else.
pub proof fn law_rules_recover_to_their_follow(ag: AnalyzedGrammar, rule: Seq<char>, k: u16)
    requires
        ag.follow@.contains_key(rule),
        ag.follow@[rule].wf(),
    ensures
        program::sync_of(ag, rule).contains(k) <==> k == TOKEN_EOF || exists|n: Seq<char>| #[trigger]
            ag.follow@[rule]@.contains(n) && n != EOF_MARKER@ && program::kind_of(
                ag.grammar.token_list(),
                n,
            ) == k,
{
    let l = program::follow_list(ag, rule);
    let names = program::sync_names(ag.grammar.token_list(), l);
    let all = program::sync_of(ag, rule);
    lemma_sync_names(ag, l, k);
    assert(all == names.push(TOKEN_EOF));
    assert(all[names.len() as int] == TOKEN_EOF);
    if names.contains(k) {
        let j = choose|j: int| 0 <= j < names.len() && names[j] == k;
        assert(all[j] == k);
        let i = choose|i: int|
            0 <= i < l.len() && (#[trigger] l[i]) != EOF_MARKER@ && program::kind_of(
                ag.grammar.token_list(),
                l[i],
            ) == k;
        assert(ag.follow@[rule]@.contains(l[i]));
    }
    if all.contains(k) {
        let j = choose|j: int| 0 <= j < all.len() && all[j] == k;
        if j < names.len() {
            assert(names[j] == k);
        }
    }
    if exists|n: Seq<char>| #[trigger]
        ag.follow@[rule]@.contains(n) && n != EOF_MARKER@ && program::kind_of(
            ag.grammar.token_list(),
            n,
        ) == k {
        let n = choose|n: Seq<char>| #[trigger]
            ag.follow@[rule]@.contains(n) && n != EOF_MARKER@ && program::kind_of(
                ag.grammar.token_list(),
                n,
            ) == k;
        let i = choose|i: int| 0 <= i < l.len() && l[i] == n;
        assert(l[i] == n);
    }
}

} // verus!
