//! What a conflict is.
use vstd::prelude::*;

use crate::analysis::first_follow::{self, Firsts};
use crate::analysis::first_set::{self, NameSeq};
use crate::analysis::follow_k;
use crate::analysis::lookahead::{self, ConflictView, Tables};
use crate::analysis::ref_laws;
use crate::grammar::ir::{ExprView, RuleView};

verus! {

/// The tokens can come first where `x` and then `tail` come.
pub open spec fn foreseen(t: Tables, x: ExprView, tail: Set<NameSeq>, s: NameSeq) -> bool {
    s.len() > 0 && first_set::concat_k_of(
        first_follow::first_expr(x, t.nulls, t.firsts, t.k),
        tail,
        t.k,
    ).contains(s)
}

/// The tokens do not tell `x` from `y`: they can come first of one, and so can
/// they, or something that begins with them, of the other.
pub open spec fn shared(
    t: Tables,
    x: ExprView,
    y: ExprView,
    tail: Set<NameSeq>,
    s: NameSeq,
) -> bool {
    exists|o: NameSeq| #[trigger]
        s.is_prefix_of(o) && (foreseen(t, x, tail, s) && foreseen(t, y, tail, o) || foreseen(
            t,
            y,
            tail,
            s,
        ) && foreseen(t, x, tail, o))
}

/// The conflict is that between alternatives `i` and `j`.
pub open spec fn pair_clash(
    t: Tables,
    xs: Seq<ExprView>,
    tail: Set<NameSeq>,
    r: RuleView,
    i: int,
    j: int,
    c: ConflictView,
) -> bool {
    &&& 0 <= i < j < xs.len()
    &&& c.rule_name == r.name
    &&& c.rule_span == r.span
    &&& c.arm_i == i
    &&& c.arm_j == j
    &&& forall|s: NameSeq| c.ambiguous.contains(s) <==> #[trigger] shared(t, xs[i], xs[j], tail, s)
    &&& exists|s: NameSeq| #[trigger] shared(t, xs[i], xs[j], tail, s)
}

/// What can come where the expressions and then `tail` come.
pub open spec fn tokens_of(t: Tables, xs: Seq<ExprView>, tail: Set<NameSeq>) -> Set<NameSeq>
    decreases xs.len(),
{
    if xs.len() == 0 {
        tail
    } else {
        first_set::concat_k_of(
            first_follow::first_expr(xs[0], t.nulls, t.firsts, t.k),
            tokens_of(t, xs.skip(1), tail),
            t.k,
        )
    }
}

/// The conflict is one of alternatives somewhere in `e`, where `tail` comes
/// after it.
pub open spec fn clash(
    t: Tables,
    e: ExprView,
    tail: Set<NameSeq>,
    r: RuleView,
    c: ConflictView,
) -> bool
    decreases e,
{
    match e {
        ExprView::Alt(xs) => {
            ||| exists|i: int, j: int| #[trigger] pair_clash(t, xs, tail, r, i, j, c)
            ||| exists|i: int| 0 <= i < xs.len() && clash(t, #[trigger] xs[i], tail, r, c)
        },
        ExprView::Concat(xs) => exists|i: int|
            0 <= i < xs.len() && clash(
                t,
                #[trigger] xs[i],
                tokens_of(t, xs.skip(i + 1), tail),
                r,
                c,
            ),
        ExprView::Opt(x) => clash(t, *x, tail, r, c),
        ExprView::Star(x) => clash(t, *x, tokens_of(t, seq![e], tail), r, c),
        ExprView::Plus(x) => clash(
            t,
            *x,
            tokens_of(t, seq![ExprView::Star(x)], tail),
            r,
            c,
        ),
        ExprView::Label(_, x) => clash(t, *x, tail, r, c),
        _ => false,
    }
}

pub proof fn lemma_rest_then(t: Tables, xs: Seq<ExprView>, i: int, tail: Set<NameSeq>)
    requires
        0 <= i <= xs.len(),
    ensures
        follow_k::rest_then(xs, i, tail, t.nulls, t.firsts, t.k) == tokens_of(
            t,
            xs.skip(i),
            tail,
        ),
    decreases xs.len() - i,
{
    if i < xs.len() {
        lemma_rest_then(t, xs, i + 1, tail);
        assert(xs.skip(i).skip(1) =~= xs.skip(i + 1));
        assert(xs.skip(i)[0] == xs[i]);
    }
}

pub proof fn lemma_loop_tail(t: Tables, x: Box<ExprView>, tail: Set<NameSeq>)
    ensures
        follow_k::loop_tail(*x, tail, t.nulls, t.firsts, t.k) == tokens_of(
            t,
            seq![ExprView::Star(x)],
            tail,
        ),
{
    let e = ExprView::Star(x);
    assert(seq![e][0] == e);
    assert(seq![e].skip(1) =~= Seq::empty());
    assert(*(e->Star_0) == *x);
    reveal_with_fuel(tokens_of, 2);
}

proof fn lemma_overlap(t: Tables, x: ExprView, y: ExprView, tail: Set<NameSeq>, s: NameSeq)
    ensures
        lookahead::overlap(
            lookahead::predict(t, x, tail),
            lookahead::predict(t, y, tail),
        ).contains(s) <==> shared(t, x, y, tail, s),
{
    let a = lookahead::predict(t, x, tail);
    let b = lookahead::predict(t, y, tail);
    assert forall|o: NameSeq| a.contains(o) <==> foreseen(t, x, tail, o) by {
        assert(o.len() == 0 <==> o =~= Seq::empty());
    }
    assert forall|o: NameSeq| b.contains(o) <==> foreseen(t, y, tail, o) by {
        assert(o.len() == 0 <==> o =~= Seq::empty());
    }
    if shared(t, x, y, tail, s) {
        let o = choose|o: NameSeq| #[trigger]
            s.is_prefix_of(o) && (foreseen(t, x, tail, s) && foreseen(t, y, tail, o) || foreseen(
                t,
                y,
                tail,
                s,
            ) && foreseen(t, x, tail, o));
        assert(a.contains(o) == foreseen(t, x, tail, o));
        assert(b.contains(o) == foreseen(t, y, tail, o));
        assert(a.contains(s) == foreseen(t, x, tail, s));
        assert(b.contains(s) == foreseen(t, y, tail, s));
    }
    if lookahead::overlap(a, b).contains(s) {
        if b.contains(s) && exists|z: NameSeq| #[trigger] a.contains(z) && s.is_prefix_of(z) {
            let z = choose|z: NameSeq| #[trigger] a.contains(z) && s.is_prefix_of(z);
            assert(foreseen(t, x, tail, z) && foreseen(t, y, tail, s));
            assert(s.is_prefix_of(z));
        } else {
            let z = choose|z: NameSeq| #[trigger] b.contains(z) && s.is_prefix_of(z);
            assert(a.contains(s));
            assert(foreseen(t, y, tail, z) && foreseen(t, x, tail, s));
            assert(s.is_prefix_of(z));
        }
    }
}

proof fn lemma_row(
    t: Tables,
    xs: Seq<ExprView>,
    tail: Set<NameSeq>,
    r: RuleView,
    i: int,
    j: int,
    c: ConflictView,
)
    requires
        0 <= i < j <= xs.len(),
    ensures
        lookahead::row_conflicts(t, xs, tail, r, i, j).contains(c) <==> exists|h: int|
            h >= j && #[trigger] pair_clash(t, xs, tail, r, i, h, c),
    decreases xs.len() - j,
{
    if j < xs.len() {
        lemma_row(t, xs, tail, r, i, j + 1, c);
        let both = lookahead::overlap(
            lookahead::predict(t, xs[i], tail),
            lookahead::predict(t, xs[j], tail),
        );
        let x = ConflictView {
            rule_name: r.name,
            rule_span: r.span,
            arm_i: i,
            arm_j: j,
            ambiguous: both,
        };
        let rest = lookahead::row_conflicts(t, xs, tail, r, i, j + 1);
        assert forall|s: NameSeq| both.contains(s) <==> #[trigger] shared(
            t,
            xs[i],
            xs[j],
            tail,
            s,
        ) by {
            lemma_overlap(t, xs[i], xs[j], tail, s);
        }
        ref_laws::lemma_both(seq![x], rest, c);
        ref_laws::lemma_both(Seq::empty(), rest, c);
        assert(seq![x].contains(c) <==> c == x) by {
            assert(seq![x][0] == x);
        }
        if both == Set::<NameSeq>::empty() {
            assert(!pair_clash(t, xs, tail, r, i, j, c)) by {
                if pair_clash(t, xs, tail, r, i, j, c) {
                    let s = choose|s: NameSeq| #[trigger] shared(t, xs[i], xs[j], tail, s);
                    assert(both.contains(s));
                }
            }
        } else {
            assert(exists|s: NameSeq| both.contains(s)) by {
                if forall|s: NameSeq| !both.contains(s) {
                    assert(both =~= Set::empty());
                }
            }
            let s = choose|s: NameSeq| both.contains(s);
            assert(shared(t, xs[i], xs[j], tail, s));
            if pair_clash(t, xs, tail, r, i, j, c) {
                assert forall|o: NameSeq| c.ambiguous.contains(o) <==> both.contains(o) by {
                    assert(shared(t, xs[i], xs[j], tail, o) == both.contains(o));
                }
                assert(c.ambiguous =~= both);
                assert(c == x);
            }
        }
    }
}

proof fn lemma_arms(
    t: Tables,
    xs: Seq<ExprView>,
    tail: Set<NameSeq>,
    r: RuleView,
    i: int,
    c: ConflictView,
)
    requires
        0 <= i <= xs.len(),
    ensures
        lookahead::arm_conflicts(t, xs, tail, r, i).contains(c) <==> exists|g: int, h: int|
            g >= i && #[trigger] pair_clash(t, xs, tail, r, g, h, c),
    decreases xs.len() - i,
{
    if i < xs.len() {
        lemma_row(t, xs, tail, r, i, i + 1, c);
        lemma_arms(t, xs, tail, r, i + 1, c);
        let a = lookahead::row_conflicts(t, xs, tail, r, i, i + 1);
        let b = lookahead::arm_conflicts(t, xs, tail, r, i + 1);
        ref_laws::lemma_both(a, b, c);
        if exists|g: int, h: int| g >= i && #[trigger] pair_clash(t, xs, tail, r, g, h, c) {
            let (g, h) = choose|g: int, h: int|
                g >= i && #[trigger] pair_clash(t, xs, tail, r, g, h, c);
            if g == i {
                assert(h >= i + 1);
            }
        }
    }
}

/// The conflicts of an expression are those between alternatives in it.
proof fn lemma_clash(
    t: Tables,
    e: ExprView,
    tail: Set<NameSeq>,
    r: RuleView,
    c: ConflictView,
)
    ensures
        lookahead::expr_conflicts(t, e, tail, r).contains(c) <==> clash(t, e, tail, r, c),
    decreases e, 0nat,
{
    match e {
        ExprView::Alt(xs) => {
            lemma_arms(t, xs, tail, r, 0, c);
            lemma_alt_parts(t, xs, tail, r, xs.len(), c);
            ref_laws::lemma_both(
                lookahead::arm_conflicts(t, xs, tail, r, 0),
                lookahead::alt_conflicts(t, xs, tail, r, xs.len()),
                c,
            );
            if exists|i: int, j: int| #[trigger] pair_clash(t, xs, tail, r, i, j, c) {
                let (i, j) = choose|i: int, j: int| #[trigger]
                    pair_clash(t, xs, tail, r, i, j, c);
                assert(i >= 0);
            }
        },
        ExprView::Concat(xs) => lemma_seq_parts(t, xs, tail, r, xs.len(), c),
        ExprView::Opt(x) => lemma_clash(t, *x, tail, r, c),
        ExprView::Star(x) => {
            lemma_loop_tail(t, x, tail);
            lemma_clash(t, *x, tokens_of(t, seq![e], tail), r, c);
        },
        ExprView::Plus(x) => {
            lemma_loop_tail(t, x, tail);
            lemma_clash(t, *x, tokens_of(t, seq![ExprView::Star(x)], tail), r, c);
        },
        ExprView::Label(_, x) => lemma_clash(t, *x, tail, r, c),
        _ => {},
    }
}

proof fn lemma_alt_parts(
    t: Tables,
    xs: Seq<ExprView>,
    tail: Set<NameSeq>,
    r: RuleView,
    n: nat,
    c: ConflictView,
)
    requires
        n <= xs.len(),
    ensures
        lookahead::alt_conflicts(t, xs, tail, r, n).contains(c) <==> exists|i: int|
            0 <= i < n && clash(t, #[trigger] xs[i], tail, r, c),
    decreases xs, n,
{
    if n > 0 {
        lemma_alt_parts(t, xs, tail, r, (n - 1) as nat, c);
        lemma_clash(t, xs[n - 1], tail, r, c);
        ref_laws::lemma_both(
            lookahead::alt_conflicts(t, xs, tail, r, (n - 1) as nat),
            lookahead::expr_conflicts(t, xs[n - 1], tail, r),
            c,
        );
    }
}

proof fn lemma_seq_parts(
    t: Tables,
    xs: Seq<ExprView>,
    tail: Set<NameSeq>,
    r: RuleView,
    n: nat,
    c: ConflictView,
)
    requires
        n <= xs.len(),
    ensures
        lookahead::seq_conflicts(t, xs, tail, r, n).contains(c) <==> exists|i: int|
            0 <= i < n && clash(
                t,
                #[trigger] xs[i],
                tokens_of(t, xs.skip(i + 1), tail),
                r,
                c,
            ),
    decreases xs, n,
{
    if n > 0 {
        let rest = tokens_of(t, xs.skip(n as int), tail);
        lemma_seq_parts(t, xs, tail, r, (n - 1) as nat, c);
        lemma_rest_then(t, xs, n as int, tail);
        lemma_clash(t, xs[n - 1], rest, r, c);
        ref_laws::lemma_both(
            lookahead::seq_conflicts(t, xs, tail, r, (n - 1) as nat),
            lookahead::expr_conflicts(t, xs[n - 1], rest, r),
            c,
        );
    }
}

/// The conflicts of a grammar are those between two alternatives of a choice
/// somewhere in a rule, where some tokens of lookahead do not tell one from the
/// other: each such pair is a conflict about just these tokens, and there is no
/// other.
pub proof fn law_conflicts_are_shared_lookaheads(
    t: Tables,
    rules: Seq<RuleView>,
    fo: Firsts,
    c: ConflictView,
)
    ensures
        lookahead::rules_conflicts(t, rules, fo, rules.len()).contains(c) <==> exists|i: int|
            0 <= i < rules.len() && clash(
                t,
                (#[trigger] rules[i]).body,
                first_follow::set_at(fo, rules[i].name),
                rules[i],
                c,
            ),
{
    lemma_rules(t, rules, fo, rules.len(), c);
}

proof fn lemma_rules(t: Tables, rules: Seq<RuleView>, fo: Firsts, n: nat, c: ConflictView)
    requires
        n <= rules.len(),
    ensures
        lookahead::rules_conflicts(t, rules, fo, n).contains(c) <==> exists|i: int|
            0 <= i < n && clash(
                t,
                (#[trigger] rules[i]).body,
                first_follow::set_at(fo, rules[i].name),
                rules[i],
                c,
            ),
    decreases n,
{
    if n > 0 {
        let r = rules[n - 1];
        let tail = first_follow::set_at(fo, r.name);
        lemma_rules(t, rules, fo, (n - 1) as nat, c);
        lemma_clash(t, r.body, tail, r, c);
        ref_laws::lemma_both(
            lookahead::rules_conflicts(t, rules, fo, (n - 1) as nat),
            lookahead::expr_conflicts(t, r.body, tail, r),
            c,
        );
    }
}

} // verus!
