//! What patterns and rule bodies refer to, and what is in use.
use vstd::prelude::*;

use crate::analysis::first_follow;
use crate::analysis::follow;
use crate::analysis::lints;
use crate::diagnostic::{self, DiagnosticView, Severity};
use crate::grammar::ir::{self, ExprView, PatternView, RuleView, TokenView};
use crate::grammar::refs;

verus! {

/// The pattern `q` is `p`, or stands somewhere in it.
pub open spec fn part_of(q: PatternView, p: PatternView) -> bool
    decreases p,
{
    q == p || match p {
        PatternView::Concat(xs) => exists|i: int| 0 <= i < xs.len() && part_of(q, #[trigger] xs[i]),
        PatternView::Alt(xs) => exists|i: int| 0 <= i < xs.len() && part_of(q, #[trigger] xs[i]),
        PatternView::Opt(x) => part_of(q, *x),
        PatternView::Star(x) => part_of(q, *x),
        PatternView::Plus(x) => part_of(q, *x),
        _ => false,
    }
}

/// The expression `x` is `e`, or stands somewhere in it.
pub open spec fn within(x: ExprView, e: ExprView) -> bool
    decreases e,
{
    x == e || match e {
        ExprView::Concat(xs) => exists|i: int| 0 <= i < xs.len() && within(x, #[trigger] xs[i]),
        ExprView::Alt(xs) => exists|i: int| 0 <= i < xs.len() && within(x, #[trigger] xs[i]),
        ExprView::Opt(y) => within(x, *y),
        ExprView::Star(y) => within(x, *y),
        ExprView::Plus(y) => within(x, *y),
        ExprView::Label(_, y) => within(x, *y),
        _ => false,
    }
}

pub proof fn lemma_both<A>(a: Seq<A>, b: Seq<A>, n: A)
    ensures
        (a + b).contains(n) <==> a.contains(n) || b.contains(n),
{
    if a.contains(n) {
        let i = choose|i: int| 0 <= i < a.len() && a[i] == n;
        assert((a + b)[i] == n);
    }
    if b.contains(n) {
        let i = choose|i: int| 0 <= i < b.len() && b[i] == n;
        assert((a + b)[a.len() + i] == n);
    }
    if (a + b).contains(n) {
        let i = choose|i: int| 0 <= i < (a + b).len() && (a + b)[i] == n;
        if i < a.len() {
            assert(a[i] == n);
        } else {
            assert(b[i - a.len()] == n);
        }
    }
}

proof fn lemma_patterns_refs(xs: Seq<PatternView>, n: Seq<char>)
    ensures
        refs::patterns_refs(xs).contains(n) <==> exists|i: int|
            0 <= i < xs.len() && refs::pattern_refs(#[trigger] xs[i]).contains(n),
    decreases xs.len(),
{
    if xs.len() > 0 {
        let p = xs.drop_last();
        lemma_patterns_refs(p, n);
        lemma_both(refs::patterns_refs(p), refs::pattern_refs(xs.last()), n);
        if refs::patterns_refs(p).contains(n) {
            let i = choose|i: int|
                0 <= i < p.len() && refs::pattern_refs(#[trigger] p[i]).contains(n);
            assert(refs::pattern_refs(xs[i]).contains(n));
        }
        if exists|i: int| 0 <= i < xs.len() && refs::pattern_refs(#[trigger] xs[i]).contains(n) {
            let i = choose|i: int|
                0 <= i < xs.len() && refs::pattern_refs(#[trigger] xs[i]).contains(n);
            if i < p.len() {
                assert(refs::pattern_refs(p[i]).contains(n));
            } else {
                assert(xs[i] == xs.last());
            }
        }
        if refs::pattern_refs(xs.last()).contains(n) {
            assert(refs::pattern_refs(xs[xs.len() - 1]).contains(n));
        }
    }
}

/// The tokens that a pattern refers to are those that a reference in it names.
pub proof fn law_pattern_refs_are_in_the_pattern(p: PatternView, n: Seq<char>)
    ensures
        refs::pattern_refs(p).contains(n) <==> part_of(PatternView::Ref(n), p),
    decreases p,
{
    match p {
        PatternView::Ref(m) => {
            assert(seq![m][0] == m);
        },
        PatternView::Concat(xs) => {
            lemma_patterns_refs(xs, n);
            assert forall|i: int| 0 <= i < xs.len() implies refs::pattern_refs(
                #[trigger] xs[i],
            ).contains(n) == part_of(PatternView::Ref(n), xs[i]) by {
                law_pattern_refs_are_in_the_pattern(xs[i], n);
            }
        },
        PatternView::Alt(xs) => {
            lemma_patterns_refs(xs, n);
            assert forall|i: int| 0 <= i < xs.len() implies refs::pattern_refs(
                #[trigger] xs[i],
            ).contains(n) == part_of(PatternView::Ref(n), xs[i]) by {
                law_pattern_refs_are_in_the_pattern(xs[i], n);
            }
        },
        PatternView::Opt(x) => law_pattern_refs_are_in_the_pattern(*x, n),
        PatternView::Star(x) => law_pattern_refs_are_in_the_pattern(*x, n),
        PatternView::Plus(x) => law_pattern_refs_are_in_the_pattern(*x, n),
        _ => {},
    }
}

proof fn lemma_list_refs(xs: Seq<ExprView>, n: Seq<char>)
    ensures
        follow::list_refs(xs).contains(n) <==> exists|i: int|
            0 <= i < xs.len() && follow::rule_refs(#[trigger] xs[i]).contains(n),
        refs::list_token_refs(xs).contains(n) <==> exists|i: int|
            0 <= i < xs.len() && refs::token_refs(#[trigger] xs[i]).contains(n),
    decreases xs.len(),
{
    if xs.len() > 0 {
        let p = xs.drop_last();
        let last = xs.len() - 1;
        lemma_list_refs(p, n);
        lemma_both(follow::list_refs(p), follow::rule_refs(xs.last()), n);
        lemma_both(refs::list_token_refs(p), refs::token_refs(xs.last()), n);
        assert(xs[last] == xs.last());
        assert forall|i: int| 0 <= i < last implies #[trigger] p[i] == xs[i] by {}
        if follow::list_refs(p).contains(n) {
            let i = choose|i: int| 0 <= i < p.len() && follow::rule_refs(#[trigger] p[i]).contains(n);
            assert(follow::rule_refs(xs[i]).contains(n));
        }
        if refs::list_token_refs(p).contains(n) {
            let i = choose|i: int| 0 <= i < p.len() && refs::token_refs(#[trigger] p[i]).contains(n);
            assert(refs::token_refs(xs[i]).contains(n));
        }
        if exists|i: int| 0 <= i < xs.len() && follow::rule_refs(#[trigger] xs[i]).contains(n) {
            let i = choose|i: int|
                0 <= i < xs.len() && follow::rule_refs(#[trigger] xs[i]).contains(n);
            if i < last {
                assert(follow::rule_refs(p[i]).contains(n));
            }
        }
        if exists|i: int| 0 <= i < xs.len() && refs::token_refs(#[trigger] xs[i]).contains(n) {
            let i = choose|i: int|
                0 <= i < xs.len() && refs::token_refs(#[trigger] xs[i]).contains(n);
            if i < last {
                assert(refs::token_refs(p[i]).contains(n));
            }
        }
    }
}

/// The rules and tokens that a rule body refers to are those that stand in it.
pub proof fn law_rule_refs_are_in_the_body(e: ExprView, n: Seq<char>)
    ensures
        follow::rule_refs(e).contains(n) <==> within(ExprView::Rule(n), e),
        refs::token_refs(e).contains(n) <==> within(ExprView::Token(n), e),
        first_follow::mentions(e, n) <==> within(ExprView::Token(n), e),
    decreases e,
{
    match e {
        ExprView::Token(m) => {
            assert(seq![m][0] == m);
        },
        ExprView::Rule(m) => {
            assert(seq![m][0] == m);
        },
        ExprView::Concat(xs) => lemma_refs_of_parts(e, xs, n),
        ExprView::Alt(xs) => lemma_refs_of_parts(e, xs, n),
        ExprView::Opt(x) => law_rule_refs_are_in_the_body(*x, n),
        ExprView::Star(x) => law_rule_refs_are_in_the_body(*x, n),
        ExprView::Plus(x) => law_rule_refs_are_in_the_body(*x, n),
        ExprView::Label(_, x) => law_rule_refs_are_in_the_body(*x, n),
        _ => {},
    }
}

proof fn lemma_refs_of_parts(e: ExprView, xs: Seq<ExprView>, n: Seq<char>)
    requires
        e == ExprView::Concat(xs) || e == ExprView::Alt(xs),
    ensures
        follow::rule_refs(e).contains(n) <==> within(ExprView::Rule(n), e),
        refs::token_refs(e).contains(n) <==> within(ExprView::Token(n), e),
        first_follow::mentions(e, n) <==> within(ExprView::Token(n), e),
    decreases xs,
{
    lemma_list_refs(xs, n);
    assert(e is Concat ==> e->Concat_0 == xs);
    assert(e is Alt ==> e->Alt_0 == xs);
    assert forall|i: int| 0 <= i < xs.len() implies {
        &&& follow::rule_refs(#[trigger] xs[i]).contains(n) == within(ExprView::Rule(n), xs[i])
        &&& refs::token_refs(xs[i]).contains(n) == within(ExprView::Token(n), xs[i])
        &&& first_follow::mentions(xs[i], n) == within(ExprView::Token(n), xs[i])
    } by {
        law_rule_refs_are_in_the_body(xs[i], n);
    }
}

/// A definition: a rule or a token, and its name.
pub ghost enum Node {
    Rule(Seq<char>),
    Token(Seq<char>),
}

/// The definition is there and is no fragment.
pub open spec fn public(
    defs: Seq<(Seq<char>, TokenView)>,
    rules: Seq<(Seq<char>, RuleView)>,
    a: Node,
) -> bool {
    match a {
        Node::Token(n) => exists|i: int|
            0 <= i < defs.len() && (#[trigger] defs[i]).1.name == n && !defs[i].1.is_fragment,
        Node::Rule(n) => exists|i: int|
            0 <= i < rules.len() && (#[trigger] rules[i]).1.name == n && !rules[i].1.is_fragment,
    }
}

/// In a definition `a` stands a reference to `b`, which is defined.
pub open spec fn refers(
    defs: Seq<(Seq<char>, TokenView)>,
    rules: Seq<(Seq<char>, RuleView)>,
    a: Node,
    b: Node,
) -> bool {
    match (a, b) {
        (Node::Token(n), Node::Token(m)) => ir::lookup(defs, m) is Some && exists|i: int|
            0 <= i < defs.len() && (#[trigger] defs[i]).1.name == n && part_of(
                PatternView::Ref(m),
                defs[i].1.pattern,
            ),
        (Node::Rule(n), Node::Token(m)) => ir::lookup(defs, m) is Some && exists|i: int|
            0 <= i < rules.len() && (#[trigger] rules[i]).1.name == n && within(
                ExprView::Token(m),
                rules[i].1.body,
            ),
        (Node::Rule(n), Node::Rule(m)) => ir::lookup(rules, m) is Some && exists|i: int|
            0 <= i < rules.len() && (#[trigger] rules[i]).1.name == n && within(
                ExprView::Rule(m),
                rules[i].1.body,
            ),
        (Node::Token(_), Node::Rule(_)) => false,
    }
}

/// The definitions lead from one that is no fragment to `b`, each referring to
/// the next.
pub open spec fn leads_to(
    defs: Seq<(Seq<char>, TokenView)>,
    rules: Seq<(Seq<char>, RuleView)>,
    path: Seq<Node>,
    b: Node,
) -> bool {
    &&& path.len() > 0
    &&& path.last() == b
    &&& public(defs, rules, path[0])
    &&& forall|i: int| 0 < i < path.len() ==> refers(defs, rules, path[i - 1], #[trigger] path[i])
}

/// Some definitions lead from one that is no fragment to `b`.
pub open spec fn reached(
    defs: Seq<(Seq<char>, TokenView)>,
    rules: Seq<(Seq<char>, RuleView)>,
    b: Node,
) -> bool {
    exists|path: Seq<Node>| #[trigger] leads_to(defs, rules, path, b)
}

proof fn lemma_path_in(
    defs: Seq<(Seq<char>, TokenView)>,
    rules: Seq<(Seq<char>, RuleView)>,
    ts: Set<Seq<char>>,
    rs: Set<Seq<char>>,
    path: Seq<Node>,
    b: Node,
)
    requires
        lints::use_closed(defs, rules, ts, rs),
        leads_to(defs, rules, path, b),
    ensures
        match b {
            Node::Token(n) => ts.contains(n),
            Node::Rule(n) => rs.contains(n),
        },
    decreases path.len(),
{
    if path.len() == 1 {
        match b {
            Node::Token(n) => {
                let i = choose|i: int|
                    0 <= i < defs.len() && (#[trigger] defs[i]).1.name == n
                        && !defs[i].1.is_fragment;
                assert(lints::token_use_closed(defs, defs[i].1, ts));
            },
            Node::Rule(n) => {
                let i = choose|i: int|
                    0 <= i < rules.len() && (#[trigger] rules[i]).1.name == n
                        && !rules[i].1.is_fragment;
                assert(lints::rule_use_closed(defs, rules, rules[i].1, ts, rs));
            },
        }
    } else {
        let p = path.drop_last();
        let a = p.last();
        assert forall|i: int| 0 < i < p.len() implies refers(
            defs,
            rules,
            p[i - 1],
            #[trigger] p[i],
        ) by {
            assert(path[i] == p[i] && path[i - 1] == p[i - 1]);
        }
        assert(leads_to(defs, rules, p, a));
        lemma_path_in(defs, rules, ts, rs, p, a);
        assert(refers(defs, rules, path[path.len() - 2], path[path.len() - 1]));
        match (a, b) {
            (Node::Token(n), Node::Token(m)) => {
                let i = choose|i: int|
                    0 <= i < defs.len() && (#[trigger] defs[i]).1.name == n && part_of(
                        PatternView::Ref(m),
                        defs[i].1.pattern,
                    );
                assert(lints::token_use_closed(defs, defs[i].1, ts));
                law_pattern_refs_are_in_the_pattern(defs[i].1.pattern, m);
            },
            (Node::Rule(n), Node::Token(m)) => {
                let i = choose|i: int|
                    0 <= i < rules.len() && (#[trigger] rules[i]).1.name == n && within(
                        ExprView::Token(m),
                        rules[i].1.body,
                    );
                assert(lints::rule_use_closed(defs, rules, rules[i].1, ts, rs));
                law_rule_refs_are_in_the_body(rules[i].1.body, m);
            },
            (Node::Rule(n), Node::Rule(m)) => {
                let i = choose|i: int|
                    0 <= i < rules.len() && (#[trigger] rules[i]).1.name == n && within(
                        ExprView::Rule(m),
                        rules[i].1.body,
                    );
                assert(lints::rule_use_closed(defs, rules, rules[i].1, ts, rs));
                law_rule_refs_are_in_the_body(rules[i].1.body, m);
            },
            _ => {},
        }
    }
}

proof fn lemma_one_more(
    defs: Seq<(Seq<char>, TokenView)>,
    rules: Seq<(Seq<char>, RuleView)>,
    a: Node,
    b: Node,
)
    requires
        reached(defs, rules, a),
        refers(defs, rules, a, b),
    ensures
        reached(defs, rules, b),
{
    let p = choose|p: Seq<Node>| #[trigger] leads_to(defs, rules, p, a);
    let q = p.push(b);
    assert forall|i: int| 0 < i < q.len() implies refers(defs, rules, q[i - 1], #[trigger] q[i]) by {
        if i < p.len() {
            assert(p[i] == q[i] && p[i - 1] == q[i - 1]);
        }
    }
    assert(leads_to(defs, rules, q, b));
}

proof fn lemma_reached_closed(
    defs: Seq<(Seq<char>, TokenView)>,
    rules: Seq<(Seq<char>, RuleView)>,
    ts: Set<Seq<char>>,
    rs: Set<Seq<char>>,
)
    requires
        ts == Set::new(|n: Seq<char>| reached(defs, rules, Node::Token(n))),
        rs == Set::new(|n: Seq<char>| reached(defs, rules, Node::Rule(n))),
    ensures
        lints::use_closed(defs, rules, ts, rs),
{
    assert forall|i: int| 0 <= i < defs.len() implies lints::token_use_closed(
        defs,
        #[trigger] defs[i].1,
        ts,
    ) by {
        let t = defs[i].1;
        let a = Node::Token(t.name);
        if !t.is_fragment {
            assert(defs[i].1.name == t.name);
            assert(leads_to(defs, rules, seq![a], a));
        }
        if ts.contains(t.name) {
            assert forall|n: Seq<char>|
                refs::pattern_refs(t.pattern).contains(n) && ir::lookup(
                    defs,
                    n,
                ) is Some implies #[trigger] ts.contains(n) by {
                law_pattern_refs_are_in_the_pattern(t.pattern, n);
                assert(defs[i].1.name == t.name);
                assert(refers(defs, rules, a, Node::Token(n)));
                lemma_one_more(defs, rules, a, Node::Token(n));
            }
        }
    }
    assert forall|i: int| 0 <= i < rules.len() implies lints::rule_use_closed(
        defs,
        rules,
        #[trigger] rules[i].1,
        ts,
        rs,
    ) by {
        let r = rules[i].1;
        let a = Node::Rule(r.name);
        assert(rules[i].1.name == r.name);
        if !r.is_fragment {
            assert(leads_to(defs, rules, seq![a], a));
        }
        if rs.contains(r.name) {
            assert forall|n: Seq<char>|
                refs::token_refs(r.body).contains(n) && ir::lookup(
                    defs,
                    n,
                ) is Some implies #[trigger] ts.contains(n) by {
                law_rule_refs_are_in_the_body(r.body, n);
                assert(refers(defs, rules, a, Node::Token(n)));
                lemma_one_more(defs, rules, a, Node::Token(n));
            }
            assert forall|n: Seq<char>|
                follow::rule_refs(r.body).contains(n) && ir::lookup(
                    rules,
                    n,
                ) is Some implies #[trigger] rs.contains(n) by {
                law_rule_refs_are_in_the_body(r.body, n);
                assert(refers(defs, rules, a, Node::Rule(n)));
                lemma_one_more(defs, rules, a, Node::Rule(n));
            }
        }
    }
}

/// A token or a rule is in use if and only if references lead to it from a
/// definition that is no fragment, or it is none itself.
pub proof fn law_use_is_reference(
    defs: Seq<(Seq<char>, TokenView)>,
    rules: Seq<(Seq<char>, RuleView)>,
    n: Seq<char>,
)
    ensures
        lints::token_used(defs, rules, n) <==> reached(defs, rules, Node::Token(n)),
        lints::rule_used(defs, rules, n) <==> reached(defs, rules, Node::Rule(n)),
{
    let ts = Set::new(|m: Seq<char>| reached(defs, rules, Node::Token(m)));
    let rs = Set::new(|m: Seq<char>| reached(defs, rules, Node::Rule(m)));
    lemma_reached_closed(defs, rules, ts, rs);
    if reached(defs, rules, Node::Token(n)) {
        let p = choose|p: Seq<Node>| #[trigger] leads_to(defs, rules, p, Node::Token(n));
        assert forall|ts2: Set<Seq<char>>, rs2: Set<Seq<char>>| #[trigger]
            lints::use_closed(defs, rules, ts2, rs2) implies ts2.contains(n) by {
            lemma_path_in(defs, rules, ts2, rs2, p, Node::Token(n));
        }
    }
    if reached(defs, rules, Node::Rule(n)) {
        let p = choose|p: Seq<Node>| #[trigger] leads_to(defs, rules, p, Node::Rule(n));
        assert forall|ts2: Set<Seq<char>>, rs2: Set<Seq<char>>| #[trigger]
            lints::use_closed(defs, rules, ts2, rs2) implies rs2.contains(n) by {
            lemma_path_in(defs, rules, ts2, rs2, p, Node::Rule(n));
        }
    }
}

/// The warning about the token at position `i`, if it is a fragment that is not
/// in use.
pub open spec fn unused_token_report(
    defs: Seq<(Seq<char>, TokenView)>,
    rules: Seq<(Seq<char>, RuleView)>,
    i: int,
    d: DiagnosticView,
) -> bool {
    let t = defs[i].1;
    &&& 0 <= i < defs.len()
    &&& t.is_fragment
    &&& !reached(defs, rules, Node::Token(t.name))
    &&& d.severity == Severity::Warning
    &&& d.span == t.span
    &&& d.message == "fragment token `"@ + t.name + "` is never referenced"@
}

/// The same of the rule at position `i`.
pub open spec fn unused_rule_report(
    defs: Seq<(Seq<char>, TokenView)>,
    rules: Seq<(Seq<char>, RuleView)>,
    i: int,
    d: DiagnosticView,
) -> bool {
    let r = rules[i].1;
    &&& 0 <= i < rules.len()
    &&& r.is_fragment
    &&& !reached(defs, rules, Node::Rule(r.name))
    &&& d.severity == Severity::Warning
    &&& d.span == r.span
    &&& d.message == "fragment rule `"@ + r.name + "` is never referenced"@
}

/// The fragments that are not in use are warned about, and nothing else is.
pub proof fn law_unused_fragments_are_reported(
    defs: Seq<(Seq<char>, TokenView)>,
    rules: Seq<(Seq<char>, RuleView)>,
    d: DiagnosticView,
)
    ensures
        lints::unused_token_diags(defs, rules, defs.len()).contains(d) <==> exists|i: int| #[trigger]
            unused_token_report(defs, rules, i, d),
        lints::unused_rule_diags(defs, rules, rules.len()).contains(d) <==> exists|i: int| #[trigger]
            unused_rule_report(defs, rules, i, d),
{
    lemma_unused_tokens(defs, rules, defs.len(), d);
    lemma_unused_rules(defs, rules, rules.len(), d);
}

proof fn lemma_unused_tokens(
    defs: Seq<(Seq<char>, TokenView)>,
    rules: Seq<(Seq<char>, RuleView)>,
    n: nat,
    d: DiagnosticView,
)
    requires
        n <= defs.len(),
    ensures
        lints::unused_token_diags(defs, rules, n).contains(d) <==> exists|i: int|
            i < n && #[trigger] unused_token_report(defs, rules, i, d),
    decreases n,
{
    if n > 0 {
        lemma_unused_tokens(defs, rules, (n - 1) as nat, d);
        let t = defs[n - 1].1;
        let a = lints::unused_token_diags(defs, rules, (n - 1) as nat);
        let x = diagnostic::warning_at(
            "fragment token `"@ + t.name + "` is never referenced"@,
            t.span,
        );
        law_use_is_reference(defs, rules, t.name);
        lemma_both(a, seq![x], d);
        lemma_both(a, Seq::empty(), d);
        assert(seq![x].contains(d) <==> d == x) by {
            assert(seq![x][0] == x);
        }
        assert(unused_token_report(defs, rules, n - 1, d) <==> t.is_fragment && !reached(
            defs,
            rules,
            Node::Token(t.name),
        ) && d == x);
    }
}

proof fn lemma_unused_rules(
    defs: Seq<(Seq<char>, TokenView)>,
    rules: Seq<(Seq<char>, RuleView)>,
    n: nat,
    d: DiagnosticView,
)
    requires
        n <= rules.len(),
    ensures
        lints::unused_rule_diags(defs, rules, n).contains(d) <==> exists|i: int|
            i < n && #[trigger] unused_rule_report(defs, rules, i, d),
    decreases n,
{
    if n > 0 {
        lemma_unused_rules(defs, rules, (n - 1) as nat, d);
        let r = rules[n - 1].1;
        let a = lints::unused_rule_diags(defs, rules, (n - 1) as nat);
        let x = diagnostic::warning_at(
            "fragment rule `"@ + r.name + "` is never referenced"@,
            r.span,
        );
        law_use_is_reference(defs, rules, r.name);
        lemma_both(a, seq![x], d);
        lemma_both(a, Seq::empty(), d);
        assert(seq![x].contains(d) <==> d == x) by {
            assert(seq![x][0] == x);
        }
        assert(unused_rule_report(defs, rules, n - 1, d) <==> r.is_fragment && !reached(
            defs,
            rules,
            Node::Rule(r.name),
        ) && d == x);
    }
}

} // verus!
