//! The names that patterns and rule bodies refer to.
use vstd::prelude::*;

use crate::analysis::follow;
use crate::grammar::ir::{self, Expr, ExprView, PatternView, TokenPattern};
use crate::names;

verus! {

/// The tokens that the pattern refers to, in order.
pub open spec fn pattern_refs(p: PatternView) -> Seq<Seq<char>>
    decreases p, 0nat,
{
    match p {
        PatternView::Ref(n) => seq![n],
        PatternView::Concat(xs) => patterns_refs(xs),
        PatternView::Alt(xs) => patterns_refs(xs),
        PatternView::Opt(x) => pattern_refs(*x),
        PatternView::Star(x) => pattern_refs(*x),
        PatternView::Plus(x) => pattern_refs(*x),
        _ => Seq::empty(),
    }
}

/// The tokens that the patterns refer to, in order.
pub open spec fn patterns_refs(xs: Seq<PatternView>) -> Seq<Seq<char>>
    decreases xs, xs.len(),
{
    if xs.len() == 0 {
        Seq::empty()
    } else {
        patterns_refs(xs.drop_last()) + pattern_refs(xs.last())
    }
}

/// The tokens that occur in the expression, in order.
pub open spec fn token_refs(e: ExprView) -> Seq<Seq<char>>
    decreases e, 0nat,
{
    match e {
        ExprView::Token(n) => seq![n],
        ExprView::Concat(xs) => list_token_refs(xs),
        ExprView::Alt(xs) => list_token_refs(xs),
        ExprView::Opt(x) => token_refs(*x),
        ExprView::Star(x) => token_refs(*x),
        ExprView::Plus(x) => token_refs(*x),
        ExprView::Label(_, x) => token_refs(*x),
        _ => Seq::empty(),
    }
}

/// The tokens that occur in the expressions, in order.
pub open spec fn list_token_refs(xs: Seq<ExprView>) -> Seq<Seq<char>>
    decreases xs, xs.len(),
{
    if xs.len() == 0 {
        Seq::empty()
    } else {
        list_token_refs(xs.drop_last()) + token_refs(xs.last())
    }
}

proof fn lemma_list_push(v: Seq<String>, s: String)
    ensures
        names::list_view(v.push(s)) == names::list_view(v) + seq![s@],
{
    assert(names::list_view(v.push(s)) =~= names::list_view(v) + seq![s@]);
}

/// Appends the tokens that the pattern refers to.
pub fn collect_pattern_refs(p: &TokenPattern, out: &mut Vec<String>)
    ensures
        names::list_view(final(out)@) == names::list_view(old(out)@) + pattern_refs(p@),
    decreases p,
{
    let ghost before = names::list_view(out@);
    match p {
        TokenPattern::Ref(n) => {
            proof {
                lemma_list_push(out@, *n);
            }
            let name = n.clone();
            out.push(name);
            assert(names::list_view(out@) =~= before + seq![n@]);
        },
        TokenPattern::Concat(xs) => {
            collect_patterns_refs(xs, out);
            assert(p@->Concat_0 == ir::patterns_view(xs@));
        },
        TokenPattern::Alt(xs) => {
            collect_patterns_refs(xs, out);
            assert(p@->Alt_0 == ir::patterns_view(xs@));
        },
        TokenPattern::Opt(x) => collect_pattern_refs(x, out),
        TokenPattern::Star(x) => collect_pattern_refs(x, out),
        TokenPattern::Plus(x) => collect_pattern_refs(x, out),
        _ => {
            assert(before =~= before + pattern_refs(p@));
        },
    }
}

fn collect_patterns_refs(xs: &Vec<TokenPattern>, out: &mut Vec<String>)
    ensures
        names::list_view(final(out)@) == names::list_view(old(out)@) + patterns_refs(
            ir::patterns_view(xs@),
        ),
    decreases xs,
{
    let ghost views = ir::patterns_view(xs@);
    let ghost before = names::list_view(out@);
    let mut i: usize = 0;
    assert(before =~= before + patterns_refs(views.take(0)));
    while i < xs.len()
        invariant
            i <= xs@.len(),
            views == ir::patterns_view(xs@),
            names::list_view(out@) == before + patterns_refs(views.take(i as int)),
        decreases xs@.len() - i,
    {
        collect_pattern_refs(&xs[i], out);
        proof {
            let next = views.take(i + 1);
            assert(next.drop_last() =~= views.take(i as int));
            let a = patterns_refs(views.take(i as int));
            let b = pattern_refs(views[i as int]);
            assert(before + a + b =~= before + (a + b));
        }
        i += 1;
    }
    assert(views.take(i as int) =~= views);
}

/// Appends the tokens and the rules that occur in the expression.
pub fn collect_expr_refs(e: &Expr, tok: &mut Vec<String>, rule: &mut Vec<String>)
    ensures
        names::list_view(final(tok)@) == names::list_view(old(tok)@) + token_refs(e@),
        names::list_view(final(rule)@) == names::list_view(old(rule)@) + follow::rule_refs(e@),
    decreases e,
{
    let ghost t0 = names::list_view(tok@);
    let ghost r0 = names::list_view(rule@);
    match e {
        Expr::Empty => {
            assert(t0 =~= t0 + token_refs(e@));
            assert(r0 =~= r0 + follow::rule_refs(e@));
        },
        Expr::Token(n) => {
            let name = n.clone();
            proof {
                lemma_list_push(tok@, name);
            }
            tok.push(name);
            assert(names::list_view(tok@) =~= t0 + token_refs(e@));
            assert(r0 =~= r0 + follow::rule_refs(e@));
        },
        Expr::Rule(n) => {
            let name = n.clone();
            proof {
                lemma_list_push(rule@, name);
            }
            rule.push(name);
            assert(t0 =~= t0 + token_refs(e@));
            assert(names::list_view(rule@) =~= r0 + follow::rule_refs(e@));
        },
        Expr::Concat(xs) => {
            collect_exprs_refs(xs, tok, rule);
            assert(e@->Concat_0 == ir::exprs_view(xs@));
        },
        Expr::Alt(xs) => {
            collect_exprs_refs(xs, tok, rule);
            assert(e@->Alt_0 == ir::exprs_view(xs@));
        },
        Expr::Opt(x) => collect_expr_refs(x, tok, rule),
        Expr::Star(x) => collect_expr_refs(x, tok, rule),
        Expr::Plus(x) => collect_expr_refs(x, tok, rule),
        Expr::Label(_, x) => collect_expr_refs(x, tok, rule),
    }
}

fn collect_exprs_refs(xs: &Vec<Expr>, tok: &mut Vec<String>, rule: &mut Vec<String>)
    ensures
        names::list_view(final(tok)@) == names::list_view(old(tok)@) + list_token_refs(
            ir::exprs_view(xs@),
        ),
        names::list_view(final(rule)@) == names::list_view(old(rule)@) + follow::list_refs(
            ir::exprs_view(xs@),
        ),
    decreases xs,
{
    let ghost views = ir::exprs_view(xs@);
    let ghost t0 = names::list_view(tok@);
    let ghost r0 = names::list_view(rule@);
    let mut i: usize = 0;
    assert(t0 =~= t0 + list_token_refs(views.take(0)));
    assert(r0 =~= r0 + follow::list_refs(views.take(0)));
    while i < xs.len()
        invariant
            i <= xs@.len(),
            views == ir::exprs_view(xs@),
            names::list_view(tok@) == t0 + list_token_refs(views.take(i as int)),
            names::list_view(rule@) == r0 + follow::list_refs(views.take(i as int)),
        decreases xs@.len() - i,
    {
        collect_expr_refs(&xs[i], tok, rule);
        proof {
            let now = views.take(i as int);
            let next = views.take(i + 1);
            assert(next.drop_last() =~= now);
            let e = views[i as int];
            assert(t0 + list_token_refs(now) + token_refs(e) =~= t0 + (list_token_refs(now)
                + token_refs(e)));
            assert(r0 + follow::list_refs(now) + follow::rule_refs(e) =~= r0 + (follow::list_refs(
                now,
            ) + follow::rule_refs(e)));
        }
        i += 1;
    }
    assert(views.take(i as int) =~= views);
}

} // verus!
