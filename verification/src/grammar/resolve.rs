//! Token patterns with the references to other tokens inlined.
use vstd::prelude::*;

use crate::grammar::ir::{self, Grammar, PatternView, TokenPattern, TokenView};

verus! {

/// The pattern with every reference replaced by what the token it names stands
/// for, through at most `depth` tokens. A reference to no token stands for the
/// empty string, as does one that is deeper.
pub open spec fn inlined(
    p: PatternView,
    defs: Seq<(Seq<char>, TokenView)>,
    depth: nat,
) -> PatternView
    decreases depth, p,
{
    match p {
        PatternView::Ref(n) => match ir::lookup(defs, n) {
            Some(t) => if depth == 0 {
                PatternView::Empty
            } else {
                inlined(t.pattern, defs, (depth - 1) as nat)
            },
            None => PatternView::Empty,
        },
        PatternView::Concat(xs) => PatternView::Concat(inlined_all(xs, defs, depth)),
        PatternView::Alt(xs) => PatternView::Alt(inlined_all(xs, defs, depth)),
        PatternView::Opt(x) => PatternView::Opt(Box::new(inlined(*x, defs, depth))),
        PatternView::Star(x) => PatternView::Star(Box::new(inlined(*x, defs, depth))),
        PatternView::Plus(x) => PatternView::Plus(Box::new(inlined(*x, defs, depth))),
        _ => p,
    }
}

/// Each pattern with its references replaced.
pub open spec fn inlined_all(
    xs: Seq<PatternView>,
    defs: Seq<(Seq<char>, TokenView)>,
    depth: nat,
) -> Seq<PatternView>
    decreases depth, xs,
{
    Seq::new(
        xs.len(),
        |i: int|
            if 0 <= i < xs.len() {
                inlined(xs[i], defs, depth)
            } else {
                PatternView::Empty
            },
    )
}

/// The pattern with every reference inlined. References that form no cycle go
/// through each token at most once, so none is cut short.
pub open spec fn resolved(p: PatternView, defs: Seq<(Seq<char>, TokenView)>) -> PatternView {
    inlined(p, defs, defs.len())
}

fn inline_refs(p: &TokenPattern, g: &Grammar, depth: usize) -> (r: TokenPattern)
    ensures
        r@ == inlined(p@, g.token_map(), depth as nat),
    decreases depth, p,
{
    match p {
        TokenPattern::Empty => TokenPattern::Empty,
        TokenPattern::Literal(_) => p.clone(),
        TokenPattern::Class(_) => p.clone(),
        TokenPattern::NegLook { chars: _, strings: _ } => p.clone(),
        TokenPattern::Ref(n) => match g.token(n.as_str()) {
            Some(td) => if depth == 0 {
                TokenPattern::Empty
            } else {
                inline_refs(&td.pattern, g, depth - 1)
            },
            None => TokenPattern::Empty,
        },
        TokenPattern::Concat(xs) => {
            let r = inline_list(xs, g, depth);
            TokenPattern::Concat(r)
        },
        TokenPattern::Alt(xs) => {
            let r = inline_list(xs, g, depth);
            TokenPattern::Alt(r)
        },
        TokenPattern::Opt(x) => TokenPattern::Opt(Box::new(inline_refs(x, g, depth))),
        TokenPattern::Star(x) => TokenPattern::Star(Box::new(inline_refs(x, g, depth))),
        TokenPattern::Plus(x) => TokenPattern::Plus(Box::new(inline_refs(x, g, depth))),
    }
}

fn inline_list(xs: &Vec<TokenPattern>, g: &Grammar, depth: usize) -> (r: Vec<TokenPattern>)
    ensures
        ir::patterns_view(r@) == inlined_all(ir::patterns_view(xs@), g.token_map(), depth as nat),
    decreases depth, xs,
{
    let ghost want = inlined_all(ir::patterns_view(xs@), g.token_map(), depth as nat);
    let mut r: Vec<TokenPattern> = Vec::new();
    let mut i: usize = 0;
    while i < xs.len()
        invariant
            i <= xs@.len(),
            want == inlined_all(ir::patterns_view(xs@), g.token_map(), depth as nat),
            r@.len() == i,
            forall|j: int| 0 <= j < i ==> (#[trigger] r@[j])@ == want[j],
        decreases xs@.len() - i,
    {
        r.push(inline_refs(&xs[i], g, depth));
        i += 1;
    }
    assert(ir::patterns_view(r@) =~= want);
    r
}

/// Inline every reference of the pattern into the referenced token's body.
pub fn resolve_pattern(p: &TokenPattern, g: &Grammar) -> (r: TokenPattern)
    ensures
        r@ == resolved(p@, g.token_map()),
{
    let n = g.token_values().len();
    assert(n == g.token_map().len());
    inline_refs(p, g, n)
}

} // verus!
