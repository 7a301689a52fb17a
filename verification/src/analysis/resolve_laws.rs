//! What a pattern stands for once its references are inlined.
use vstd::prelude::*;

use crate::analysis::ref_laws;
use crate::analysis::validate;
use crate::grammar::ir::{self, PatternView, TokenView};
use crate::grammar::resolve;

verus! {

/// A reference stands for what the token that it names stands for.
pub proof fn law_references_stand_for_their_tokens(
    n: Seq<char>,
    defs: Seq<(Seq<char>, TokenView)>,
    rank: Map<Seq<char>, nat>,
)
    requires
        validate::ranked(defs, rank),
        ir::lookup(defs, n) is Some,
    ensures
        resolve::resolved(PatternView::Ref(n), defs) == resolve::resolved(
            ir::lookup(defs, n)->0.pattern,
            defs,
        ),
{
    let more = defs.len() + 1;
    validate::law_resolved_is_complete(PatternView::Ref(n), defs, rank, more);
    assert(resolve::inlined(PatternView::Ref(n), defs, more) == resolve::inlined(
        ir::lookup(defs, n)->0.pattern,
        defs,
        defs.len(),
    ));
}

/// A pattern made of others stands for what they stand for, put together in the
/// same way.
pub proof fn law_patterns_are_resolved_by_parts(
    xs: Seq<PatternView>,
    x: PatternView,
    defs: Seq<(Seq<char>, TokenView)>,
)
    ensures
        resolve::resolved(PatternView::Concat(xs), defs) == PatternView::Concat(
            xs.map_values(|p: PatternView| resolve::resolved(p, defs)),
        ),
        resolve::resolved(PatternView::Alt(xs), defs) == PatternView::Alt(
            xs.map_values(|p: PatternView| resolve::resolved(p, defs)),
        ),
        resolve::resolved(PatternView::Opt(Box::new(x)), defs) == PatternView::Opt(
            Box::new(resolve::resolved(x, defs)),
        ),
        resolve::resolved(PatternView::Star(Box::new(x)), defs) == PatternView::Star(
            Box::new(resolve::resolved(x, defs)),
        ),
        resolve::resolved(PatternView::Plus(Box::new(x)), defs) == PatternView::Plus(
            Box::new(resolve::resolved(x, defs)),
        ),
{
    let f = |p: PatternView| resolve::resolved(p, defs);
    let all = resolve::inlined_all(xs, defs, defs.len());
    assert(all =~= xs.map_values(f));
    let c = PatternView::Concat(xs);
    assert(c->Concat_0 == xs);
    let a = PatternView::Alt(xs);
    assert(a->Alt_0 == xs);
}

/// A pattern without references stands for itself.
pub proof fn law_patterns_without_references_stay(
    p: PatternView,
    defs: Seq<(Seq<char>, TokenView)>,
)
    requires
        forall|n: Seq<char>| !#[trigger] ref_laws::part_of(PatternView::Ref(n), p),
    ensures
        resolve::resolved(p, defs) == p,
    decreases p, 0nat,
{
    match p {
        PatternView::Ref(n) => {
            assert(ref_laws::part_of(PatternView::Ref(n), p));
        },
        PatternView::Concat(xs) => {
            let all = resolve::inlined_all(xs, defs, defs.len());
            assert forall|i: int| 0 <= i < xs.len() implies #[trigger] all[i] == xs[i] by {
                assert forall|n: Seq<char>| !#[trigger] ref_laws::part_of(
                    PatternView::Ref(n),
                    xs[i],
                ) by {
                    assert(!ref_laws::part_of(PatternView::Ref(n), p));
                }
                law_patterns_without_references_stay(xs[i], defs);
            }
            assert(all =~= xs);
        },
        PatternView::Alt(xs) => {
            let all = resolve::inlined_all(xs, defs, defs.len());
            assert forall|i: int| 0 <= i < xs.len() implies #[trigger] all[i] == xs[i] by {
                assert forall|n: Seq<char>| !#[trigger] ref_laws::part_of(
                    PatternView::Ref(n),
                    xs[i],
                ) by {
                    assert(!ref_laws::part_of(PatternView::Ref(n), p));
                }
                law_patterns_without_references_stay(xs[i], defs);
            }
            assert(all =~= xs);
        },
        PatternView::Opt(x) => lemma_inner_stays(p, *x, defs),
        PatternView::Star(x) => lemma_inner_stays(p, *x, defs),
        PatternView::Plus(x) => lemma_inner_stays(p, *x, defs),
        _ => {},
    }
}

proof fn lemma_inner_stays(
    p: PatternView,
    x: PatternView,
    defs: Seq<(Seq<char>, TokenView)>,
)
    requires
        match p {
            PatternView::Opt(y) => *y == x,
            PatternView::Star(y) => *y == x,
            PatternView::Plus(y) => *y == x,
            _ => false,
        },
        forall|n: Seq<char>| !#[trigger] ref_laws::part_of(PatternView::Ref(n), p),
    ensures
        resolve::resolved(x, defs) == x,
    decreases x, 1nat,
{
    assert forall|n: Seq<char>| !#[trigger] ref_laws::part_of(PatternView::Ref(n), x) by {
        assert(!ref_laws::part_of(PatternView::Ref(n), p));
    }
    law_patterns_without_references_stay(x, defs);
}

} // verus!
