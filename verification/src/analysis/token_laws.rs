//! What the checks of tokens say of the strings that tokens match.
use vstd::prelude::*;

use crate::analysis::lints;
use crate::analysis::ref_laws;
use crate::analysis::shadow;
use crate::analysis::validate;
use crate::analysis::{self, AnalysisOutcome};
use crate::diagnostic::{self, DiagnosticView, Severity};
use crate::grammar::ir::{self, Grammar, PatternView, TokenView};
use crate::grammar::refs;
use crate::grammar::resolve;
use crate::lowering::closed;
use crate::lowering::language;

verus! {

/// Every token that the pattern refers to is defined.
pub open spec fn refs_known(p: PatternView, defs: Seq<(Seq<char>, TokenView)>) -> bool {
    forall|n: Seq<char>| #[trigger]
        refs::pattern_refs(p).contains(n) ==> ir::lookup(defs, n) is Some
}

/// Every token that a token refers to is defined.
pub open spec fn all_known(defs: Seq<(Seq<char>, TokenView)>) -> bool {
    forall|i: int| 0 <= i < defs.len() ==> refs_known((#[trigger] defs[i]).1.pattern, defs)
}

proof fn lemma_concat_empty(xs: Seq<PatternView>, next: Seq<u8>)
    ensures
        language::concat_lang(xs, next, Seq::empty()) <==> forall|i: int|
            0 <= i < xs.len() ==> language::lang(#[trigger] xs[i], Seq::empty()),
    decreases xs.len(),
{
    let w = Seq::<u8>::empty();
    if xs.len() > 0 {
        let p = xs.drop_last();
        lemma_concat_empty(p, language::lead(xs.last()));
        assert(w.take(0) =~= w);
        assert(w.skip(0) =~= w);
        lemma_item_empty(xs.last(), next);
        assert(language::concat_lang(xs, next, w) <==> language::concat_lang(
            p,
            language::lead(xs.last()),
            w.take(0),
        ) && language::item_lang(xs.last(), next, w.skip(0)));
        assert forall|i: int| 0 <= i < p.len() implies #[trigger] p[i] == xs[i] by {}
        if forall|i: int| 0 <= i < xs.len() ==> language::lang(#[trigger] xs[i], w) {
            assert(language::lang(xs[xs.len() - 1], w));
        }
        if language::concat_lang(xs, next, w) {
            assert forall|i: int| 0 <= i < xs.len() implies language::lang(#[trigger] xs[i], w) by {
                if i < p.len() {
                    assert(language::lang(p[i], w));
                }
            }
        }
    }
}

proof fn lemma_item_empty(p: PatternView, next: Seq<u8>)
    ensures
        language::item_lang(p, next, Seq::empty()) == language::lang(p, Seq::empty()),
{
    let w = Seq::<u8>::empty();
    match p {
        PatternView::Star(x) => {
            match *x {
                PatternView::NegLook(c, ss) => {},
                _ => {},
            }
        },
        PatternView::Plus(x) => {
            match *x {
                PatternView::NegLook(c, ss) => {},
                _ => {},
            }
        },
        _ => {},
    }
}

proof fn lemma_class_empty(p: PatternView)
    requires
        p is Class,
    ensures
        !language::lang(p, Seq::empty()),
{
    match p {
        PatternView::Class(c) => {
            assert forall|cp: u32| !language::class_match(c, cp, Seq::empty()) by {
                assert(vstd::utf8::encode_scalar(cp).len() > 0);
            }
        },
        _ => {},
    }
}

proof fn lemma_matches_empty(
    p: PatternView,
    defs: Seq<(Seq<char>, TokenView)>,
    rank: Map<Seq<char>, nat>,
    d: nat,
)
    requires
        validate::ranked(defs, rank),
        validate::below(p, defs, rank, d),
        refs_known(p, defs),
        all_known(defs),
    ensures
        lints::matches_empty(p, defs, d) == language::lang(
            resolve::inlined(p, defs, d),
            Seq::empty(),
        ),
    decreases d, p, 1nat,
{
    let w = Seq::<u8>::empty();
    let q = resolve::inlined(p, defs, d);
    match p {
        PatternView::Empty => {
            assert(q == p);
            assert(language::lang(q, w));
        },
        PatternView::Literal(s) => {
            assert(vstd::utf8::encode_utf8(s).len() == 0 <==> s.len() == 0);
            assert(w =~= vstd::utf8::encode_utf8(s) <==> s.len() == 0);
            assert(lints::matches_empty(p, defs, d) == language::lang(q, w));
        },
        PatternView::Class(_) => lemma_class_empty(p),
        PatternView::NegLook(_, _) => {
            assert(!language::lang(q, w));
        },
        PatternView::Ref(n) => {
            assert(refs::pattern_refs(p)[0] == n);
            assert(refs::pattern_refs(p).contains(n));
            ir::lemma_position(defs, n);
            let i = ir::position(defs, n);
            let t = defs[i].1;
            assert(ir::lookup(defs, n) == Some(t));
            assert(validate::below(t.pattern, defs, rank, (d - 1) as nat)) by {
                assert forall|m: Seq<char>|
                    #![trigger ir::lookup(defs, m)]
                    refs::pattern_refs(t.pattern).contains(m) && ir::lookup(
                        defs,
                        m,
                    ) is Some implies rank.contains_key(m) && rank[m] < d - 1 by {
                    assert(refs::pattern_refs(defs[i].1.pattern).contains(m));
                }
            }
            lemma_matches_empty(t.pattern, defs, rank, (d - 1) as nat);
        },
        PatternView::Concat(xs) => {
            let ys = resolve::inlined_all(xs, defs, d);
            lemma_parts_empty(p, xs, defs, rank, d);
            lemma_concat_empty(ys, Seq::empty());
            language::lemma_concat_lang(ys, w);
            assert(lints::matches_empty(p, defs, d) <==> forall|i: int|
                0 <= i < xs.len() ==> lints::matches_empty(#[trigger] xs[i], defs, d));
            if forall|i: int| 0 <= i < ys.len() ==> language::lang(#[trigger] ys[i], w) {
                assert forall|i: int| 0 <= i < xs.len() implies lints::matches_empty(
                    #[trigger] xs[i],
                    defs,
                    d,
                ) by {
                    assert(language::lang(ys[i], w));
                }
            }
            if forall|i: int|
                0 <= i < xs.len() ==> lints::matches_empty(#[trigger] xs[i], defs, d) {
                assert forall|i: int| 0 <= i < ys.len() implies language::lang(
                    #[trigger] ys[i],
                    w,
                ) by {
                    assert(lints::matches_empty(xs[i], defs, d));
                }
            }
        },
        PatternView::Alt(xs) => {
            let ys = resolve::inlined_all(xs, defs, d);
            lemma_parts_empty(p, xs, defs, rank, d);
            language::lemma_alt_lang(ys, w);
            if exists|i: int|
                0 <= i < xs.len() && lints::matches_empty(#[trigger] xs[i], defs, d) {
                let i = choose|i: int|
                    0 <= i < xs.len() && lints::matches_empty(#[trigger] xs[i], defs, d);
                assert(language::lang(ys[i], w));
            }
            if exists|i: int| 0 <= i < ys.len() && language::lang(#[trigger] ys[i], w) {
                let i = choose|i: int|
                    0 <= i < ys.len() && language::lang(#[trigger] ys[i], w);
                assert(lints::matches_empty(xs[i], defs, d));
            }
        },
        PatternView::Opt(x) => {
            assert(language::lang(q, w));
        },
        PatternView::Star(x) => {
            let y = resolve::inlined(*x, defs, d);
            assert(q == PatternView::Star(Box::new(y)));
            match y {
                PatternView::NegLook(c, ss) => {
                    assert(language::neg_body(language::forbidden(c, ss), w, Seq::empty()));
                },
                _ => {
                    assert(language::star_lang(y, w));
                },
            }
            assert(language::lang(q, w));
        },
        PatternView::Plus(x) => {
            let y = resolve::inlined(*x, defs, d);
            assert(refs::pattern_refs(p) == refs::pattern_refs(*x));
            assert forall|n: Seq<char>| #[trigger] refs::pattern_refs(*x).contains(n) implies
                ir::lookup(defs, n) is Some by {
                assert(refs::pattern_refs(p).contains(n));
            }
            lemma_matches_empty(*x, defs, rank, d);
            match y {
                PatternView::NegLook(c, ss) => {},
                _ => {
                    assert(w.take(0) =~= w);
                    assert(w.skip(0) =~= w);
                    assert(language::star_lang(y, w.skip(0)));
                },
            }
        },
    }
}

/// The same of each part of a sequence or an alternation.
proof fn lemma_parts_empty(
    p: PatternView,
    xs: Seq<PatternView>,
    defs: Seq<(Seq<char>, TokenView)>,
    rank: Map<Seq<char>, nat>,
    d: nat,
)
    requires
        p == PatternView::Concat(xs) || p == PatternView::Alt(xs),
        validate::ranked(defs, rank),
        validate::below(p, defs, rank, d),
        refs_known(p, defs),
        all_known(defs),
    ensures
        resolve::inlined_all(xs, defs, d).len() == xs.len(),
        forall|i: int|
            0 <= i < xs.len() ==> #[trigger] lints::matches_empty(xs[i], defs, d)
                == language::lang(resolve::inlined_all(xs, defs, d)[i], Seq::empty()),
    decreases d, p, 0nat,
{
    let ys = resolve::inlined_all(xs, defs, d);
    assert(refs::pattern_refs(p) == refs::patterns_refs(xs));
    assert forall|i: int| 0 <= i < xs.len() implies #[trigger] lints::matches_empty(
        xs[i],
        defs,
        d,
    ) == language::lang(ys[i], Seq::empty()) by {
        assert forall|n: Seq<char>| #[trigger] refs::pattern_refs(xs[i]).contains(n) implies
            refs::pattern_refs(p).contains(n) by {
            validate::lemma_part_refs(xs, i, n);
        }
        assert(refs_known(xs[i], defs));
        assert(validate::below(xs[i], defs, rank, d)) by {
            assert forall|n: Seq<char>|
                #![trigger ir::lookup(defs, n)]
                refs::pattern_refs(xs[i]).contains(n) && ir::lookup(
                    defs,
                    n,
                ) is Some implies rank.contains_key(n) && rank[n] < d by {
                assert(refs::pattern_refs(p).contains(n));
            }
        }
        lemma_matches_empty(xs[i], defs, rank, d);
    }
}

/// The lint is exact: where references are defined and form no cycle, a pattern
/// is found to match the empty string if and only if it does, once its
/// references are inlined.
pub proof fn law_empty_matches_are_found(p: PatternView, defs: Seq<(Seq<char>, TokenView)>)
    requires
        validate::well_named(defs),
        validate::cycle_diags(defs).len() == 0,
        all_known(defs),
        refs_known(p, defs),
    ensures
        lints::matches_empty(p, defs, defs.len()) <==> language::lang(
            resolve::resolved(p, defs),
            Seq::empty(),
        ),
{
    let rank = validate::law_no_report_no_cycle(defs);
    assert(validate::below(p, defs, rank, defs.len())) by {
        assert forall|n: Seq<char>|
            #![trigger ir::lookup(defs, n)]
            refs::pattern_refs(p).contains(n) && ir::lookup(
                defs,
                n,
            ) is Some implies rank.contains_key(n) && rank[n] < defs.len() by {
            ir::lemma_position(defs, n);
            assert(defs[ir::position(defs, n)].0 == n);
        }
    }
    lemma_matches_empty(p, defs, rank, defs.len());
}

/// The token at position `j` is one that the lexer looks for and gives to the
/// parser, and it matches the literal.
pub open spec fn takes(defs: Seq<(Seq<char>, TokenView)>, j: int, s: Seq<char>) -> bool {
    &&& 0 <= j < defs.len()
    &&& !defs[j].1.is_fragment
    &&& !defs[j].1.skip
    &&& language::lang(resolve::resolved(defs[j].1.pattern, defs), vstd::utf8::encode_utf8(s))
}

/// The token at position `i` is a literal, and of those before it the one at
/// position `j` is the first that matches its text.
pub open spec fn shadows(defs: Seq<(Seq<char>, TokenView)>, i: int, j: int) -> bool {
    &&& defs[i].1.pattern is Literal
    &&& 0 <= j < i
    &&& takes(defs, j, defs[i].1.pattern->Literal_0)
    &&& forall|h: int| 0 <= h < j ==> !#[trigger] takes(defs, h, defs[i].1.pattern->Literal_0)
}

proof fn lemma_first_accepting(
    defs: Seq<(Seq<char>, TokenView)>,
    from: int,
    i: int,
    s: Seq<char>,
)
    requires
        0 <= from <= i <= defs.len(),
    ensures
        match shadow::first_accepting(defs, from, i, s) {
            Some(j) => from <= j < i && takes(defs, j, s) && forall|h: int|
                from <= h < j ==> !#[trigger] takes(defs, h, s),
            None => forall|h: int| from <= h < i ==> !#[trigger] takes(defs, h, s),
        },
    decreases i - from,
{
    if from < i {
        lemma_first_accepting(defs, from + 1, i, s);
        assert(takes(defs, from, s) == shadow::accepts_literal(defs, from, s));
    }
}

/// A literal token is reported as shadowed if and only if some token before it
/// matches its text, where both are neither fragments nor skipped. The report
/// names the first that does, and is at the literal.
pub proof fn law_shadowed_literals_are_found(defs: Seq<(Seq<char>, TokenView)>, i: int)
    requires
        0 <= i < defs.len(),
    ensures
        shadow::shadow_diag(defs, i).len() > 0 <==> {
            &&& !defs[i].1.is_fragment
            &&& !defs[i].1.skip
            &&& defs[i].1.pattern matches PatternView::Literal(s) && exists|j: int|
                0 <= j < i && #[trigger] takes(defs, j, s)
        },
        forall|d: int|
            0 <= d < shadow::shadow_diag(defs, i).len() ==> (#[trigger] shadow::shadow_diag(
                defs,
                i,
            )[d]).severity == Severity::Error && shadow::shadow_diag(defs, i)[d].span
                == defs[i].1.span,
        forall|j: int| #[trigger]
            shadows(defs, i, j) && !defs[i].1.is_fragment && !defs[i].1.skip
                ==> shadow::shadow_diag(defs, i) == seq![
                diagnostic::error_at(
                    shadow::shadow_text(defs[i].1, defs[i].1.pattern->Literal_0, defs[j].1),
                    defs[i].1.span,
                ),
            ],
{
    match defs[i].1.pattern {
        PatternView::Literal(s) => {
            lemma_first_accepting(defs, 0, i, s);
            let found = shadow::first_accepting(defs, 0, i, s);
            assert forall|j: int| #[trigger] shadows(defs, i, j) implies found == Some(j) by {
                let f = found->0;
                if f < j {
                    assert(takes(defs, f, s));
                }
                if j < f {
                    assert(takes(defs, j, s));
                }
            }
        },
        _ => {},
    }
}

proof fn lemma_shadow_reported(defs: Seq<(Seq<char>, TokenView)>, n: nat, i: int)
    requires
        !diagnostic::any_error(shadow::shadow_diags(defs, n)),
        0 <= i < n <= defs.len(),
    ensures
        shadow::shadow_diag(defs, i).len() == 0,
    decreases n,
{
    closed::lemma_error_parts(
        shadow::shadow_diags(defs, (n - 1) as nat),
        shadow::shadow_diag(defs, n - 1),
    );
    if i < n - 1 {
        lemma_shadow_reported(defs, (n - 1) as nat, i);
    } else {
        law_shadowed_literals_are_found(defs, i);
        if shadow::shadow_diag(defs, i).len() > 0 {
            assert(shadow::shadow_diag(defs, i)[0].severity == Severity::Error);
        }
    }
}

proof fn lemma_empty_reported(defs: Seq<(Seq<char>, TokenView)>, n: nat, i: int)
    requires
        !diagnostic::any_error(lints::empty_match_diags(defs, n)),
        0 <= i < n <= defs.len(),
        !defs[i].1.is_fragment,
    ensures
        !lints::matches_empty(defs[i].1.pattern, defs, defs.len()),
    decreases n,
{
    closed::lemma_error_parts(
        lints::empty_match_diags(defs, (n - 1) as nat),
        lints::empty_match_diag(defs, n - 1),
    );
    if i < n - 1 {
        lemma_empty_reported(defs, (n - 1) as nat, i);
    } else {
        let l = lints::empty_match_diag(defs, i);
        if lints::matches_empty(defs[i].1.pattern, defs, defs.len()) {
            assert(l[0].severity == Severity::Error);
        }
    }
}

/// The error about the token at position `i`, if it is no fragment and matches
/// the empty string.
pub open spec fn empty_report(
    defs: Seq<(Seq<char>, TokenView)>,
    i: int,
    d: DiagnosticView,
) -> bool {
    let t = defs[i].1;
    &&& 0 <= i < defs.len()
    &&& !t.is_fragment
    &&& language::lang(resolve::resolved(t.pattern, defs), Seq::empty())
    &&& d.severity == Severity::Error
    &&& d.span == t.span
    &&& d.message == lints::empty_match_text(t.name)
}

/// The tokens that match the empty string are reported, and no others.
pub proof fn law_empty_tokens_are_reported(
    defs: Seq<(Seq<char>, TokenView)>,
    d: DiagnosticView,
)
    requires
        validate::well_named(defs),
        validate::cycle_diags(defs).len() == 0,
        all_known(defs),
    ensures
        lints::empty_match_diags(defs, defs.len()).contains(d) <==> exists|i: int| #[trigger]
            empty_report(defs, i, d),
{
    lemma_empty_reports(defs, defs.len(), d);
}

proof fn lemma_empty_reports(defs: Seq<(Seq<char>, TokenView)>, n: nat, d: DiagnosticView)
    requires
        validate::well_named(defs),
        validate::cycle_diags(defs).len() == 0,
        all_known(defs),
        n <= defs.len(),
    ensures
        lints::empty_match_diags(defs, n).contains(d) <==> exists|i: int|
            i < n && #[trigger] empty_report(defs, i, d),
    decreases n,
{
    if n > 0 {
        lemma_empty_reports(defs, (n - 1) as nat, d);
        let t = defs[n - 1].1;
        let a = lints::empty_match_diags(defs, (n - 1) as nat);
        let x = diagnostic::error_at(lints::empty_match_text(t.name), t.span);
        assert(refs_known(defs[n - 1].1.pattern, defs));
        law_empty_matches_are_found(t.pattern, defs);
        ref_laws::lemma_both(a, seq![x], d);
        ref_laws::lemma_both(a, Seq::empty(), d);
        assert(seq![x].contains(d) <==> d == x) by {
            assert(seq![x][0] == x);
        }
        assert(empty_report(defs, n - 1, d) <==> !t.is_fragment && language::lang(
            resolve::resolved(t.pattern, defs),
            Seq::empty(),
        ) && d == x);
    }
}

/// The error about the literal at position `i`, if a token before it matches its
/// text, `j` being the first.
pub open spec fn shadow_report(
    defs: Seq<(Seq<char>, TokenView)>,
    i: int,
    j: int,
    d: DiagnosticView,
) -> bool {
    let t = defs[i].1;
    &&& 0 <= i < defs.len()
    &&& !t.is_fragment
    &&& !t.skip
    &&& shadows(defs, i, j)
    &&& d.severity == Severity::Error
    &&& d.span == t.span
    &&& d.message == shadow::shadow_text(t, t.pattern->Literal_0, defs[j].1)
}

/// The literals that a token before them shadows are reported, and no others.
pub proof fn law_shadowed_literals_are_reported(
    defs: Seq<(Seq<char>, TokenView)>,
    d: DiagnosticView,
)
    ensures
        shadow::shadow_diags(defs, defs.len()).contains(d) <==> exists|i: int, j: int| #[trigger]
            shadow_report(defs, i, j, d),
{
    lemma_shadow_reports(defs, defs.len(), d);
}

proof fn lemma_shadow_reports(defs: Seq<(Seq<char>, TokenView)>, n: nat, d: DiagnosticView)
    requires
        n <= defs.len(),
    ensures
        shadow::shadow_diags(defs, n).contains(d) <==> exists|i: int, j: int|
            i < n && #[trigger] shadow_report(defs, i, j, d),
    decreases n,
{
    if n > 0 {
        lemma_shadow_reports(defs, (n - 1) as nat, d);
        let i = n - 1;
        let a = shadow::shadow_diags(defs, (n - 1) as nat);
        let b = shadow::shadow_diag(defs, i);
        ref_laws::lemma_both(a, b, d);
        law_shadowed_literals_are_found(defs, i);
        assert forall|j: int| #[trigger] shadow_report(defs, i, j, d) implies b.contains(d) by {
            assert(shadows(defs, i, j));
            assert(b[0] == d);
        }
        if b.contains(d) {
            let s = defs[i].1.pattern->Literal_0;
            lemma_first_accepting(defs, 0, i, s);
            let j = shadow::first_accepting(defs, 0, i, s)->0;
            assert(shadows(defs, i, j));
            assert(b[0] == d);
            assert(shadow_report(defs, i, j, d));
        }
    }
}

/// All are errors.
pub open spec fn all_errors(l: Seq<DiagnosticView>) -> bool {
    forall|i: int| 0 <= i < l.len() ==> (#[trigger] l[i]).severity == Severity::Error
}

proof fn lemma_visit_errors(
    defs: Seq<(Seq<char>, TokenView)>,
    name: Seq<char>,
    stack: Seq<Seq<char>>,
    seen: Set<Seq<char>>,
    depth: nat,
)
    ensures
        all_errors(validate::visit(defs, name, stack, seen, depth).1),
    decreases depth, 0nat,
{
    if !stack.contains(name) && !seen.contains(name) && depth > 0 {
        match ir::lookup(defs, name) {
            None => {},
            Some(t) => {
                let names = refs::pattern_refs(t.pattern);
                lemma_visits_errors(
                    defs,
                    names,
                    stack.push(name),
                    seen.insert(name),
                    (depth - 1) as nat,
                    names.len(),
                );
            },
        }
    }
}

proof fn lemma_visits_errors(
    defs: Seq<(Seq<char>, TokenView)>,
    names: Seq<Seq<char>>,
    stack: Seq<Seq<char>>,
    seen: Set<Seq<char>>,
    depth: nat,
    n: nat,
)
    ensures
        all_errors(validate::visit_all(defs, names, stack, seen, depth, n).1),
    decreases depth, n + 1,
{
    if n > 0 {
        lemma_visits_errors(defs, names, stack, seen, depth, (n - 1) as nat);
        let s1 = validate::visit_all(defs, names, stack, seen, depth, (n - 1) as nat).0;
        lemma_visit_errors(defs, names[n - 1], stack, s1, depth);
    }
}

/// What the validators say of tokens, where they report no error.
pub proof fn lemma_tokens_checked(g: Grammar)
    requires
        !diagnostic::any_error(validate::validate_diags(g)),
    ensures
        validate::cycle_diags(g.token_map()).len() == 0,
        all_known(g.token_map()),
        forall|i: int|
            0 <= i < g.token_list().len() ==> !validate::reserved(
                (#[trigger] g.token_list()[i]).name,
            ) && !validate::repeats_token(g.token_list(), i),
{
    let tokens = g.token_list();
    let rules = g.rule_list();
    let defs = g.token_map();
    let res = |i: int| validate::reserved_diag(tokens[i]);
    let again = |i: int| validate::when(
        validate::repeats_token(tokens, i),
        diagnostic::error_at("duplicate token: "@ + tokens[i].name, tokens[i].span),
    );
    let a0 = validate::gathered(res, tokens.len());
    let a1 = validate::gathered(again, tokens.len());
    let a2 = validate::gathered(
        |i: int| validate::when(
            validate::repeats_rule(rules, i),
            diagnostic::error_at("duplicate rule: "@ + rules[i].name, rules[i].span),
        ),
        rules.len(),
    );
    let b = validate::gathered(
        |i: int| validate::expr_ref_diags(rules[i].body, defs, g.rule_map(), rules[i]),
        rules.len(),
    );
    let each = |i: int| validate::pattern_ref_diags(defs, tokens[i]);
    let c = validate::gathered(each, tokens.len());
    let d = validate::cycle_diags(defs);
    let e = validate::gathered(
        |i: int| validate::left_recursion_diag(rules, rules[i]),
        rules.len(),
    );
    let f = validate::when(
        validate::only_fragments(rules),
        diagnostic::error_view(
            "grammar contains no non-fragment rules; nothing would be emitted"@,
        ),
    );
    assert(validate::validate_diags(g) == a0 + a1 + a2 + b + c + d + e + f);
    closed::lemma_error_parts(a0 + a1 + a2 + b + c + d + e, f);
    closed::lemma_error_parts(a0 + a1 + a2 + b + c + d, e);
    closed::lemma_error_parts(a0 + a1 + a2 + b + c, d);
    closed::lemma_error_parts(a0 + a1 + a2 + b, c);
    closed::lemma_error_parts(a0 + a1 + a2, b);
    closed::lemma_error_parts(a0 + a1, a2);
    closed::lemma_error_parts(a0, a1);
    lemma_visits_errors(
        defs,
        Seq::new(defs.len(), |i: int| defs[i].1.name),
        Seq::empty(),
        Set::empty(),
        defs.len(),
        defs.len(),
    );
    if d.len() > 0 {
        assert(d[0].severity == Severity::Error);
    }
    assert forall|i: int| 0 <= i < defs.len() implies refs_known(
        (#[trigger] defs[i]).1.pattern,
        defs,
    ) by {
        closed::lemma_gathered_clean(each, tokens.len(), i);
        assert(tokens[i] == defs[i].1);
        let names = refs::pattern_refs(defs[i].1.pattern);
        let one = |j: int| validate::pattern_ref_diag(names[j], defs, tokens[i]);
        assert forall|n: Seq<char>| #[trigger] names.contains(n) implies ir::lookup(
            defs,
            n,
        ) is Some by {
            let j = choose|j: int| 0 <= j < names.len() && names[j] == n;
            closed::lemma_gathered_clean(one, names.len(), j);
            if ir::lookup(defs, n) is None {
                assert(one(j)[0].severity == Severity::Error);
            }
        }
    }
    assert forall|i: int| 0 <= i < tokens.len() implies !validate::reserved(
        (#[trigger] tokens[i]).name,
    ) && !validate::repeats_token(tokens, i) by {
        closed::lemma_gathered_clean(res, tokens.len(), i);
        closed::lemma_gathered_clean(again, tokens.len(), i);
        if validate::reserved(tokens[i].name) {
            assert(res(i)[0].severity == Severity::Error);
        }
        if validate::repeats_token(tokens, i) {
            assert(again(i)[0].severity == Severity::Error);
        }
    }
}

/// In a grammar that passes the analysis no token but a fragment matches the
/// empty string, and no token before a literal matches its text: both are
/// neither fragments nor skipped.
pub proof fn law_analyzed_tokens_are_sound(g: Grammar, o: AnalysisOutcome, i: int)
    requires
        validate::well_named(g.token_map()),
        analysis::analyzed(g, o),
        o.grammar is Some,
        0 <= i < g.token_map().len(),
        !g.token_map()[i].1.is_fragment,
    ensures
        !language::lang(
            resolve::resolved(g.token_map()[i].1.pattern, g.token_map()),
            Seq::empty(),
        ),
        !g.token_map()[i].1.skip ==> (g.token_map()[i].1.pattern matches PatternView::Literal(s)
            ==> forall|j: int| 0 <= j < i ==> !#[trigger] takes(g.token_map(), j, s)),
{
    let defs = g.token_map();
    let v = validate::validate_diags(g);
    let l = lints::lint_diags(g);
    closed::lemma_error_parts(v + l, shadow::shadow_diags(defs, defs.len()));
    closed::lemma_error_parts(v, l);
    let l0 = lints::empty_match_diags(defs, defs.len());
    let l1 = lints::unused_token_diags(defs, g.rule_map(), defs.len());
    let l2 = lints::unused_rule_diags(defs, g.rule_map(), g.rule_map().len());
    let l3 = lints::non_productive_diags(g.rule_list(), g.rule_list().len());
    closed::lemma_error_parts(l0 + l1 + l2, l3);
    closed::lemma_error_parts(l0 + l1, l2);
    closed::lemma_error_parts(l0, l1);
    lemma_tokens_checked(g);
    lemma_shadow_reported(defs, defs.len(), i);
    law_shadowed_literals_are_found(defs, i);
    lemma_empty_reported(defs, defs.len(), i);
    law_empty_matches_are_found(defs[i].1.pattern, defs);
}

} // verus!
