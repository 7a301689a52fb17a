//! Lints that run after validation has confirmed that references resolve and
//! that there are no token cycles.
use vstd::prelude::*;

use crate::analysis::follow;
use crate::analysis::universe;
use crate::diagnostic::{self, Diagnostic, DiagnosticView};
use crate::grammar::ir::{
    self,
    Expr,
    ExprView,
    Grammar,
    PatternView,
    RuleDef,
    RuleView,
    TokenDef,
    TokenPattern,
    TokenView,
};
use crate::grammar::refs;
use crate::names::{self, NameSet};

verus! {

/// The pattern can match the empty string, going through at most `depth`
/// references.
pub open spec fn matches_empty(
    p: PatternView,
    defs: Seq<(Seq<char>, TokenView)>,
    depth: nat,
) -> bool
    decreases depth, p,
{
    match p {
        PatternView::Empty => true,
        PatternView::Literal(s) => s.len() == 0,
        PatternView::Class(_) => false,
        PatternView::NegLook(_, _) => false,
        PatternView::Ref(n) => match ir::lookup(defs, n) {
            Some(t) => depth > 0 && matches_empty(t.pattern, defs, (depth - 1) as nat),
            None => false,
        },
        PatternView::Concat(xs) => forall|i: int|
            0 <= i < xs.len() ==> matches_empty(#[trigger] xs[i], defs, depth),
        PatternView::Alt(xs) => exists|i: int|
            0 <= i < xs.len() && matches_empty(#[trigger] xs[i], defs, depth),
        PatternView::Opt(_) => true,
        PatternView::Star(_) => true,
        PatternView::Plus(x) => matches_empty(*x, defs, depth),
    }
}

fn pattern_nullable(p: &TokenPattern, g: &Grammar, depth: usize) -> (r: bool)
    ensures
        r == matches_empty(p@, g.token_map(), depth as nat),
    decreases depth, p,
{
    match p {
        TokenPattern::Empty => true,
        TokenPattern::Literal(s) => s.as_str().is_empty(),
        TokenPattern::Class(_) => false,
        TokenPattern::NegLook { chars: _, strings: _ } => false,
        TokenPattern::Ref(n) => match g.token(n.as_str()) {
            Some(td) => depth > 0 && pattern_nullable(&td.pattern, g, depth - 1),
            None => false,
        },
        TokenPattern::Concat(xs) => all_nullable(xs, g, depth),
        TokenPattern::Alt(xs) => any_nullable(xs, g, depth),
        TokenPattern::Opt(_) => true,
        TokenPattern::Star(_) => true,
        TokenPattern::Plus(x) => pattern_nullable(x, g, depth),
    }
}

fn all_nullable(xs: &Vec<TokenPattern>, g: &Grammar, depth: usize) -> (r: bool)
    ensures
        r == matches_empty(
            PatternView::Concat(ir::patterns_view(xs@)),
            g.token_map(),
            depth as nat,
        ),
    decreases depth, xs,
{
    let ghost views = ir::patterns_view(xs@);
    let ghost p = PatternView::Concat(views);
    assert(p->Concat_0 == views);
    let mut i: usize = 0;
    while i < xs.len()
        invariant
            i <= xs@.len(),
            views == ir::patterns_view(xs@),
            p == PatternView::Concat(views),
            p->Concat_0 == views,
            forall|j: int|
                0 <= j < i ==> matches_empty(#[trigger] views[j], g.token_map(), depth as nat),
        decreases xs@.len() - i,
    {
        assert(views[i as int] == xs@[i as int]@);
        if !pattern_nullable(&xs[i], g, depth) {
            return false;
        }
        i += 1;
    }
    true
}

fn any_nullable(xs: &Vec<TokenPattern>, g: &Grammar, depth: usize) -> (r: bool)
    ensures
        r == matches_empty(
            PatternView::Alt(ir::patterns_view(xs@)),
            g.token_map(),
            depth as nat,
        ),
    decreases depth, xs,
{
    let ghost views = ir::patterns_view(xs@);
    let ghost p = PatternView::Alt(views);
    assert(p->Alt_0 == views);
    let mut i: usize = 0;
    while i < xs.len()
        invariant
            i <= xs@.len(),
            views == ir::patterns_view(xs@),
            p == PatternView::Alt(views),
            p->Alt_0 == views,
            forall|j: int|
                0 <= j < i ==> !matches_empty(#[trigger] views[j], g.token_map(), depth as nat),
        decreases xs@.len() - i,
    {
        assert(views[i as int] == xs@[i as int]@);
        if pattern_nullable(&xs[i], g, depth) {
            return true;
        }
        i += 1;
    }
    false
}

/// What is reported of a token that can match the empty string.
pub open spec fn empty_match_text(name: Seq<char>) -> Seq<char> {
    "token `"@ + name
        + "` can match the empty string; the lexer would emit zero-length tokens. Tighten the pattern (e.g. use `+` instead of `*`)."@
}

/// What is reported of the token at position `i` if it can match the empty
/// string.
pub open spec fn empty_match_diag(defs: Seq<(Seq<char>, TokenView)>, i: int) -> Seq<
    DiagnosticView,
> {
    let t = defs[i].1;
    if !t.is_fragment && matches_empty(t.pattern, defs, defs.len()) {
        seq![diagnostic::error_at(empty_match_text(t.name), t.span)]
    } else {
        Seq::empty()
    }
}

/// What is reported of the first `n` tokens that can match the empty string.
pub open spec fn empty_match_diags(defs: Seq<(Seq<char>, TokenView)>, n: nat) -> Seq<
    DiagnosticView,
>
    decreases n,
{
    if n == 0 {
        Seq::empty()
    } else {
        empty_match_diags(defs, (n - 1) as nat) + empty_match_diag(defs, n - 1)
    }
}

/// Flag non-fragment tokens whose pattern can match the empty string: the
/// lexer would accept at length zero.
pub fn check_empty_match_tokens(g: &Grammar, issues: &mut Vec<Diagnostic>)
    ensures
        diagnostic::diags_view(final(issues)@) == diagnostic::diags_view(old(issues)@)
            + empty_match_diags(g.token_map(), g.token_map().len()),
{
    let tokens = g.token_values();
    let ghost defs = g.token_map();
    let ghost d0 = diagnostic::diags_view(issues@);
    let mut i: usize = 0;
    assert(d0 =~= d0 + empty_match_diags(defs, 0));
    while i < tokens.len()
        invariant
            i <= tokens@.len(),
            defs == g.token_map(),
            tokens@.len() == defs.len(),
            forall|k: int| 0 <= k < tokens@.len() ==> (#[trigger] tokens@[k])@ == defs[k].1,
            diagnostic::diags_view(issues@) == d0 + empty_match_diags(defs, i as nat),
        decreases tokens@.len() - i,
    {
        let t = tokens[i];
        let ghost before = diagnostic::diags_view(issues@);
        assert(t@ == defs[i as int].1);
        if !t.is_fragment && pattern_nullable(&t.pattern, g, tokens.len()) {
            let mut m = "token `".to_owned();
            m.append(t.name.as_str());
            m.append(
                "` can match the empty string; the lexer would emit zero-length tokens. Tighten the pattern (e.g. use `+` instead of `*`).",
            );
            diagnostic::report(issues, Diagnostic::error(m).at(t.span));
        }
        proof {
            assert(diagnostic::diags_view(issues@) =~= before + empty_match_diag(defs, i as int));
            assert(before + empty_match_diag(defs, i as int) =~= d0 + empty_match_diags(
                defs,
                (i + 1) as nat,
            ));
        }
        i += 1;
    }
}

/// The sets hold what is not a fragment, and what the definitions in them
/// refer to.
pub open spec fn use_closed(
    defs: Seq<(Seq<char>, TokenView)>,
    rules: Seq<(Seq<char>, RuleView)>,
    ts: Set<Seq<char>>,
    rs: Set<Seq<char>>,
) -> bool {
    &&& forall|i: int| 0 <= i < defs.len() ==> token_use_closed(defs, #[trigger] defs[i].1, ts)
    &&& forall|i: int|
        0 <= i < rules.len() ==> rule_use_closed(defs, rules, #[trigger] rules[i].1, ts, rs)
}

/// The set has the token if it is no fragment, and then what it refers to.
pub open spec fn token_use_closed(
    defs: Seq<(Seq<char>, TokenView)>,
    t: TokenView,
    ts: Set<Seq<char>>,
) -> bool {
    &&& !t.is_fragment ==> ts.contains(t.name)
    &&& ts.contains(t.name) ==> forall|n: Seq<char>|
        refs::pattern_refs(t.pattern).contains(n) && ir::lookup(defs, n) is Some
            ==> #[trigger] ts.contains(n)
}

/// The sets have the rule if it is no fragment, and then what it refers to.
pub open spec fn rule_use_closed(
    defs: Seq<(Seq<char>, TokenView)>,
    rules: Seq<(Seq<char>, RuleView)>,
    r: RuleView,
    ts: Set<Seq<char>>,
    rs: Set<Seq<char>>,
) -> bool {
    &&& !r.is_fragment ==> rs.contains(r.name)
    &&& rs.contains(r.name) ==> forall|n: Seq<char>|
        refs::token_refs(r.body).contains(n) && ir::lookup(defs, n) is Some
            ==> #[trigger] ts.contains(n)
    &&& rs.contains(r.name) ==> forall|n: Seq<char>|
        follow::rule_refs(r.body).contains(n) && ir::lookup(rules, n) is Some
            ==> #[trigger] rs.contains(n)
}

/// The token is in use: it is no fragment, or something in use refers to it.
pub open spec fn token_used(
    defs: Seq<(Seq<char>, TokenView)>,
    rules: Seq<(Seq<char>, RuleView)>,
    n: Seq<char>,
) -> bool {
    forall|ts: Set<Seq<char>>, rs: Set<Seq<char>>| #[trigger]
        use_closed(defs, rules, ts, rs) ==> ts.contains(n)
}

/// The rule is in use: it is no fragment, or something in use refers to it.
pub open spec fn rule_used(
    defs: Seq<(Seq<char>, TokenView)>,
    rules: Seq<(Seq<char>, RuleView)>,
    n: Seq<char>,
) -> bool {
    forall|ts: Set<Seq<char>>, rs: Set<Seq<char>>| #[trigger]
        use_closed(defs, rules, ts, rs) ==> rs.contains(n)
}

/// What the sets hold is in use.
spec fn use_forced(
    defs: Seq<(Seq<char>, TokenView)>,
    rules: Seq<(Seq<char>, RuleView)>,
    ts: Set<Seq<char>>,
    rs: Set<Seq<char>>,
) -> bool {
    forall|ts2: Set<Seq<char>>, rs2: Set<Seq<char>>| #[trigger]
        use_closed(defs, rules, ts2, rs2) ==> ts.subset_of(ts2) && rs.subset_of(rs2)
}

/// The names under which something is defined, or that a definition has.
spec fn known<A>(entries: Seq<(Seq<char>, A)>, names: Seq<Seq<char>>) -> Set<Seq<char>> {
    Seq::new(entries.len(), |i: int| entries[i].0).to_set().union(names.to_set())
}

proof fn lemma_known<A>(entries: Seq<(Seq<char>, A)>, names: Seq<Seq<char>>)
    ensures
        known(entries, names).finite(),
        forall|n: Seq<char>| #[trigger]
            ir::lookup(entries, n) is Some ==> known(entries, names).contains(n),
        forall|i: int| 0 <= i < names.len() ==> known(entries, names).contains(#[trigger] names[i]),
{
    let keys = Seq::new(entries.len(), |i: int| entries[i].0);
    vstd::seq_lib::seq_to_set_is_finite(keys);
    vstd::seq_lib::seq_to_set_is_finite(names);
    vstd::set_lib::lemma_set_union_finite_iff(keys.to_set(), names.to_set());
    assert forall|n: Seq<char>| #[trigger] ir::lookup(entries, n) is Some implies known(
        entries,
        names,
    ).contains(n) by {
        let p = ir::position(entries, n);
        ir::lemma_position(entries, n);
        assert(keys[p] == n);
        assert(keys.contains(n));
    }
    assert forall|i: int| 0 <= i < names.len() implies known(entries, names).contains(
        #[trigger] names[i],
    ) by {
        assert(names.contains(names[i]));
    }
}

/// Adds the names that are defined among the tokens; true if one was not
/// there.
fn add_tokens(g: &Grammar, refs: &Vec<String>, ts: &mut NameSet) -> (grew: bool)
    requires
        old(ts).wf(),
    ensures
        final(ts).wf(),
        forall|n: Seq<char>| #[trigger]
            final(ts)@.contains(n) <==> old(ts)@.contains(n) || (names::list_view(refs@).contains(
                n,
            ) && ir::lookup(g.token_map(), n) is Some),
        !grew ==> final(ts)@ == old(ts)@,
        grew ==> exists|n: Seq<char>| #[trigger]
            final(ts)@.contains(n) && !old(ts)@.contains(n),
{
    let ghost rv = names::list_view(refs@);
    let mut grew = false;
    let mut i: usize = 0;
    while i < refs.len()
        invariant
            i <= refs@.len(),
            rv == names::list_view(refs@),
            ts.wf(),
            forall|n: Seq<char>| #[trigger]
                ts@.contains(n) <==> old(ts)@.contains(n) || (exists|j: int|
                    0 <= j < i && #[trigger] rv[j] == n && ir::lookup(g.token_map(), n) is Some),
            !grew ==> ts@ == old(ts)@,
            grew ==> exists|n: Seq<char>| #[trigger] ts@.contains(n) && !old(ts)@.contains(n),
        decreases refs@.len() - i,
    {
        let ghost before = ts@;
        let name = refs[i].as_str();
        assert(rv[i as int] == name@);
        if g.token(name).is_some() {
            let fresh = ts.insert(name);
            if fresh {
                grew = true;
                assert(ts@.contains(name@));
            } else {
                assert(ts@ =~= before);
            }
        }
        proof {
            assert forall|n: Seq<char>| #[trigger] ts@.contains(n) <==> old(ts)@.contains(n) || (
            exists|j: int|
                0 <= j < i + 1 && #[trigger] rv[j] == n && ir::lookup(
                    g.token_map(),
                    n,
                ) is Some) by {
                assert(before.contains(n) <==> old(ts)@.contains(n) || (exists|j: int|
                    0 <= j < i && #[trigger] rv[j] == n && ir::lookup(g.token_map(), n) is Some));
            }
        }
        i += 1;
    }
    grew
}

/// Adds the names that are defined among the rules; true if one was not there.
fn add_rules(g: &Grammar, refs: &Vec<String>, rs: &mut NameSet) -> (grew: bool)
    requires
        old(rs).wf(),
    ensures
        final(rs).wf(),
        forall|n: Seq<char>| #[trigger]
            final(rs)@.contains(n) <==> old(rs)@.contains(n) || (names::list_view(refs@).contains(
                n,
            ) && ir::lookup(g.rule_map(), n) is Some),
        !grew ==> final(rs)@ == old(rs)@,
        grew ==> exists|n: Seq<char>| #[trigger]
            final(rs)@.contains(n) && !old(rs)@.contains(n),
{
    let ghost rv = names::list_view(refs@);
    let mut grew = false;
    let mut i: usize = 0;
    while i < refs.len()
        invariant
            i <= refs@.len(),
            rv == names::list_view(refs@),
            rs.wf(),
            forall|n: Seq<char>| #[trigger]
                rs@.contains(n) <==> old(rs)@.contains(n) || (exists|j: int|
                    0 <= j < i && #[trigger] rv[j] == n && ir::lookup(g.rule_map(), n) is Some),
            !grew ==> rs@ == old(rs)@,
            grew ==> exists|n: Seq<char>| #[trigger] rs@.contains(n) && !old(rs)@.contains(n),
        decreases refs@.len() - i,
    {
        let ghost before = rs@;
        let name = refs[i].as_str();
        assert(rv[i as int] == name@);
        if g.rule(name).is_some() {
            let fresh = rs.insert(name);
            if fresh {
                grew = true;
                assert(rs@.contains(name@));
            } else {
                assert(rs@ =~= before);
            }
        }
        proof {
            assert forall|n: Seq<char>| #[trigger] rs@.contains(n) <==> old(rs)@.contains(n) || (
            exists|j: int|
                0 <= j < i + 1 && #[trigger] rv[j] == n && ir::lookup(
                    g.rule_map(),
                    n,
                ) is Some) by {
                assert(before.contains(n) <==> old(rs)@.contains(n) || (exists|j: int|
                    0 <= j < i && #[trigger] rv[j] == n && ir::lookup(g.rule_map(), n) is Some));
            }
        }
        i += 1;
    }
    grew
}

/// `b` is `a`, or has more.
spec fn gained(a: Set<Seq<char>>, b: Set<Seq<char>>, grew: bool) -> bool {
    &&& a.subset_of(b)
    &&& !grew ==> b == a
    &&& grew ==> exists|n: Seq<char>| #[trigger] b.contains(n) && !a.contains(n)
}

proof fn lemma_gained_trans(
    a: Set<Seq<char>>,
    b: Set<Seq<char>>,
    c: Set<Seq<char>>,
    x: bool,
    y: bool,
)
    requires
        gained(a, b, x),
        gained(b, c, y),
    ensures
        gained(a, c, x || y),
{
    if x {
        let n = choose|n: Seq<char>| #[trigger] b.contains(n) && !a.contains(n);
        assert(c.contains(n) && !a.contains(n));
    }
    if y {
        let n = choose|n: Seq<char>| #[trigger] c.contains(n) && !b.contains(n);
        assert(c.contains(n) && !a.contains(n));
    }
}

/// Adds the token if it is no fragment, and if it is there what it refers to.
fn use_token(g: &Grammar, t: &TokenDef, ts: &mut NameSet) -> (grew: bool)
    requires
        old(ts).wf(),
    ensures
        final(ts).wf(),
        gained(old(ts)@, final(ts)@, grew),
        !grew ==> token_use_closed(g.token_map(), t@, final(ts)@),
        forall|ts2: Set<Seq<char>>| #[trigger]
            token_use_closed(g.token_map(), t@, ts2) && old(ts)@.subset_of(ts2)
                ==> final(ts)@.subset_of(ts2),
{
    let ghost t0 = ts@;
    let ghost defs = g.token_map();
    let mut grew = false;
    if !t.is_fragment {
        grew = ts.insert(t.name.as_str());
        proof {
            if grew {
                assert(ts@.contains(t.name@) && !t0.contains(t.name@));
            } else {
                assert(ts@ =~= t0);
            }
        }
    }
    let ghost t1 = ts@;
    if ts.contains(t.name.as_str()) {
        let mut list: Vec<String> = Vec::new();
        refs::collect_pattern_refs(&t.pattern, &mut list);
        assert(names::list_view(list@) =~= refs::pattern_refs(t@.pattern));
        let more = add_tokens(g, &list, ts);
        proof {
            assert(t1.subset_of(ts@));
            lemma_gained_trans(t0, t1, ts@, grew, more);
            assert forall|ts2: Set<Seq<char>>| #[trigger]
                token_use_closed(defs, t@, ts2) && t0.subset_of(ts2) implies ts@.subset_of(ts2) by {
                assert(t1.subset_of(ts2));
                assert(ts2.contains(t@.name));
                assert forall|n: Seq<char>| ts@.contains(n) implies ts2.contains(n) by {}
            }
            if !grew && !more {
                assert forall|n: Seq<char>|
                    refs::pattern_refs(t@.pattern).contains(n) && ir::lookup(
                        defs,
                        n,
                    ) is Some implies #[trigger] ts@.contains(n) by {
                    assert(names::list_view(list@).contains(n));
                }
            }
        }
        grew = grew || more;
    }
    grew
}

/// Adds the rule if it is no fragment, and if it is there what it refers to.
fn use_rule(g: &Grammar, r: &RuleDef, ts: &mut NameSet, rs: &mut NameSet) -> (grew: (bool, bool))
    requires
        old(ts).wf(),
        old(rs).wf(),
    ensures
        final(ts).wf(),
        final(rs).wf(),
        gained(old(ts)@, final(ts)@, grew.0),
        gained(old(rs)@, final(rs)@, grew.1),
        !grew.0 && !grew.1 ==> rule_use_closed(
            g.token_map(),
            g.rule_map(),
            r@,
            final(ts)@,
            final(rs)@,
        ),
        forall|ts2: Set<Seq<char>>, rs2: Set<Seq<char>>| #[trigger]
            rule_use_closed(g.token_map(), g.rule_map(), r@, ts2, rs2) && old(ts)@.subset_of(ts2)
                && old(rs)@.subset_of(rs2) ==> final(ts)@.subset_of(ts2) && final(rs)@.subset_of(
                rs2,
            ),
{
    let ghost t0 = ts@;
    let ghost r0 = rs@;
    let ghost defs = g.token_map();
    let ghost rules = g.rule_map();
    let mut grew_t = false;
    let mut grew_r = false;
    if !r.is_fragment {
        grew_r = rs.insert(r.name.as_str());
        proof {
            if grew_r {
                assert(rs@.contains(r.name@) && !r0.contains(r.name@));
            } else {
                assert(rs@ =~= r0);
            }
        }
    }
    let ghost r1 = rs@;
    if rs.contains(r.name.as_str()) {
        let mut toks: Vec<String> = Vec::new();
        let mut list: Vec<String> = Vec::new();
        refs::collect_expr_refs(&r.body, &mut toks, &mut list);
        assert(names::list_view(toks@) =~= refs::token_refs(r@.body));
        assert(names::list_view(list@) =~= follow::rule_refs(r@.body));
        grew_t = add_tokens(g, &toks, ts);
        let more = add_rules(g, &list, rs);
        proof {
            assert(t0.subset_of(ts@));
            assert(r1.subset_of(rs@));
            lemma_gained_trans(r0, r1, rs@, grew_r, more);
            assert forall|ts2: Set<Seq<char>>, rs2: Set<Seq<char>>| #[trigger]
                rule_use_closed(defs, rules, r@, ts2, rs2) && t0.subset_of(ts2) && r0.subset_of(
                    rs2,
                ) implies ts@.subset_of(ts2) && rs@.subset_of(rs2) by {
                assert(r1.subset_of(rs2));
                assert(rs2.contains(r@.name));
                assert forall|n: Seq<char>| ts@.contains(n) implies ts2.contains(n) by {}
                assert forall|n: Seq<char>| rs@.contains(n) implies rs2.contains(n) by {}
            }
            if !grew_t && !grew_r && !more {
                assert forall|n: Seq<char>|
                    refs::token_refs(r@.body).contains(n) && ir::lookup(
                        defs,
                        n,
                    ) is Some implies #[trigger] ts@.contains(n) by {
                    assert(names::list_view(toks@).contains(n));
                }
                assert forall|n: Seq<char>|
                    follow::rule_refs(r@.body).contains(n) && ir::lookup(
                        rules,
                        n,
                    ) is Some implies #[trigger] rs@.contains(n) by {
                    assert(names::list_view(list@).contains(n));
                }
            }
        }
        grew_r = grew_r || more;
    }
    (grew_t, grew_r)
}

spec fn token_names(defs: Seq<(Seq<char>, TokenView)>) -> Seq<Seq<char>> {
    Seq::new(defs.len(), |i: int| defs[i].1.name)
}

spec fn rule_def_names(rules: Seq<(Seq<char>, RuleView)>) -> Seq<Seq<char>> {
    Seq::new(rules.len(), |i: int| rules[i].1.name)
}

/// All known names together are closed.
proof fn lemma_known_closed(
    defs: Seq<(Seq<char>, TokenView)>,
    rules: Seq<(Seq<char>, RuleView)>,
    ts: Set<Seq<char>>,
    rs: Set<Seq<char>>,
)
    requires
        ts == known(defs, token_names(defs)),
        rs == known(rules, rule_def_names(rules)),
    ensures
        ts.finite(),
        rs.finite(),
        use_closed(defs, rules, ts, rs),
{
    lemma_known(defs, token_names(defs));
    lemma_known(rules, rule_def_names(rules));
    assert forall|i: int| 0 <= i < defs.len() implies token_use_closed(
        defs,
        #[trigger] defs[i].1,
        ts,
    ) by {
        assert(ts.contains(token_names(defs)[i]));
    }
    assert forall|i: int| 0 <= i < rules.len() implies rule_use_closed(
        defs,
        rules,
        #[trigger] rules[i].1,
        ts,
        rs,
    ) by {
        assert(rs.contains(rule_def_names(rules)[i]));
    }
}

/// The tokens and rules that are in use.
fn used(g: &Grammar) -> (r: (NameSet, NameSet))
    ensures
        r.0.wf(),
        r.1.wf(),
        forall|n: Seq<char>| #[trigger]
            r.0@.contains(n) <==> token_used(g.token_map(), g.rule_map(), n),
        forall|n: Seq<char>| #[trigger]
            r.1@.contains(n) <==> rule_used(g.token_map(), g.rule_map(), n),
{
    let tokens = g.token_values();
    let rule_list = g.rule_values();
    let ghost defs = g.token_map();
    let ghost rules = g.rule_map();
    let ghost kt = known(defs, token_names(defs));
    let ghost kr = known(rules, rule_def_names(rules));
    proof {
        lemma_known_closed(defs, rules, kt, kr);
    }
    let mut ts = NameSet::new();
    let mut rs = NameSet::new();
    let mut changed = true;
    while changed
        invariant
            defs == g.token_map(),
            rules == g.rule_map(),
            tokens@.len() == defs.len(),
            rule_list@.len() == rules.len(),
            forall|k: int| 0 <= k < tokens@.len() ==> (#[trigger] tokens@[k])@ == defs[k].1,
            forall|k: int| 0 <= k < rule_list@.len() ==> (#[trigger] rule_list@[k])@ == rules[k].1,
            ts.wf(),
            rs.wf(),
            kt.finite(),
            kr.finite(),
            use_closed(defs, rules, kt, kr),
            use_forced(defs, rules, ts@, rs@),
            !changed ==> use_closed(defs, rules, ts@, rs@),
        decreases
                kt.len() - ts@.len() + (kr.len() - rs@.len()),
                (if changed {
                    1int
                } else {
                    0int
                }),
    {
        let ghost t0 = ts@;
        let ghost r0 = rs@;
        let mut grew_t = false;
        let mut grew_r = false;
        let mut i: usize = 0;
        while i < tokens.len()
            invariant
                i <= tokens@.len(),
                defs == g.token_map(),
                rules == g.rule_map(),
                tokens@.len() == defs.len(),
                forall|k: int| 0 <= k < tokens@.len() ==> (#[trigger] tokens@[k])@ == defs[k].1,
                ts.wf(),
                gained(t0, ts@, grew_t),
                use_forced(defs, rules, ts@, r0),
                !grew_t ==> forall|k: int|
                    0 <= k < i ==> token_use_closed(defs, #[trigger] defs[k].1, t0),
            decreases tokens@.len() - i,
        {
            let ghost t1 = ts@;
            let ghost g1 = grew_t;
            let c = use_token(g, tokens[i], &mut ts);
            proof {
                lemma_gained_trans(t0, t1, ts@, g1, c);
                assert(tokens@[i as int]@ == defs[i as int].1);
                assert forall|ts2: Set<Seq<char>>, rs2: Set<Seq<char>>| #[trigger]
                    use_closed(defs, rules, ts2, rs2) implies ts@.subset_of(ts2) && r0.subset_of(
                    rs2,
                ) by {
                    assert(token_use_closed(defs, defs[i as int].1, ts2));
                }
            }
            grew_t = grew_t || c;
            i += 1;
        }
        let mut j: usize = 0;
        while j < rule_list.len()
            invariant
                j <= rule_list@.len(),
                defs == g.token_map(),
                rules == g.rule_map(),
                rule_list@.len() == rules.len(),
                forall|k: int|
                    0 <= k < rule_list@.len() ==> (#[trigger] rule_list@[k])@ == rules[k].1,
                ts.wf(),
                rs.wf(),
                gained(t0, ts@, grew_t),
                gained(r0, rs@, grew_r),
                use_forced(defs, rules, ts@, rs@),
                !grew_t ==> forall|k: int|
                    0 <= k < defs.len() ==> token_use_closed(defs, #[trigger] defs[k].1, t0),
                !grew_t && !grew_r ==> forall|k: int|
                    0 <= k < j ==> rule_use_closed(defs, rules, #[trigger] rules[k].1, t0, r0),
            decreases rule_list@.len() - j,
        {
            let ghost t1 = ts@;
            let ghost r1 = rs@;
            let ghost gt = grew_t;
            let ghost gr = grew_r;
            let (a, b) = use_rule(g, rule_list[j], &mut ts, &mut rs);
            proof {
                lemma_gained_trans(t0, t1, ts@, gt, a);
                lemma_gained_trans(r0, r1, rs@, gr, b);
                assert(rule_list@[j as int]@ == rules[j as int].1);
                assert forall|ts2: Set<Seq<char>>, rs2: Set<Seq<char>>| #[trigger]
                    use_closed(defs, rules, ts2, rs2) implies ts@.subset_of(ts2) && rs@.subset_of(
                    rs2,
                ) by {
                    assert(rule_use_closed(defs, rules, rules[j as int].1, ts2, rs2));
                }
            }
            grew_t = grew_t || a;
            grew_r = grew_r || b;
            j += 1;
        }
        changed = grew_t || grew_r;
        proof {
            assert(ts@.subset_of(kt) && rs@.subset_of(kr));
            vstd::set_lib::lemma_len_subset(ts@, kt);
            vstd::set_lib::lemma_len_subset(rs@, kr);
            if grew_t {
                let n = choose|n: Seq<char>| #[trigger] ts@.contains(n) && !t0.contains(n);
                universe::lemma_gain(t0, ts@, kt, n);
            }
            if grew_r {
                let n = choose|n: Seq<char>| #[trigger] rs@.contains(n) && !r0.contains(n);
                universe::lemma_gain(r0, rs@, kr, n);
            }
        }
    }
    proof {
        assert forall|n: Seq<char>| #[trigger] ts@.contains(n) <==> token_used(
            defs,
            rules,
            n,
        ) by {
            if token_used(defs, rules, n) {
                assert(use_closed(defs, rules, ts@, rs@));
            }
        }
        assert forall|n: Seq<char>| #[trigger] rs@.contains(n) <==> rule_used(defs, rules, n) by {
            if rule_used(defs, rules, n) {
                assert(use_closed(defs, rules, ts@, rs@));
            }
        }
    }
    (ts, rs)
}

/// What is reported of the first `n` tokens that are fragments not in use.
pub open spec fn unused_token_diags(
    defs: Seq<(Seq<char>, TokenView)>,
    rules: Seq<(Seq<char>, RuleView)>,
    n: nat,
) -> Seq<DiagnosticView>
    decreases n,
{
    if n == 0 {
        Seq::empty()
    } else {
        let t = defs[n - 1].1;
        unused_token_diags(defs, rules, (n - 1) as nat) + (if t.is_fragment && !token_used(
            defs,
            rules,
            t.name,
        ) {
            seq![
                diagnostic::warning_at(
                    "fragment token `"@ + t.name + "` is never referenced"@,
                    t.span,
                ),
            ]
        } else {
            Seq::empty()
        })
    }
}

/// What is reported of the first `n` rules that are fragments not in use.
pub open spec fn unused_rule_diags(
    defs: Seq<(Seq<char>, TokenView)>,
    rules: Seq<(Seq<char>, RuleView)>,
    n: nat,
) -> Seq<DiagnosticView>
    decreases n,
{
    if n == 0 {
        Seq::empty()
    } else {
        let r = rules[n - 1].1;
        unused_rule_diags(defs, rules, (n - 1) as nat) + (if r.is_fragment && !rule_used(
            defs,
            rules,
            r.name,
        ) {
            seq![
                diagnostic::warning_at(
                    "fragment rule `"@ + r.name + "` is never referenced"@,
                    r.span,
                ),
            ]
        } else {
            Seq::empty()
        })
    }
}

/// Flag fragment tokens and fragment rules that nothing in use refers to. In
/// use are the non-fragment tokens, skip tokens among them, the non-fragment
/// rules, and what these refer to.
pub fn check_unused_fragments(g: &Grammar, issues: &mut Vec<Diagnostic>)
    ensures
        diagnostic::diags_view(final(issues)@) == diagnostic::diags_view(old(issues)@)
            + unused_token_diags(g.token_map(), g.rule_map(), g.token_map().len())
            + unused_rule_diags(g.token_map(), g.rule_map(), g.rule_map().len()),
{
    let (ts, rs) = used(g);
    let tokens = g.token_values();
    let rule_list = g.rule_values();
    let ghost defs = g.token_map();
    let ghost rules = g.rule_map();
    let ghost d0 = diagnostic::diags_view(issues@);
    let mut i: usize = 0;
    assert(d0 =~= d0 + unused_token_diags(defs, rules, 0));
    while i < tokens.len()
        invariant
            i <= tokens@.len(),
            tokens@.len() == defs.len(),
            forall|k: int| 0 <= k < tokens@.len() ==> (#[trigger] tokens@[k])@ == defs[k].1,
            forall|n: Seq<char>| #[trigger] ts@.contains(n) <==> token_used(defs, rules, n),
            diagnostic::diags_view(issues@) == d0 + unused_token_diags(defs, rules, i as nat),
        decreases tokens@.len() - i,
    {
        let t = tokens[i];
        assert(t@ == defs[i as int].1);
        let ghost before = diagnostic::diags_view(issues@);
        if t.is_fragment && !ts.contains(t.name.as_str()) {
            let mut m = "fragment token `".to_owned();
            m.append(t.name.as_str());
            m.append("` is never referenced");
            diagnostic::report(issues, Diagnostic::warning(m).at(t.span));
        }
        assert(diagnostic::diags_view(issues@) =~= d0 + unused_token_diags(
            defs,
            rules,
            (i + 1) as nat,
        ));
        i += 1;
    }
    let ghost d1 = diagnostic::diags_view(issues@);
    let mut j: usize = 0;
    assert(d1 =~= d1 + unused_rule_diags(defs, rules, 0));
    while j < rule_list.len()
        invariant
            j <= rule_list@.len(),
            rule_list@.len() == rules.len(),
            forall|k: int| 0 <= k < rule_list@.len() ==> (#[trigger] rule_list@[k])@ == rules[k].1,
            forall|n: Seq<char>| #[trigger] rs@.contains(n) <==> rule_used(defs, rules, n),
            diagnostic::diags_view(issues@) == d1 + unused_rule_diags(defs, rules, j as nat),
        decreases rule_list@.len() - j,
    {
        let r = rule_list[j];
        assert(r@ == rules[j as int].1);
        if r.is_fragment && !rs.contains(r.name.as_str()) {
            let mut m = "fragment rule `".to_owned();
            m.append(r.name.as_str());
            m.append("` is never referenced");
            diagnostic::report(issues, Diagnostic::warning(m).at(r.span));
        }
        assert(diagnostic::diags_view(issues@) =~= d1 + unused_rule_diags(
            defs,
            rules,
            (j + 1) as nat,
        ));
        j += 1;
    }
}

/// The expression derives a string of tokens if the rules in `done` do.
pub open spec fn productive_given(e: ExprView, done: Set<Seq<char>>) -> bool
    decreases e,
{
    match e {
        ExprView::Empty => true,
        ExprView::Token(_) => true,
        ExprView::Rule(n) => done.contains(n),
        ExprView::Concat(xs) => forall|i: int|
            0 <= i < xs.len() ==> productive_given(#[trigger] xs[i], done),
        ExprView::Alt(xs) => exists|i: int|
            0 <= i < xs.len() && productive_given(#[trigger] xs[i], done),
        ExprView::Opt(_) => true,
        ExprView::Star(_) => true,
        ExprView::Plus(x) => productive_given(*x, done),
        ExprView::Label(_, x) => productive_given(*x, done),
    }
}

/// The set has every rule whose body derives a string of tokens given the set.
pub open spec fn productive_closed(rules: Seq<RuleView>, done: Set<Seq<char>>) -> bool {
    forall|i: int|
        0 <= i < rules.len() && productive_given((#[trigger] rules[i]).body, done)
            ==> done.contains(rules[i].name)
}

/// The rule derives a string of tokens.
pub open spec fn productive(rules: Seq<RuleView>, n: Seq<char>) -> bool {
    forall|done: Set<Seq<char>>| #[trigger]
        productive_closed(rules, done) ==> done.contains(n)
}

proof fn lemma_productive_mono(e: ExprView, a: Set<Seq<char>>, b: Set<Seq<char>>)
    requires
        productive_given(e, a),
        a.subset_of(b),
    ensures
        productive_given(e, b),
    decreases e,
{
    match e {
        ExprView::Concat(xs) => {
            assert forall|i: int| 0 <= i < xs.len() implies productive_given(
                #[trigger] xs[i],
                b,
            ) by {
                lemma_productive_mono(xs[i], a, b);
            }
        },
        ExprView::Alt(xs) => {
            let i = choose|i: int| 0 <= i < xs.len() && productive_given(#[trigger] xs[i], a);
            lemma_productive_mono(xs[i], a, b);
            assert(productive_given(xs[i], b));
        },
        ExprView::Plus(x) => lemma_productive_mono(*x, a, b),
        ExprView::Label(_, x) => lemma_productive_mono(*x, a, b),
        _ => {},
    }
}

fn expr_productive(e: &Expr, done: &NameSet) -> (r: bool)
    ensures
        r == productive_given(e@, done@),
    decreases e,
{
    match e {
        Expr::Empty => true,
        Expr::Token(_) => true,
        Expr::Rule(n) => done.contains(n.as_str()),
        Expr::Concat(xs) => all_productive(xs, done),
        Expr::Alt(xs) => any_productive(xs, done),
        Expr::Opt(_) => true,
        Expr::Star(_) => true,
        Expr::Plus(x) => expr_productive(x, done),
        Expr::Label(_, x) => expr_productive(x, done),
    }
}

fn all_productive(xs: &Vec<Expr>, done: &NameSet) -> (r: bool)
    ensures
        r == productive_given(ExprView::Concat(ir::exprs_view(xs@)), done@),
    decreases xs,
{
    let ghost views = ir::exprs_view(xs@);
    let ghost p = ExprView::Concat(views);
    assert(p->Concat_0 == views);
    let mut i: usize = 0;
    while i < xs.len()
        invariant
            i <= xs@.len(),
            views == ir::exprs_view(xs@),
            p == ExprView::Concat(views),
            p->Concat_0 == views,
            forall|j: int| 0 <= j < i ==> productive_given(#[trigger] views[j], done@),
        decreases xs@.len() - i,
    {
        assert(views[i as int] == xs@[i as int]@);
        if !expr_productive(&xs[i], done) {
            return false;
        }
        i += 1;
    }
    true
}

fn any_productive(xs: &Vec<Expr>, done: &NameSet) -> (r: bool)
    ensures
        r == productive_given(ExprView::Alt(ir::exprs_view(xs@)), done@),
    decreases xs,
{
    let ghost views = ir::exprs_view(xs@);
    let ghost p = ExprView::Alt(views);
    assert(p->Alt_0 == views);
    let mut i: usize = 0;
    while i < xs.len()
        invariant
            i <= xs@.len(),
            views == ir::exprs_view(xs@),
            p == ExprView::Alt(views),
            p->Alt_0 == views,
            forall|j: int| 0 <= j < i ==> !productive_given(#[trigger] views[j], done@),
        decreases xs@.len() - i,
    {
        assert(views[i as int] == xs@[i as int]@);
        if expr_productive(&xs[i], done) {
            return true;
        }
        i += 1;
    }
    false
}

/// What is reported of a rule that derives no string of tokens.
pub open spec fn non_productive_text(name: Seq<char>) -> Seq<char> {
    "rule `"@ + name
        + "` is non-productive: no derivation terminates in tokens. Make sure at least one alternative is purely terminal or reaches productive rules without re-entering `"@
        + name + "` unconditionally."@
}

/// What is reported of the first `n` rules that derive no string of tokens.
pub open spec fn non_productive_diags(rules: Seq<RuleView>, n: nat) -> Seq<DiagnosticView>
    decreases n,
{
    if n == 0 {
        Seq::empty()
    } else {
        let r = rules[n - 1];
        non_productive_diags(rules, (n - 1) as nat) + (if productive(rules, r.name) {
            Seq::empty()
        } else {
            seq![diagnostic::error_at(non_productive_text(r.name), r.span)]
        })
    }
}

/// The rules that derive a string of tokens.
fn productive_rules(g: &Grammar) -> (done: NameSet)
    ensures
        done.wf(),
        forall|n: Seq<char>| #[trigger]
            done@.contains(n) <==> productive(g.rule_list(), n),
{
    let rule_list = g.rule_values();
    let ghost rules = g.rule_list();
    let ghost names = Seq::new(rules.len(), |i: int| rules[i].name);
    let ghost all = names.to_set();
    proof {
        vstd::seq_lib::seq_to_set_is_finite(names);
    }
    let mut done = NameSet::new();
    let mut changed = true;
    while changed
        invariant
            rules == g.rule_list(),
            names == Seq::new(rules.len(), |i: int| rules[i].name),
            all == names.to_set(),
            all.finite(),
            rule_list@.len() == rules.len(),
            forall|k: int| 0 <= k < rule_list@.len() ==> (#[trigger] rule_list@[k])@ == rules[k],
            done.wf(),
            done@.subset_of(all),
            forall|d2: Set<Seq<char>>| #[trigger]
                productive_closed(rules, d2) ==> done@.subset_of(d2),
            !changed ==> productive_closed(rules, done@),
        decreases
                all.len() - done@.len(),
                (if changed {
                    1int
                } else {
                    0int
                }),
    {
        changed = false;
        let ghost d0 = done@;
        let mut i: usize = 0;
        while i < rule_list.len()
            invariant
                i <= rule_list@.len(),
                rules == g.rule_list(),
                names == Seq::new(rules.len(), |i: int| rules[i].name),
                all == names.to_set(),
                rule_list@.len() == rules.len(),
                forall|k: int|
                    0 <= k < rule_list@.len() ==> (#[trigger] rule_list@[k])@ == rules[k],
                done.wf(),
                done@.subset_of(all),
                gained(d0, done@, changed),
                forall|d2: Set<Seq<char>>| #[trigger]
                    productive_closed(rules, d2) ==> done@.subset_of(d2),
                !changed ==> forall|k: int|
                    0 <= k < i && productive_given((#[trigger] rules[k]).body, d0) ==> d0.contains(
                        rules[k].name,
                    ),
            decreases rule_list@.len() - i,
        {
            let r = rule_list[i];
            assert(r@ == rules[i as int]);
            if !done.contains(r.name.as_str()) && expr_productive(&r.body, &done) {
                let ghost before = done@;
                done.insert(r.name.as_str());
                changed = true;
                proof {
                    assert(done@.contains(r.name@) && !d0.contains(r.name@));
                    assert(names[i as int] == r.name@);
                    assert(names.contains(r.name@));
                    assert forall|d2: Set<Seq<char>>| #[trigger]
                        productive_closed(rules, d2) implies done@.subset_of(d2) by {
                        assert(before.subset_of(d2));
                        lemma_productive_mono(r@.body, before, d2);
                        assert(productive_given(rules[i as int].body, d2));
                    }
                }
            }
            i += 1;
        }
        proof {
            if changed {
                let n = choose|n: Seq<char>| #[trigger] done@.contains(n) && !d0.contains(n);
                universe::lemma_gain(d0, done@, all, n);
            }
        }
    }
    done
}

/// Flag rules with no derivation that ends in tokens. A rule is productive if
/// some alternative reduces to tokens or to other productive rules.
pub fn check_non_productive_rules(g: &Grammar, issues: &mut Vec<Diagnostic>)
    ensures
        diagnostic::diags_view(final(issues)@) == diagnostic::diags_view(old(issues)@)
            + non_productive_diags(g.rule_list(), g.rule_list().len()),
{
    let done = productive_rules(g);
    let rule_list = g.rule_values();
    let ghost rules = g.rule_list();
    let ghost d0 = diagnostic::diags_view(issues@);
    let mut i: usize = 0;
    assert(d0 =~= d0 + non_productive_diags(rules, 0));
    while i < rule_list.len()
        invariant
            i <= rule_list@.len(),
            rule_list@.len() == rules.len(),
            forall|k: int| 0 <= k < rule_list@.len() ==> (#[trigger] rule_list@[k])@ == rules[k],
            forall|n: Seq<char>| #[trigger] done@.contains(n) <==> productive(rules, n),
            diagnostic::diags_view(issues@) == d0 + non_productive_diags(rules, i as nat),
        decreases rule_list@.len() - i,
    {
        let r = rule_list[i];
        assert(r@ == rules[i as int]);
        if !done.contains(r.name.as_str()) {
            let mut m = "rule `".to_owned();
            m.append(r.name.as_str());
            m.append(
                "` is non-productive: no derivation terminates in tokens. Make sure at least one alternative is purely terminal or reaches productive rules without re-entering `",
            );
            m.append(r.name.as_str());
            m.append("` unconditionally.");
            diagnostic::report(issues, Diagnostic::error(m).at(r.span));
        }
        assert(diagnostic::diags_view(issues@) =~= d0 + non_productive_diags(
            rules,
            (i + 1) as nat,
        ));
        i += 1;
    }
}

/// What the lints report of a grammar.
pub open spec fn lint_diags(g: Grammar) -> Seq<DiagnosticView> {
    empty_match_diags(g.token_map(), g.token_map().len()) + unused_token_diags(
        g.token_map(),
        g.rule_map(),
        g.token_map().len(),
    ) + unused_rule_diags(g.token_map(), g.rule_map(), g.rule_map().len()) + non_productive_diags(
        g.rule_list(),
        g.rule_list().len(),
    )
}

/// Run every lint. Empty-match tokens and non-productive rules are errors;
/// unused fragments are warnings.
pub fn run(g: &Grammar, diags: &mut Vec<Diagnostic>)
    ensures
        diagnostic::diags_view(final(diags)@) == diagnostic::diags_view(old(diags)@) + lint_diags(
            *g,
        ),
{
    let ghost d0 = diagnostic::diags_view(diags@);
    check_empty_match_tokens(g, diags);
    check_unused_fragments(g, diags);
    check_non_productive_rules(g, diags);
    assert(diagnostic::diags_view(diags@) =~= d0 + lint_diags(*g));
}

} // verus!
