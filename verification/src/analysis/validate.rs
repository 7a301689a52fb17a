//! Purely structural grammar checks that do not need FIRST/FOLLOW.
//!
//! Catches reserved or duplicate names, undefined token/rule references,
//! token-reference cycles, and left recursion: all things that would otherwise
//! crash or loop later stages.
use vstd::prelude::*;

use crate::analysis::left_recursion;
use crate::diagnostic::{self, Diagnostic, DiagnosticView};
use crate::grammar::ir::{
    self,
    Expr,
    ExprView,
    Grammar,
    PatternView,
    RuleDef,
    RuleView,
    TokenDef,
    TokenView,
};
use crate::grammar::refs;
use crate::grammar::resolve;
use crate::names::{self, NameSet, Rank};
use crate::text;

verus! {

/// What the first `n` positions report, one after the other.
pub open spec fn gathered(each: spec_fn(int) -> Seq<DiagnosticView>, n: nat) -> Seq<DiagnosticView>
    decreases n,
{
    if n == 0 {
        Seq::empty()
    } else {
        gathered(each, (n - 1) as nat) + each(n - 1)
    }
}

/// One diagnostic if the condition holds.
pub open spec fn when(c: bool, d: DiagnosticView) -> Seq<DiagnosticView> {
    if c {
        seq![d]
    } else {
        Seq::empty()
    }
}

/// The text spells `t` when the letters a to z are taken as capitals.
pub open spec fn spells(s: Seq<char>, t: Seq<char>) -> bool {
    s.len() == t.len() && forall|i: int| 0 <= i < s.len() ==> text::upper(#[trigger] s[i]) == t[i]
}

/// The name is one that the runtime emits itself.
pub open spec fn reserved(name: Seq<char>) -> bool {
    spells(name, "EOF"@) || spells(name, "ERROR"@)
}

fn spells_out(s: &Vec<char>, t: &Vec<char>) -> (r: bool)
    ensures
        r == spells(s@, t@),
{
    if s.len() != t.len() {
        return false;
    }
    let mut i: usize = 0;
    while i < s.len()
        invariant
            i <= s@.len(),
            s@.len() == t@.len(),
            forall|j: int| 0 <= j < i ==> text::upper(#[trigger] s@[j]) == t@[j],
        decreases s@.len() - i,
    {
        if text::to_upper(s[i]) != t[i] {
            return false;
        }
        i += 1;
    }
    true
}

fn is_reserved_token_name(name: &str) -> (r: bool)
    ensures
        r == reserved(name@),
{
    let s = text::chars(name);
    spells_out(&s, &text::chars("EOF")) || spells_out(&s, &text::chars("ERROR"))
}

/// What is reported of a reserved token name.
pub open spec fn reserved_diag(t: TokenView) -> Seq<DiagnosticView> {
    when(
        reserved(t.name),
        diagnostic::error_at(
            "token name `"@ + t.name
                + "` is reserved (EOF and ERROR are emitted by the runtime)"@,
            t.span,
        ),
    )
}

/// An earlier token has the name of the one at position `i`.
pub open spec fn repeats_token(tokens: Seq<TokenView>, i: int) -> bool {
    exists|j: int| 0 <= j < i && (#[trigger] tokens[j]).name == tokens[i].name
}

/// An earlier rule has the name of the one at position `i`.
pub open spec fn repeats_rule(rules: Seq<RuleView>, i: int) -> bool {
    exists|j: int| 0 <= j < i && (#[trigger] rules[j]).name == rules[i].name
}

/// What is reported of the occurrences in a rule body that name nothing that
/// can stand there.
pub open spec fn expr_ref_diags(
    e: ExprView,
    defs: Seq<(Seq<char>, TokenView)>,
    rules: Seq<(Seq<char>, RuleView)>,
    ctx: RuleView,
) -> Seq<DiagnosticView>
    decreases e, 0nat,
{
    match e {
        ExprView::Empty => Seq::empty(),
        ExprView::Token(n) => match ir::lookup(defs, n) {
            None => seq![
                diagnostic::error_at(
                    "undefined token `"@ + n + "` in rule `"@ + ctx.name + "`"@,
                    ctx.span,
                ),
            ],
            Some(t) => when(
                t.is_fragment,
                diagnostic::error_at(
                    "rule `"@ + ctx.name + "` references fragment token `"@ + n
                        + "`; fragments are only usable inside other tokens"@,
                    ctx.span,
                ),
            ),
        },
        ExprView::Rule(n) => when(
            ir::lookup(rules, n) is None,
            diagnostic::error_at(
                "undefined rule `"@ + n + "` in rule `"@ + ctx.name + "`"@,
                ctx.span,
            ),
        ),
        ExprView::Concat(xs) => list_ref_diags(xs, defs, rules, ctx),
        ExprView::Alt(xs) => list_ref_diags(xs, defs, rules, ctx),
        ExprView::Opt(x) => expr_ref_diags(*x, defs, rules, ctx),
        ExprView::Star(x) => expr_ref_diags(*x, defs, rules, ctx),
        ExprView::Plus(x) => expr_ref_diags(*x, defs, rules, ctx),
        ExprView::Label(_, x) => expr_ref_diags(*x, defs, rules, ctx),
    }
}

/// The same for expressions one after the other.
pub open spec fn list_ref_diags(
    xs: Seq<ExprView>,
    defs: Seq<(Seq<char>, TokenView)>,
    rules: Seq<(Seq<char>, RuleView)>,
    ctx: RuleView,
) -> Seq<DiagnosticView>
    decreases xs, xs.len(),
{
    if xs.len() == 0 {
        Seq::empty()
    } else {
        list_ref_diags(xs.drop_last(), defs, rules, ctx) + expr_ref_diags(
            xs.last(),
            defs,
            rules,
            ctx,
        )
    }
}

fn check_expr_refs(e: &Expr, g: &Grammar, issues: &mut Vec<Diagnostic>, ctx: &RuleDef)
    ensures
        diagnostic::diags_view(final(issues)@) == diagnostic::diags_view(old(issues)@)
            + expr_ref_diags(e@, g.token_map(), g.rule_map(), ctx@),
    decreases e,
{
    let ghost d0 = diagnostic::diags_view(issues@);
    match e {
        Expr::Empty => {},
        Expr::Token(n) => match g.token(n.as_str()) {
            None => {
                let mut m = "undefined token `".to_owned();
                m.append(n.as_str());
                m.append("` in rule `");
                m.append(ctx.name.as_str());
                m.append("`");
                diagnostic::report(issues, Diagnostic::error(m).at(ctx.span));
            },
            Some(t) => {
                if t.is_fragment {
                    let mut m = "rule `".to_owned();
                    m.append(ctx.name.as_str());
                    m.append("` references fragment token `");
                    m.append(n.as_str());
                    m.append("`; fragments are only usable inside other tokens");
                    diagnostic::report(issues, Diagnostic::error(m).at(ctx.span));
                }
            },
        },
        Expr::Rule(n) => {
            if g.rule(n.as_str()).is_none() {
                let mut m = "undefined rule `".to_owned();
                m.append(n.as_str());
                m.append("` in rule `");
                m.append(ctx.name.as_str());
                m.append("`");
                diagnostic::report(issues, Diagnostic::error(m).at(ctx.span));
            }
        },
        Expr::Concat(xs) => {
            check_list_refs(xs, g, issues, ctx);
            assert(e@->Concat_0 == ir::exprs_view(xs@));
        },
        Expr::Alt(xs) => {
            check_list_refs(xs, g, issues, ctx);
            assert(e@->Alt_0 == ir::exprs_view(xs@));
        },
        Expr::Opt(x) => check_expr_refs(x, g, issues, ctx),
        Expr::Star(x) => check_expr_refs(x, g, issues, ctx),
        Expr::Plus(x) => check_expr_refs(x, g, issues, ctx),
        Expr::Label(_, x) => check_expr_refs(x, g, issues, ctx),
    }
    assert(diagnostic::diags_view(issues@) =~= d0 + expr_ref_diags(
        e@,
        g.token_map(),
        g.rule_map(),
        ctx@,
    ));
}

fn check_list_refs(xs: &Vec<Expr>, g: &Grammar, issues: &mut Vec<Diagnostic>, ctx: &RuleDef)
    ensures
        diagnostic::diags_view(final(issues)@) == diagnostic::diags_view(old(issues)@)
            + list_ref_diags(ir::exprs_view(xs@), g.token_map(), g.rule_map(), ctx@),
    decreases xs,
{
    let ghost views = ir::exprs_view(xs@);
    let ghost defs = g.token_map();
    let ghost rules = g.rule_map();
    let ghost d0 = diagnostic::diags_view(issues@);
    let mut i: usize = 0;
    assert(d0 =~= d0 + list_ref_diags(views.take(0), defs, rules, ctx@));
    while i < xs.len()
        invariant
            i <= xs@.len(),
            views == ir::exprs_view(xs@),
            defs == g.token_map(),
            rules == g.rule_map(),
            diagnostic::diags_view(issues@) == d0 + list_ref_diags(
                views.take(i as int),
                defs,
                rules,
                ctx@,
            ),
        decreases xs@.len() - i,
    {
        check_expr_refs(&xs[i], g, issues, ctx);
        proof {
            let next = views.take(i + 1);
            assert(next.drop_last() =~= views.take(i as int));
            assert(next.last() == xs@[i as int]@);
            assert(diagnostic::diags_view(issues@) =~= d0 + list_ref_diags(
                next,
                defs,
                rules,
                ctx@,
            ));
        }
        i += 1;
    }
    assert(views.take(i as int) =~= views);
}

/// What is reported of a reference to `n` in token `ctx`.
pub open spec fn pattern_ref_diag(
    n: Seq<char>,
    defs: Seq<(Seq<char>, TokenView)>,
    ctx: TokenView,
) -> Seq<DiagnosticView> {
    when(
        ir::lookup(defs, n) is None,
        diagnostic::error_at(
            "undefined token `"@ + n + "` in token `"@ + ctx.name + "`"@,
            ctx.span,
        ),
    )
}

/// What is reported of the references of the token `ctx`.
pub open spec fn pattern_ref_diags(defs: Seq<(Seq<char>, TokenView)>, ctx: TokenView) -> Seq<
    DiagnosticView,
> {
    let names = refs::pattern_refs(ctx.pattern);
    gathered(|i: int| pattern_ref_diag(names[i], defs, ctx), names.len())
}

fn check_pattern_refs(g: &Grammar, issues: &mut Vec<Diagnostic>, ctx: &TokenDef)
    ensures
        diagnostic::diags_view(final(issues)@) == diagnostic::diags_view(old(issues)@)
            + pattern_ref_diags(g.token_map(), ctx@),
{
    let ghost d0 = diagnostic::diags_view(issues@);
    let ghost defs = g.token_map();
    let ghost names = refs::pattern_refs(ctx@.pattern);
    let ghost each = |i: int| pattern_ref_diag(names[i], defs, ctx@);
    let mut list: Vec<String> = Vec::new();
    refs::collect_pattern_refs(&ctx.pattern, &mut list);
    assert(names::list_view(list@) =~= names);
    let mut i: usize = 0;
    assert(d0 =~= d0 + gathered(each, 0));
    while i < list.len()
        invariant
            i <= list@.len(),
            defs == g.token_map(),
            names == names::list_view(list@),
            each == (|i: int| pattern_ref_diag(names[i], defs, ctx@)),
            diagnostic::diags_view(issues@) == d0 + gathered(each, i as nat),
        decreases list@.len() - i,
    {
        let n = list[i].as_str();
        assert(names[i as int] == n@);
        if g.token(n).is_none() {
            let mut m = "undefined token `".to_owned();
            m.append(n);
            m.append("` in token `");
            m.append(ctx.name.as_str());
            m.append("`");
            diagnostic::report(issues, Diagnostic::error(m).at(ctx.span));
        }
        assert(each(i as int) == pattern_ref_diag(n@, defs, ctx@));
        assert(diagnostic::diags_view(issues@) =~= d0 + gathered(each, (i + 1) as nat));
        i += 1;
    }
}

/// What is reported of a reference back to `name`, reached through `stack`.
pub open spec fn cycle_diag(
    defs: Seq<(Seq<char>, TokenView)>,
    name: Seq<char>,
    stack: Seq<Seq<char>>,
) -> Seq<DiagnosticView> {
    match ir::lookup(defs, name) {
        None => Seq::empty(),
        Some(t) => seq![
            diagnostic::error_at(
                "token reference cycle: "@ + text::joined(from_first(stack, name), " -> "@)
                    + " -> "@ + name,
                t.span,
            ),
        ],
    }
}

/// The list from the first occurrence of `name` on.
pub open spec fn from_first(list: Seq<Seq<char>>, name: Seq<char>) -> Seq<Seq<char>>
    decreases list.len(),
{
    if list.len() == 0 || list[0] == name {
        list
    } else {
        from_first(list.skip(1), name)
    }
}

/// What a visit of the token `name` through the tokens of `stack` reports, and
/// the tokens seen after it, where `seen` were seen before. A token is gone
/// into once. No path through distinct tokens is longer than their number,
/// which bounds the depth.
pub open spec fn visit(
    defs: Seq<(Seq<char>, TokenView)>,
    name: Seq<char>,
    stack: Seq<Seq<char>>,
    seen: Set<Seq<char>>,
    depth: nat,
) -> (Set<Seq<char>>, Seq<DiagnosticView>)
    decreases depth, 0nat,
{
    if stack.contains(name) {
        (seen, cycle_diag(defs, name, stack))
    } else if seen.contains(name) || depth == 0 {
        (seen, Seq::empty())
    } else {
        match ir::lookup(defs, name) {
            None => (seen.insert(name), Seq::empty()),
            Some(t) => {
                let names = refs::pattern_refs(t.pattern);
                visit_all(
                    defs,
                    names,
                    stack.push(name),
                    seen.insert(name),
                    (depth - 1) as nat,
                    names.len(),
                )
            },
        }
    }
}

/// The same for the first `n` of the names, one after the other.
pub open spec fn visit_all(
    defs: Seq<(Seq<char>, TokenView)>,
    names: Seq<Seq<char>>,
    stack: Seq<Seq<char>>,
    seen: Set<Seq<char>>,
    depth: nat,
    n: nat,
) -> (Set<Seq<char>>, Seq<DiagnosticView>)
    decreases depth, n + 1,
{
    if n == 0 {
        (seen, Seq::empty())
    } else {
        let (s1, d1) = visit_all(defs, names, stack, seen, depth, (n - 1) as nat);
        let (s2, d2) = visit(defs, names[n - 1], stack, s1, depth);
        (s2, d1 + d2)
    }
}

/// What the search for cycles reports.
pub open spec fn cycle_diags(defs: Seq<(Seq<char>, TokenView)>) -> Seq<DiagnosticView> {
    visit_all(
        defs,
        Seq::new(defs.len(), |i: int| defs[i].1.name),
        Seq::empty(),
        Set::empty(),
        defs.len(),
        defs.len(),
    ).1
}

/// The list from the first occurrence of `name` on.
fn skip_to(list: &Vec<String>, name: &str) -> (r: Vec<String>)
    ensures
        names::list_view(r@) == from_first(names::list_view(list@), name@),
{
    let ghost all = names::list_view(list@);
    let mut i: usize = 0;
    assert(all.skip(0) =~= all);
    while i < list.len() && names::rank_str(list[i].as_str(), name) != Rank::Same
        invariant
            i <= list@.len(),
            all == names::list_view(list@),
            from_first(all, name@) == from_first(all.skip(i as int), name@),
        decreases list@.len() - i,
    {
        proof {
            let rest = all.skip(i as int);
            assert(rest[0] == list@[i as int]@);
            assert(rest.skip(1) =~= all.skip(i + 1));
        }
        i += 1;
    }
    proof {
        let rest = all.skip(i as int);
        if i < list@.len() {
            assert(rest[0] == list@[i as int]@);
        }
        assert(from_first(all, name@) == rest);
    }
    let mut r: Vec<String> = Vec::new();
    let ghost from = i as int;
    let mut j: usize = i;
    while j < list.len()
        invariant
            0 <= from <= j <= list@.len(),
            all == names::list_view(list@),
            names::list_view(r@) == all.subrange(from, j as int),
        decreases list@.len() - j,
    {
        let ghost before = names::list_view(r@);
        r.push(list[j].clone());
        proof {
            assert(names::list_view(r@) =~= before.push(all[j as int]));
            assert(all.subrange(from, j + 1) =~= all.subrange(from, j as int).push(all[j as int]));
        }
        j += 1;
    }
    assert(all.subrange(from, j as int) =~= all.skip(from));
    r
}

fn visit_token(
    g: &Grammar,
    name: &str,
    stack: &mut Vec<String>,
    seen: &mut NameSet,
    depth: usize,
    issues: &mut Vec<Diagnostic>,
)
    requires
        old(seen).wf(),
    ensures
        final(seen).wf(),
        names::list_view(final(stack)@) == names::list_view(old(stack)@),
        final(seen)@ == visit(
            g.token_map(),
            name@,
            names::list_view(old(stack)@),
            old(seen)@,
            depth as nat,
        ).0,
        diagnostic::diags_view(final(issues)@) == diagnostic::diags_view(old(issues)@) + visit(
            g.token_map(),
            name@,
            names::list_view(old(stack)@),
            old(seen)@,
            depth as nat,
        ).1,
    decreases depth, 0nat,
{
    let ghost defs = g.token_map();
    let ghost st = names::list_view(stack@);
    let ghost s0 = seen@;
    let ghost d0 = diagnostic::diags_view(issues@);
    if ir::contains_name(stack, name) {
        match g.token(name) {
            Some(td) => {
                let path = skip_to(stack, name);
                let mut m = "token reference cycle: ".to_owned();
                m.append(text::join(&path, " -> ").as_str());
                m.append(" -> ");
                m.append(name);
                diagnostic::report(issues, Diagnostic::error(m).at(td.span));
            },
            None => {},
        }
        assert(diagnostic::diags_view(issues@) =~= d0 + visit(
            defs,
            name@,
            st,
            s0,
            depth as nat,
        ).1);
        return;
    }
    if seen.contains(name) || depth == 0 {
        assert(d0 =~= d0 + Seq::<DiagnosticView>::empty());
        return;
    }
    seen.insert(name);
    match g.token(name) {
        Some(td) => {
            let mut list: Vec<String> = Vec::new();
            refs::collect_pattern_refs(&td.pattern, &mut list);
            let ghost rv = refs::pattern_refs(td@.pattern);
            assert(names::list_view(list@) =~= rv);
            stack.push(name.to_owned());
            let ghost st1 = names::list_view(stack@);
            let ghost before = stack@;
            assert(st1 =~= st.push(name@));
            visit_list(g, &list, stack, seen, depth - 1, issues);
            proof {
                assert(names::list_view(stack@) == st1);
                assert(stack@.len() == st1.len());
            }
            stack.pop();
            proof {
                assert(names::list_view(stack@) =~= st1.drop_last());
                assert(st1.drop_last() =~= st);
            }
        },
        None => {
            assert(d0 =~= d0 + Seq::<DiagnosticView>::empty());
        },
    }
}

fn visit_list(
    g: &Grammar,
    list: &Vec<String>,
    stack: &mut Vec<String>,
    seen: &mut NameSet,
    depth: usize,
    issues: &mut Vec<Diagnostic>,
)
    requires
        old(seen).wf(),
    ensures
        final(seen).wf(),
        names::list_view(final(stack)@) == names::list_view(old(stack)@),
        final(seen)@ == visit_all(
            g.token_map(),
            names::list_view(list@),
            names::list_view(old(stack)@),
            old(seen)@,
            depth as nat,
            list@.len(),
        ).0,
        diagnostic::diags_view(final(issues)@) == diagnostic::diags_view(old(issues)@)
            + visit_all(
            g.token_map(),
            names::list_view(list@),
            names::list_view(old(stack)@),
            old(seen)@,
            depth as nat,
            list@.len(),
        ).1,
    decreases depth, 1nat,
{
    let ghost defs = g.token_map();
    let ghost lv = names::list_view(list@);
    let ghost st = names::list_view(stack@);
    let ghost s0 = seen@;
    let ghost d0 = diagnostic::diags_view(issues@);
    let mut i: usize = 0;
    assert(d0 =~= d0 + visit_all(defs, lv, st, s0, depth as nat, 0).1);
    while i < list.len()
        invariant
            i <= list@.len(),
            seen.wf(),
            defs == g.token_map(),
            lv == names::list_view(list@),
            names::list_view(stack@) == st,
            seen@ == visit_all(defs, lv, st, s0, depth as nat, i as nat).0,
            diagnostic::diags_view(issues@) == d0 + visit_all(
                defs,
                lv,
                st,
                s0,
                depth as nat,
                i as nat,
            ).1,
        decreases list@.len() - i,
    {
        visit_token(g, list[i].as_str(), stack, seen, depth, issues);
        proof {
            assert(lv[i as int] == list@[i as int]@);
            let (s1, d1) = visit_all(defs, lv, st, s0, depth as nat, i as nat);
            let (s2, d2) = visit(defs, lv[i as int], st, s1, depth as nat);
            assert(visit_all(defs, lv, st, s0, depth as nat, (i + 1) as nat) == (s2, d1 + d2));
            assert(d0 + d1 + d2 =~= d0 + (d1 + d2));
        }
        i += 1;
    }
}

fn detect_token_cycles(g: &Grammar, issues: &mut Vec<Diagnostic>)
    ensures
        diagnostic::diags_view(final(issues)@) == diagnostic::diags_view(old(issues)@)
            + cycle_diags(g.token_map()),
{
    let tokens = g.token_values();
    let ghost defs = g.token_map();
    let mut list: Vec<String> = Vec::new();
    let mut i: usize = 0;
    while i < tokens.len()
        invariant
            i <= tokens@.len(),
            tokens@.len() == defs.len(),
            forall|k: int| 0 <= k < tokens@.len() ==> (#[trigger] tokens@[k])@ == defs[k].1,
            list@.len() == i,
            forall|k: int| 0 <= k < i ==> (#[trigger] list@[k])@ == defs[k].1.name,
        decreases tokens@.len() - i,
    {
        assert(tokens@[i as int]@ == defs[i as int].1);
        list.push(tokens[i].name.clone());
        i += 1;
    }
    assert(names::list_view(list@) =~= Seq::new(defs.len(), |i: int| defs[i].1.name));
    let mut stack: Vec<String> = Vec::new();
    let mut seen = NameSet::new();
    assert(names::list_view(stack@) =~= Seq::<Seq<char>>::empty());
    visit_list(g, &list, &mut stack, &mut seen, tokens.len(), issues);
}

/// What is reported of a rule that can begin with itself.
pub open spec fn left_recursion_diag(rules: Seq<RuleView>, r: RuleView) -> Seq<DiagnosticView> {
    when(
        left_recursion::left_recursive(rules, r),
        diagnostic::error_at(
            "rule `"@ + r.name
                + "` is left-recursive; parsuna is LL and does not accept left recursion, rewrite using `*` or `+` repetition"@,
            r.span,
        ),
    )
}

/// Every rule is a fragment.
pub open spec fn only_fragments(rules: Seq<RuleView>) -> bool {
    forall|i: int| 0 <= i < rules.len() ==> (#[trigger] rules[i]).is_fragment
}

/// What the validators report of a grammar.
pub open spec fn validate_diags(g: Grammar) -> Seq<DiagnosticView> {
    let tokens = g.token_list();
    let rules = g.rule_list();
    gathered(|i: int| reserved_diag(tokens[i]), tokens.len()) + gathered(
        |i: int| when(
            repeats_token(tokens, i),
            diagnostic::error_at("duplicate token: "@ + tokens[i].name, tokens[i].span),
        ),
        tokens.len(),
    ) + gathered(
        |i: int| when(
            repeats_rule(rules, i),
            diagnostic::error_at("duplicate rule: "@ + rules[i].name, rules[i].span),
        ),
        rules.len(),
    ) + gathered(
        |i: int| expr_ref_diags(rules[i].body, g.token_map(), g.rule_map(), rules[i]),
        rules.len(),
    ) + gathered(|i: int| pattern_ref_diags(g.token_map(), tokens[i]), tokens.len())
        + cycle_diags(g.token_map()) + gathered(
        |i: int| left_recursion_diag(rules, rules[i]),
        rules.len(),
    ) + when(
        only_fragments(rules),
        diagnostic::error_view(
            "grammar contains no non-fragment rules; nothing would be emitted"@,
        ),
    )
}

fn check_reserved(
    tokens: &Vec<&TokenDef>,
    issues: &mut Vec<Diagnostic>,
    Ghost(tv): Ghost<Seq<TokenView>>,
)
    requires
        tokens@.len() == tv.len(),
        forall|k: int| 0 <= k < tv.len() ==> (#[trigger] tokens@[k])@ == tv[k],
    ensures
        diagnostic::diags_view(final(issues)@) == diagnostic::diags_view(old(issues)@) + gathered(
            |i: int| reserved_diag(tv[i]),
            tv.len(),
        ),
{
    let ghost each = |i: int| reserved_diag(tv[i]);
    let ghost d0 = diagnostic::diags_view(issues@);
    let mut i: usize = 0;
    assert(d0 =~= d0 + gathered(each, 0));
    while i < tokens.len()
        invariant
            i <= tokens@.len(),
            tokens@.len() == tv.len(),
            forall|k: int| 0 <= k < tv.len() ==> (#[trigger] tokens@[k])@ == tv[k],
            each == (|i: int| reserved_diag(tv[i])),
            diagnostic::diags_view(issues@) == d0 + gathered(each, i as nat),
        decreases tokens@.len() - i,
    {
        let t = tokens[i];
        assert(t@ == tv[i as int]);
        if is_reserved_token_name(t.name.as_str()) {
            let mut m = "token name `".to_owned();
            m.append(t.name.as_str());
            m.append("` is reserved (EOF and ERROR are emitted by the runtime)");
            diagnostic::report(issues, Diagnostic::error(m).at(t.span));
        }
        assert(each(i as int) == reserved_diag(t@));
        assert(diagnostic::diags_view(issues@) =~= d0 + gathered(each, (i + 1) as nat));
        i += 1;
    }
}

fn check_duplicate_tokens(
    tokens: &Vec<&TokenDef>,
    issues: &mut Vec<Diagnostic>,
    Ghost(tv): Ghost<Seq<TokenView>>,
)
    requires
        tokens@.len() == tv.len(),
        forall|k: int| 0 <= k < tv.len() ==> (#[trigger] tokens@[k])@ == tv[k],
    ensures
        diagnostic::diags_view(final(issues)@) == diagnostic::diags_view(old(issues)@) + gathered(
            |i: int| when(
                repeats_token(tv, i),
                diagnostic::error_at("duplicate token: "@ + tv[i].name, tv[i].span),
            ),
            tv.len(),
        ),
{
    let ghost each = |i: int| when(
        repeats_token(tv, i),
        diagnostic::error_at("duplicate token: "@ + tv[i].name, tv[i].span),
    );
    let ghost d0 = diagnostic::diags_view(issues@);
    let mut seen = NameSet::new();
    let mut i: usize = 0;
    assert(d0 =~= d0 + gathered(each, 0));
    while i < tokens.len()
        invariant
            i <= tokens@.len(),
            tokens@.len() == tv.len(),
            forall|k: int| 0 <= k < tv.len() ==> (#[trigger] tokens@[k])@ == tv[k],
            seen.wf(),
            forall|n: Seq<char>| #[trigger]
                seen@.contains(n) <==> exists|j: int| 0 <= j < i && (#[trigger] tv[j]).name == n,
            each == (|i: int| when(
                repeats_token(tv, i),
                diagnostic::error_at("duplicate token: "@ + tv[i].name, tv[i].span),
            )),
            diagnostic::diags_view(issues@) == d0 + gathered(each, i as nat),
        decreases tokens@.len() - i,
    {
        let t = tokens[i];
        assert(t@ == tv[i as int]);
        let ghost before = seen@;
        let fresh = seen.insert(t.name.as_str());
        if !fresh {
            let mut m = "duplicate token: ".to_owned();
            m.append(t.name.as_str());
            diagnostic::report(issues, Diagnostic::error(m).at(t.span));
        }
        proof {
            assert(before.contains(t.name@) <==> repeats_token(tv, i as int));
            assert(each(i as int) == when(
                repeats_token(tv, i as int),
                diagnostic::error_at("duplicate token: "@ + t@.name, t@.span),
            ));
            assert(diagnostic::diags_view(issues@) =~= d0 + gathered(each, (i + 1) as nat));
            assert forall|n: Seq<char>| #[trigger] seen@.contains(n) <==> exists|j: int|
                0 <= j < i + 1 && (#[trigger] tv[j]).name == n by {
                assert(before.contains(n) <==> exists|j: int|
                    0 <= j < i && (#[trigger] tv[j]).name == n);
                if n == t.name@ {
                    assert(tv[i as int].name == n);
                }
            }
        }
        i += 1;
    }
}

fn check_duplicate_rules(
    rule_list: &Vec<&RuleDef>,
    issues: &mut Vec<Diagnostic>,
    Ghost(rv): Ghost<Seq<RuleView>>,
)
    requires
        rule_list@.len() == rv.len(),
        forall|k: int| 0 <= k < rv.len() ==> (#[trigger] rule_list@[k])@ == rv[k],
    ensures
        diagnostic::diags_view(final(issues)@) == diagnostic::diags_view(old(issues)@) + gathered(
            |i: int| when(
                repeats_rule(rv, i),
                diagnostic::error_at("duplicate rule: "@ + rv[i].name, rv[i].span),
            ),
            rv.len(),
        ),
{
    let ghost each = |i: int| when(
        repeats_rule(rv, i),
        diagnostic::error_at("duplicate rule: "@ + rv[i].name, rv[i].span),
    );
    let ghost d0 = diagnostic::diags_view(issues@);
    let mut seen = NameSet::new();
    let mut i: usize = 0;
    assert(d0 =~= d0 + gathered(each, 0));
    while i < rule_list.len()
        invariant
            i <= rule_list@.len(),
            rule_list@.len() == rv.len(),
            forall|k: int| 0 <= k < rv.len() ==> (#[trigger] rule_list@[k])@ == rv[k],
            seen.wf(),
            forall|n: Seq<char>| #[trigger]
                seen@.contains(n) <==> exists|j: int| 0 <= j < i && (#[trigger] rv[j]).name == n,
            each == (|i: int| when(
                repeats_rule(rv, i),
                diagnostic::error_at("duplicate rule: "@ + rv[i].name, rv[i].span),
            )),
            diagnostic::diags_view(issues@) == d0 + gathered(each, i as nat),
        decreases rule_list@.len() - i,
    {
        let r = rule_list[i];
        assert(r@ == rv[i as int]);
        let ghost before = seen@;
        let fresh = seen.insert(r.name.as_str());
        if !fresh {
            let mut m = "duplicate rule: ".to_owned();
            m.append(r.name.as_str());
            diagnostic::report(issues, Diagnostic::error(m).at(r.span));
        }
        proof {
            assert(before.contains(r.name@) <==> repeats_rule(rv, i as int));
            assert(each(i as int) == when(
                repeats_rule(rv, i as int),
                diagnostic::error_at("duplicate rule: "@ + r@.name, r@.span),
            ));
            assert(diagnostic::diags_view(issues@) =~= d0 + gathered(each, (i + 1) as nat));
            assert forall|n: Seq<char>| #[trigger] seen@.contains(n) <==> exists|j: int|
                0 <= j < i + 1 && (#[trigger] rv[j]).name == n by {
                assert(before.contains(n) <==> exists|j: int|
                    0 <= j < i && (#[trigger] rv[j]).name == n);
                if n == r.name@ {
                    assert(rv[i as int].name == n);
                }
            }
        }
        i += 1;
    }
}

fn check_bodies(g: &Grammar, issues: &mut Vec<Diagnostic>)
    ensures
        diagnostic::diags_view(final(issues)@) == diagnostic::diags_view(old(issues)@) + gathered(
            |i: int|
                expr_ref_diags(
                    g.rule_list()[i].body,
                    g.token_map(),
                    g.rule_map(),
                    g.rule_list()[i],
                ),
            g.rule_list().len(),
        ),
{
    let rule_list = g.rule_values();
    let ghost rv = g.rule_list();
    let ghost each = |i: int|
        expr_ref_diags(
            g.rule_list()[i].body,
            g.token_map(),
            g.rule_map(),
            g.rule_list()[i],
        );
    let ghost d0 = diagnostic::diags_view(issues@);
    let mut i: usize = 0;
    assert(d0 =~= d0 + gathered(each, 0));
    while i < rule_list.len()
        invariant
            i <= rule_list@.len(),
            rv == g.rule_list(),
            rule_list@.len() == rv.len(),
            forall|k: int| 0 <= k < rv.len() ==> (#[trigger] rule_list@[k])@ == rv[k],
            each == (|i: int|
                expr_ref_diags(
                    g.rule_list()[i].body,
                    g.token_map(),
                    g.rule_map(),
                    g.rule_list()[i],
                )),
            diagnostic::diags_view(issues@) == d0 + gathered(each, i as nat),
        decreases rule_list@.len() - i,
    {
        let r = rule_list[i];
        assert(r@ == rv[i as int]);
        check_expr_refs(&r.body, g, issues, r);
        assert(each(i as int) == expr_ref_diags(r@.body, g.token_map(), g.rule_map(), r@));
        assert(diagnostic::diags_view(issues@) =~= d0 + gathered(each, (i + 1) as nat));
        i += 1;
    }
}

fn check_patterns(g: &Grammar, issues: &mut Vec<Diagnostic>)
    ensures
        diagnostic::diags_view(final(issues)@) == diagnostic::diags_view(old(issues)@) + gathered(
            |i: int| pattern_ref_diags(g.token_map(), g.token_list()[i]),
            g.token_list().len(),
        ),
{
    let tokens = g.token_values();
    let ghost tv = g.token_list();
    let ghost each = |i: int| pattern_ref_diags(g.token_map(), g.token_list()[i]);
    let ghost d0 = diagnostic::diags_view(issues@);
    let mut i: usize = 0;
    assert(d0 =~= d0 + gathered(each, 0));
    while i < tokens.len()
        invariant
            i <= tokens@.len(),
            tv == g.token_list(),
            tokens@.len() == tv.len(),
            forall|k: int| 0 <= k < tv.len() ==> (#[trigger] tokens@[k])@ == tv[k],
            each == (|i: int| pattern_ref_diags(g.token_map(), g.token_list()[i])),
            diagnostic::diags_view(issues@) == d0 + gathered(each, i as nat),
        decreases tokens@.len() - i,
    {
        let t = tokens[i];
        assert(t@ == tv[i as int]);
        check_pattern_refs(g, issues, t);
        assert(each(i as int) == pattern_ref_diags(g.token_map(), t@));
        assert(diagnostic::diags_view(issues@) =~= d0 + gathered(each, (i + 1) as nat));
        i += 1;
    }
}

fn check_left_recursion(
    rule_list: &Vec<&RuleDef>,
    issues: &mut Vec<Diagnostic>,
    Ghost(rv): Ghost<Seq<RuleView>>,
)
    requires
        rule_list@.len() == rv.len(),
        forall|k: int| 0 <= k < rv.len() ==> (#[trigger] rule_list@[k])@ == rv[k],
    ensures
        diagnostic::diags_view(final(issues)@) == diagnostic::diags_view(old(issues)@) + gathered(
            |i: int| left_recursion_diag(rv, rv[i]),
            rv.len(),
        ),
{
    let ghost each = |i: int| left_recursion_diag(rv, rv[i]);
    let ghost d0 = diagnostic::diags_view(issues@);
    let empties = left_recursion::empties_of(rule_list, Ghost(rv));
    let mut i: usize = 0;
    assert(d0 =~= d0 + gathered(each, 0));
    while i < rule_list.len()
        invariant
            i <= rule_list@.len(),
            rule_list@.len() == rv.len(),
            forall|k: int| 0 <= k < rv.len() ==> (#[trigger] rule_list@[k])@ == rv[k],
            empties.wf(),
            empties@ == left_recursion::empty_rules(rv),
            each == (|i: int| left_recursion_diag(rv, rv[i])),
            diagnostic::diags_view(issues@) == d0 + gathered(each, i as nat),
        decreases rule_list@.len() - i,
    {
        let r = rule_list[i];
        assert(r@ == rv[i as int]);
        let leads = left_recursion::first_rules_of(r, rule_list, &empties, Ghost(rv));
        if leads.contains(r.name.as_str()) {
            let mut m = "rule `".to_owned();
            m.append(r.name.as_str());
            m.append(
                "` is left-recursive; parsuna is LL and does not accept left recursion, rewrite using `*` or `+` repetition",
            );
            diagnostic::report(issues, Diagnostic::error(m).at(r.span));
        }
        assert(each(i as int) == left_recursion_diag(rv, r@));
        assert(diagnostic::diags_view(issues@) =~= d0 + gathered(each, (i + 1) as nat));
        i += 1;
    }
}

fn all_fragments(rule_list: &Vec<&RuleDef>, Ghost(rv): Ghost<Seq<RuleView>>) -> (r: bool)
    requires
        rule_list@.len() == rv.len(),
        forall|k: int| 0 <= k < rv.len() ==> (#[trigger] rule_list@[k])@ == rv[k],
    ensures
        r == only_fragments(rv),
{
    let mut i: usize = 0;
    while i < rule_list.len()
        invariant
            i <= rule_list@.len(),
            rule_list@.len() == rv.len(),
            forall|k: int| 0 <= k < rv.len() ==> (#[trigger] rule_list@[k])@ == rv[k],
            forall|k: int| 0 <= k < i ==> (#[trigger] rv[k]).is_fragment,
        decreases rule_list@.len() - i,
    {
        assert(rule_list@[i as int]@ == rv[i as int]);
        if !rule_list[i].is_fragment {
            return false;
        }
        i += 1;
    }
    true
}

/// Run every validator against `g`, accumulating issues into `issues`.
pub fn run(g: &Grammar, issues: &mut Vec<Diagnostic>)
    ensures
        diagnostic::diags_view(final(issues)@) == diagnostic::diags_view(old(issues)@)
            + validate_diags(*g),
{
    let ghost d0 = diagnostic::diags_view(issues@);
    let tokens = g.token_values();
    let rule_list = g.rule_values();
    let ghost tv = g.token_list();
    let ghost rv = g.rule_list();
    check_reserved(&tokens, issues, Ghost(tv));
    check_duplicate_tokens(&tokens, issues, Ghost(tv));
    check_duplicate_rules(&rule_list, issues, Ghost(rv));
    check_bodies(g, issues);
    check_patterns(g, issues);
    detect_token_cycles(g, issues);
    check_left_recursion(&rule_list, issues, Ghost(rv));
    let ghost d1 = diagnostic::diags_view(issues@);
    if all_fragments(&rule_list, Ghost(rv)) {
        diagnostic::report(
            issues,
            Diagnostic::error(
                "grammar contains no non-fragment rules; nothing would be emitted".to_owned(),
            ),
        );
    }
    proof {
        let last = when(
            only_fragments(rv),
            diagnostic::error_view(
                "grammar contains no non-fragment rules; nothing would be emitted"@,
            ),
        );
        assert(diagnostic::diags_view(issues@) =~= d1 + last);
        assert(diagnostic::diags_view(issues@) =~= d0 + validate_diags(*g));
    }
}

/// No token refers back to itself: the tokens that it refers to have smaller
/// ranks.
pub open spec fn ranked(defs: Seq<(Seq<char>, TokenView)>, rank: Map<Seq<char>, nat>) -> bool {
    forall|i: int|
        0 <= i < defs.len() ==> rank.contains_key((#[trigger] defs[i]).0) && rank[defs[i].0]
            < defs.len() && forall|n: Seq<char>|
            #![trigger ir::lookup(defs, n)]
            refs::pattern_refs(defs[i].1.pattern).contains(n) && ir::lookup(defs, n) is Some
                ==> rank.contains_key(n) && rank[n] < rank[defs[i].0]
}

/// Tokens are entered once, and under their own names.
pub open spec fn well_named(defs: Seq<(Seq<char>, TokenView)>) -> bool {
    &&& forall|i: int| 0 <= i < defs.len() ==> (#[trigger] defs[i]).0 == defs[i].1.name
    &&& forall|i: int, j: int|
        0 <= i < j < defs.len() ==> (#[trigger] defs[i]).0 != (#[trigger] defs[j]).0
}

/// The tokens seen and left again have ranks, and so do those that they refer
/// to, smaller ones.
spec fn finished(
    defs: Seq<(Seq<char>, TokenView)>,
    seen: Set<Seq<char>>,
    stack: Seq<Seq<char>>,
    rank: Map<Seq<char>, nat>,
) -> bool {
    &&& rank.dom().finite()
    &&& forall|n: Seq<char>| #[trigger]
        rank.contains_key(n) <==> seen.contains(n) && !stack.contains(n) && ir::lookup(
            defs,
            n,
        ) is Some
    &&& forall|n: Seq<char>| #[trigger]
        rank.contains_key(n) ==> rank[n] < rank.dom().len() && refs_below(defs, n, rank)
}

/// What the token refers to has smaller ranks.
spec fn refs_below(
    defs: Seq<(Seq<char>, TokenView)>,
    n: Seq<char>,
    rank: Map<Seq<char>, nat>,
) -> bool {
    forall|m: Seq<char>|
        refs::pattern_refs(ir::lookup(defs, n)->0.pattern).contains(m) && ir::lookup(
            defs,
            m,
        ) is Some ==> #[trigger] rank.contains_key(m) && rank[m] < rank[n]
}

/// The tokens gone into are distinct defined tokens that were seen.
spec fn going(
    defs: Seq<(Seq<char>, TokenView)>,
    seen: Set<Seq<char>>,
    stack: Seq<Seq<char>>,
) -> bool {
    &&& stack.no_duplicates()
    &&& forall|i: int|
        0 <= i < stack.len() ==> seen.contains(#[trigger] stack[i]) && ir::lookup(
            defs,
            stack[i],
        ) is Some
}

spec fn key_set(defs: Seq<(Seq<char>, TokenView)>) -> Set<Seq<char>> {
    Seq::new(defs.len(), |i: int| defs[i].0).to_set()
}

proof fn lemma_key_set(defs: Seq<(Seq<char>, TokenView)>)
    ensures
        key_set(defs).finite(),
        key_set(defs).len() <= defs.len(),
        forall|n: Seq<char>| #[trigger] ir::lookup(defs, n) is Some ==> key_set(defs).contains(n),
{
    let keys = Seq::new(defs.len(), |i: int| defs[i].0);
    vstd::seq_lib::seq_to_set_is_finite(keys);
    keys.lemma_cardinality_of_set();
    assert forall|n: Seq<char>| #[trigger] ir::lookup(defs, n) is Some implies key_set(
        defs,
    ).contains(n) by {
        let p = ir::position(defs, n);
        ir::lemma_position(defs, n);
        assert(keys[p] == n);
        assert(keys.contains(n));
    }
}

/// As many distinct defined tokens as there are tokens are all of them.
proof fn lemma_stack_full(
    defs: Seq<(Seq<char>, TokenView)>,
    seen: Set<Seq<char>>,
    stack: Seq<Seq<char>>,
    n: Seq<char>,
)
    requires
        going(defs, seen, stack),
        stack.len() >= defs.len(),
        ir::lookup(defs, n) is Some,
    ensures
        stack.contains(n),
{
    lemma_key_set(defs);
    stack.unique_seq_to_set();
    vstd::seq_lib::seq_to_set_is_finite(stack);
    assert forall|m: Seq<char>| stack.to_set().contains(m) implies key_set(defs).contains(m) by {
        let i = choose|i: int| 0 <= i < stack.len() && stack[i] == m;
        assert(ir::lookup(defs, stack[i]) is Some);
    }
    vstd::set_lib::lemma_len_subset(stack.to_set(), key_set(defs));
    vstd::set_lib::lemma_subset_equality(stack.to_set(), key_set(defs));
    assert(key_set(defs).contains(n));
    assert(stack.to_set().contains(n));
}

proof fn lemma_visit_ranks(
    defs: Seq<(Seq<char>, TokenView)>,
    name: Seq<char>,
    stack: Seq<Seq<char>>,
    seen: Set<Seq<char>>,
    depth: nat,
    rank: Map<Seq<char>, nat>,
) -> (r: Map<Seq<char>, nat>)
    requires
        going(defs, seen, stack),
        finished(defs, seen, stack, rank),
        depth + stack.len() >= defs.len(),
        visit(defs, name, stack, seen, depth).1.len() == 0,
    ensures
        finished(defs, visit(defs, name, stack, seen, depth).0, stack, r),
        seen.subset_of(visit(defs, name, stack, seen, depth).0),
        ir::lookup(defs, name) is Some ==> r.contains_key(name),
    decreases depth, 0nat,
{
    if stack.contains(name) {
        let i = choose|i: int| 0 <= i < stack.len() && stack[i] == name;
        assert(ir::lookup(defs, stack[i]) is Some);
        rank
    } else if seen.contains(name) {
        rank
    } else if depth == 0 {
        if ir::lookup(defs, name) is Some {
            lemma_stack_full(defs, seen, stack, name);
        }
        rank
    } else {
        let seen1 = seen.insert(name);
        match ir::lookup(defs, name) {
            None => {
                rank
            },
            Some(t) => {
                let names = refs::pattern_refs(t.pattern);
                let st1 = stack.push(name);
                assert(going(defs, seen1, st1)) by {
                    assert forall|i: int, j: int|
                        0 <= i < st1.len() && 0 <= j < st1.len() && i != j implies st1[i]
                        != st1[j] by {
                        if i == stack.len() {
                            assert(stack.contains(stack[j]));
                        }
                        if j == stack.len() {
                            assert(stack.contains(stack[i]));
                        }
                    }
                }
                assert(finished(defs, seen1, st1, rank)) by {
                    assert forall|n: Seq<char>| #[trigger]
                        rank.contains_key(n) <==> seen1.contains(n) && !st1.contains(n)
                            && ir::lookup(defs, n) is Some by {
                        lemma_push_has(stack, name, n);
                    }
                }
                let r1 = lemma_visit_all_ranks(
                    defs,
                    names,
                    st1,
                    seen1,
                    (depth - 1) as nat,
                    names.len(),
                    rank,
                );
                let seen2 = visit(defs, name, stack, seen, depth).0;
                let r2 = r1.insert(name, r1.dom().len());
                lemma_push_has(stack, name, name);
                assert(!r1.contains_key(name));
                assert(r2.dom() =~= r1.dom().insert(name));
                assert forall|n: Seq<char>| #[trigger]
                    r2.contains_key(n) <==> seen2.contains(n) && !stack.contains(n) && ir::lookup(
                        defs,
                        n,
                    ) is Some by {
                    lemma_push_has(stack, name, n);
                    assert(r1.contains_key(n) <==> seen2.contains(n) && !st1.contains(n)
                        && ir::lookup(defs, n) is Some);
                }
                assert forall|n: Seq<char>| #[trigger] r2.contains_key(n) implies r2[n]
                    < r2.dom().len() && refs_below(defs, n, r2) by {
                    if n == name {
                        assert forall|m: Seq<char>|
                            refs::pattern_refs(ir::lookup(defs, n)->0.pattern).contains(m)
                                && ir::lookup(
                                defs,
                                m,
                            ) is Some implies #[trigger] r2.contains_key(m) && r2[m] < r2[n] by {
                            let i = choose|i: int| 0 <= i < names.len() && names[i] == m;
                            assert(r1.contains_key(names[i]));
                        }
                    } else {
                        assert(r1.contains_key(n));
                        assert(refs_below(defs, n, r1));
                        assert forall|m: Seq<char>|
                            refs::pattern_refs(ir::lookup(defs, n)->0.pattern).contains(m)
                                && ir::lookup(
                                defs,
                                m,
                            ) is Some implies #[trigger] r2.contains_key(m) && r2[m] < r2[n] by {
                            assert(r1.contains_key(m));
                        }
                    }
                }
                r2
            },
        }
    }
}

pub proof fn lemma_push_has(s: Seq<Seq<char>>, x: Seq<char>, y: Seq<char>)
    ensures
        s.push(x).contains(y) <==> s.contains(y) || y == x,
{
    let t = s.push(x);
    if s.contains(y) {
        let i = choose|i: int| 0 <= i < s.len() && s[i] == y;
        assert(t[i] == y);
    }
    if y == x {
        assert(t[s.len() as int] == y);
    }
    if t.contains(y) {
        let i = choose|i: int| 0 <= i < t.len() && t[i] == y;
        if i < s.len() {
            assert(s[i] == y);
        }
    }
}

proof fn lemma_visit_all_ranks(
    defs: Seq<(Seq<char>, TokenView)>,
    names: Seq<Seq<char>>,
    stack: Seq<Seq<char>>,
    seen: Set<Seq<char>>,
    depth: nat,
    n: nat,
    rank: Map<Seq<char>, nat>,
) -> (r: Map<Seq<char>, nat>)
    requires
        n <= names.len(),
        going(defs, seen, stack),
        finished(defs, seen, stack, rank),
        depth + stack.len() >= defs.len(),
        visit_all(defs, names, stack, seen, depth, n).1.len() == 0,
    ensures
        finished(defs, visit_all(defs, names, stack, seen, depth, n).0, stack, r),
        seen.subset_of(visit_all(defs, names, stack, seen, depth, n).0),
        forall|i: int|
            0 <= i < n && ir::lookup(defs, #[trigger] names[i]) is Some ==> r.contains_key(
                names[i],
            ),
    decreases depth, n + 1,
{
    if n == 0 {
        rank
    } else {
        let (s1, d1) = visit_all(defs, names, stack, seen, depth, (n - 1) as nat);
        let (s2, d2) = visit(defs, names[n - 1], stack, s1, depth);
        assert((d1 + d2).len() == d1.len() + d2.len());
        let r1 = lemma_visit_all_ranks(defs, names, stack, seen, depth, (n - 1) as nat, rank);
        assert(going(defs, s1, stack));
        let r2 = lemma_visit_ranks(defs, names[n - 1], stack, s1, depth, r1);
        assert forall|i: int|
            0 <= i < n && ir::lookup(defs, #[trigger] names[i]) is Some implies r2.contains_key(
            names[i],
        ) by {
            if i < n - 1 {
                assert(r1.contains_key(names[i]));
                assert(s1.contains(names[i]) && s2.contains(names[i]));
            }
        }
        r2
    }
}

/// Where no cycle is reported there is none: every token has a rank above
/// those of the tokens that it refers to, and no rank is as large as the
/// number of tokens.
pub proof fn law_no_report_no_cycle(defs: Seq<(Seq<char>, TokenView)>) -> (rank: Map<
    Seq<char>,
    nat,
>)
    requires
        well_named(defs),
        cycle_diags(defs).len() == 0,
    ensures
        ranked(defs, rank),
{
    let names = Seq::new(defs.len(), |i: int| defs[i].1.name);
    let none = Map::<Seq<char>, nat>::empty();
    let seen = Set::<Seq<char>>::empty();
    let stack = Seq::<Seq<char>>::empty();
    assert(none.dom() =~= Set::empty());
    let rank = lemma_visit_all_ranks(defs, names, stack, seen, defs.len(), defs.len(), none);
    lemma_key_set(defs);
    assert(rank.dom().subset_of(key_set(defs))) by {
        assert forall|n: Seq<char>| rank.dom().contains(n) implies key_set(defs).contains(n) by {
            assert(rank.contains_key(n));
        }
    }
    vstd::set_lib::lemma_len_subset(rank.dom(), key_set(defs));
    assert forall|i: int| 0 <= i < defs.len() implies rank.contains_key((#[trigger] defs[i]).0)
        && rank[defs[i].0] < defs.len() && forall|n: Seq<char>|
        #![trigger ir::lookup(defs, n)]
        refs::pattern_refs(defs[i].1.pattern).contains(n) && ir::lookup(defs, n) is Some
            ==> rank.contains_key(n) && rank[n] < rank[defs[i].0] by {
        let key = defs[i].0;
        ir::lemma_position(defs, key);
        let p = ir::position(defs, key);
        assert(p == i) by {
            if p < i {
                assert(defs[p].0 != defs[i].0);
            }
            if p > i {
                assert(defs[i].0 != key);
            }
        }
        assert(ir::lookup(defs, key) == Some(defs[i].1));
        assert(names[i] == key);
        assert(rank.contains_key(names[i]));
        assert(refs_below(defs, key, rank));
        assert forall|n: Seq<char>|
            #![trigger ir::lookup(defs, n)]
            refs::pattern_refs(defs[i].1.pattern).contains(n) && ir::lookup(
                defs,
                n,
            ) is Some implies rank.contains_key(n) && rank[n] < rank[key] by {
            assert(rank.contains_key(n) || !rank.contains_key(n));
        }
    }
    rank
}

/// Each part of a list of patterns refers to no more than the list.
pub proof fn lemma_part_refs(xs: Seq<PatternView>, i: int, n: Seq<char>)
    requires
        0 <= i < xs.len(),
        refs::pattern_refs(xs[i]).contains(n),
    ensures
        refs::patterns_refs(xs).contains(n),
    decreases xs.len(),
{
    let a = refs::patterns_refs(xs.drop_last());
    let b = refs::pattern_refs(xs.last());
    if i == xs.len() - 1 {
        let j = choose|j: int| 0 <= j < b.len() && b[j] == n;
        assert((a + b)[a.len() + j] == n);
    } else {
        assert(xs.drop_last()[i] == xs[i]);
        lemma_part_refs(xs.drop_last(), i, n);
        let j = choose|j: int| 0 <= j < a.len() && a[j] == n;
        assert((a + b)[j] == n);
    }
}

proof fn lemma_no_part_refs(xs: Seq<PatternView>)
    requires
        forall|i: int| 0 <= i < xs.len() ==> refs::pattern_refs(#[trigger] xs[i]).len() == 0,
    ensures
        refs::patterns_refs(xs).len() == 0,
    decreases xs.len(),
{
    if xs.len() > 0 {
        assert(refs::pattern_refs(xs[xs.len() - 1]).len() == 0);
        assert forall|i: int| 0 <= i < xs.drop_last().len() implies refs::pattern_refs(
            #[trigger] xs.drop_last()[i],
        ).len() == 0 by {
            assert(xs.drop_last()[i] == xs[i]);
        }
        lemma_no_part_refs(xs.drop_last());
    }
}

/// The tokens that the pattern refers to have ranks below `bound`.
pub open spec fn below(
    p: PatternView,
    defs: Seq<(Seq<char>, TokenView)>,
    rank: Map<Seq<char>, nat>,
    bound: nat,
) -> bool {
    forall|n: Seq<char>|
        #![trigger ir::lookup(defs, n)]
        refs::pattern_refs(p).contains(n) && ir::lookup(defs, n) is Some ==> rank.contains_key(n)
            && rank[n] < bound
}

proof fn lemma_inlined(
    p: PatternView,
    defs: Seq<(Seq<char>, TokenView)>,
    rank: Map<Seq<char>, nat>,
    d1: nat,
    d2: nat,
)
    requires
        ranked(defs, rank),
        below(p, defs, rank, d1),
        d1 <= d2,
    ensures
        resolve::inlined(p, defs, d1) == resolve::inlined(p, defs, d2),
        refs::pattern_refs(resolve::inlined(p, defs, d1)).len() == 0,
    decreases d1, p,
{
    match p {
        PatternView::Ref(n) => {
            assert(refs::pattern_refs(p)[0] == n);
            assert(refs::pattern_refs(p).contains(n));
            match ir::lookup(defs, n) {
                Some(t) => {
                    ir::lemma_position(defs, n);
                    let i = ir::position(defs, n);
                    assert(defs[i].0 == n && defs[i].1 == t);
                    assert(below(t.pattern, defs, rank, (d1 - 1) as nat)) by {
                        assert forall|m: Seq<char>|
                            #![trigger ir::lookup(defs, m)]
                            refs::pattern_refs(t.pattern).contains(m) && ir::lookup(
                                defs,
                                m,
                            ) is Some implies rank.contains_key(m) && rank[m] < d1 - 1 by {
                            assert(refs::pattern_refs(defs[i].1.pattern).contains(m));
                        }
                    }
                    lemma_inlined(t.pattern, defs, rank, (d1 - 1) as nat, (d2 - 1) as nat);
                },
                None => {},
            }
        },
        PatternView::Concat(xs) => {
            lemma_inlined_all(xs, defs, rank, d1, d2);
            let r = PatternView::Concat(resolve::inlined_all(xs, defs, d1));
            assert(r->Concat_0 == resolve::inlined_all(xs, defs, d1));
        },
        PatternView::Alt(xs) => {
            lemma_inlined_all(xs, defs, rank, d1, d2);
            let r = PatternView::Alt(resolve::inlined_all(xs, defs, d1));
            assert(r->Alt_0 == resolve::inlined_all(xs, defs, d1));
        },
        PatternView::Opt(x) => lemma_inlined(*x, defs, rank, d1, d2),
        PatternView::Star(x) => lemma_inlined(*x, defs, rank, d1, d2),
        PatternView::Plus(x) => lemma_inlined(*x, defs, rank, d1, d2),
        _ => {},
    }
}

proof fn lemma_inlined_all(
    xs: Seq<PatternView>,
    defs: Seq<(Seq<char>, TokenView)>,
    rank: Map<Seq<char>, nat>,
    d1: nat,
    d2: nat,
)
    requires
        ranked(defs, rank),
        forall|n: Seq<char>|
            #![trigger ir::lookup(defs, n)]
            refs::patterns_refs(xs).contains(n) && ir::lookup(defs, n) is Some
                ==> rank.contains_key(n) && rank[n] < d1,
        d1 <= d2,
    ensures
        resolve::inlined_all(xs, defs, d1) == resolve::inlined_all(xs, defs, d2),
        refs::patterns_refs(resolve::inlined_all(xs, defs, d1)).len() == 0,
    decreases d1, xs,
{
    let a = resolve::inlined_all(xs, defs, d1);
    let b = resolve::inlined_all(xs, defs, d2);
    assert forall|i: int| 0 <= i < xs.len() implies #[trigger] a[i] == b[i] && refs::pattern_refs(
        a[i],
    ).len() == 0 by {
        assert(below(xs[i], defs, rank, d1)) by {
            assert forall|n: Seq<char>|
                #![trigger ir::lookup(defs, n)]
                refs::pattern_refs(xs[i]).contains(n) && ir::lookup(
                    defs,
                    n,
                ) is Some implies rank.contains_key(n) && rank[n] < d1 by {
                lemma_part_refs(xs, i, n);
            }
        }
        lemma_inlined(xs[i], defs, rank, d1, d2);
    }
    assert(a =~= b);
    lemma_no_part_refs(a);
}

/// Without cycles, resolving a pattern leaves no reference and cuts none
/// short: going deeper would change nothing.
pub proof fn law_resolved_is_complete(
    p: PatternView,
    defs: Seq<(Seq<char>, TokenView)>,
    rank: Map<Seq<char>, nat>,
    depth: nat,
)
    requires
        ranked(defs, rank),
        depth >= defs.len(),
    ensures
        refs::pattern_refs(resolve::resolved(p, defs)).len() == 0,
        resolve::inlined(p, defs, depth) == resolve::resolved(p, defs),
{
    assert(below(p, defs, rank, defs.len())) by {
        assert forall|n: Seq<char>|
            #![trigger ir::lookup(defs, n)]
            refs::pattern_refs(p).contains(n) && ir::lookup(
                defs,
                n,
            ) is Some implies rank.contains_key(n) && rank[n] < defs.len() by {
            ir::lemma_position(defs, n);
            let i = ir::position(defs, n);
            assert(defs[i].0 == n);
        }
    }
    lemma_inlined(p, defs, rank, defs.len(), depth);
}

} // verus!
