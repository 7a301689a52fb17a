//! Static check that every token reference in a rule body is reachable given
//! the lexer modes that can be active at that position.
//!
//! A token declared in a mode only matches while the lexer has that mode on
//! top of its mode stack. If a rule references the token from a position where
//! the lexer is never seen to be in that mode, the check reports it. Two
//! simplifications: a pop does not take a mode away, since only the set of
//! modes that could be on top is tracked and not the stack; and every
//! non-fragment rule can be entered in the default mode. Modes are held as
//! sequences of one name.
use vstd::prelude::*;

use crate::analysis::first_follow::{self, FirstTable, Firsts};
use crate::analysis::first_set::{self, FirstSet, NameSeq};
use crate::analysis::follow;
use crate::analysis::universe;
use crate::analysis::validate;
use crate::diagnostic::{self, Diagnostic, DiagnosticView};
use crate::grammar::ir::{
    self,
    Expr,
    ExprView,
    Grammar,
    ModeAction,
    ModeActionView,
    RuleDef,
    RuleView,
    TokenDef,
    TokenView,
};
use crate::name_map::NameMap;
use crate::names;
use crate::text;

verus! {

/// The mode that the lexer starts in.
pub const DEFAULT_MODE: &'static str = "default";

/// The set of the default mode alone.
pub open spec fn only_default() -> Set<NameSeq> {
    Set::empty().insert(seq![DEFAULT_MODE@])
}

/// The modes that the actions push, in order.
pub open spec fn pushes(actions: Seq<ModeActionView>) -> Seq<Seq<char>>
    decreases actions.len(),
{
    if actions.len() == 0 {
        Seq::empty()
    } else {
        match actions.last() {
            ModeActionView::Push(x) => pushes(actions.drop_last()).push(x),
            ModeActionView::Pop => pushes(actions.drop_last()),
        }
    }
}

/// The modes that can be on top after the token `n`, where those of `m` could
/// be before it.
pub open spec fn after_token(
    defs: Seq<(Seq<char>, TokenView)>,
    n: Seq<char>,
    m: Set<NameSeq>,
) -> Set<NameSeq> {
    match ir::lookup(defs, n) {
        Some(t) => m.union(
            Set::new(|s: NameSeq| s.len() == 1 && pushes(t.mode_actions).contains(s[0])),
        ),
        None => m,
    }
}

/// The modes that can be on top after `e`, where those of `m` could be before
/// it. What a rule pushes stays inside the rule.
pub open spec fn after(
    e: ExprView,
    m: Set<NameSeq>,
    defs: Seq<(Seq<char>, TokenView)>,
) -> Set<NameSeq>
    decreases e, 0nat,
{
    match e {
        ExprView::Empty => m,
        ExprView::Token(n) => after_token(defs, n, m),
        ExprView::Rule(_) => m,
        ExprView::Concat(xs) => after_items(xs, m, defs, xs.len()),
        ExprView::Alt(xs) => after_any(xs, m, defs, xs.len()),
        ExprView::Opt(x) => m.union(after(*x, m, defs)),
        ExprView::Star(x) => m.union(after(*x, m, defs)),
        ExprView::Plus(x) => m.union(after(*x, m, defs)),
        ExprView::Label(_, x) => after(*x, m, defs),
    }
}

/// The same after the first `n` items of a sequence.
pub open spec fn after_items(
    xs: Seq<ExprView>,
    m: Set<NameSeq>,
    defs: Seq<(Seq<char>, TokenView)>,
    n: nat,
) -> Set<NameSeq>
    decreases xs, n,
{
    if n == 0 || n > xs.len() {
        m
    } else {
        after(xs[n - 1], after_items(xs, m, defs, (n - 1) as nat), defs)
    }
}

/// The same after any of the first `n` alternatives.
pub open spec fn after_any(
    xs: Seq<ExprView>,
    m: Set<NameSeq>,
    defs: Seq<(Seq<char>, TokenView)>,
    n: nat,
) -> Set<NameSeq>
    decreases xs, n,
{
    if n == 0 || n > xs.len() {
        Set::empty()
    } else {
        after_any(xs, m, defs, (n - 1) as nat).union(after(xs[n - 1], m, defs))
    }
}

/// The table has, for each rule that `e` calls, the modes that can be on top
/// at the call, where those of `m` can be before `e`.
pub open spec fn calls_closed(
    e: ExprView,
    m: Set<NameSeq>,
    defs: Seq<(Seq<char>, TokenView)>,
    active: Firsts,
) -> bool
    decreases e,
{
    match e {
        ExprView::Empty => true,
        ExprView::Token(_) => true,
        ExprView::Rule(n) => m.subset_of(first_follow::set_at(active, n)),
        ExprView::Concat(xs) => forall|i: int|
            0 <= i < xs.len() ==> calls_closed(
                #[trigger] xs[i],
                after_items(xs, m, defs, i as nat),
                defs,
                active,
            ),
        ExprView::Alt(xs) => forall|i: int|
            0 <= i < xs.len() ==> calls_closed(#[trigger] xs[i], m, defs, active),
        ExprView::Opt(x) => calls_closed(*x, m, defs, active),
        ExprView::Star(x) => calls_closed(*x, m, defs, active),
        ExprView::Plus(x) => calls_closed(*x, m, defs, active),
        ExprView::Label(_, x) => calls_closed(*x, m, defs, active),
    }
}

/// The table has the default mode for every rule that can be entered from
/// outside, and what the calls in the bodies give.
pub open spec fn active_holds(
    rules: Seq<RuleView>,
    defs: Seq<(Seq<char>, TokenView)>,
    active: Firsts,
) -> bool {
    forall|i: int|
        0 <= i < rules.len() ==> rule_active(#[trigger] rules[i], defs, active)
}

/// The same for one rule.
pub open spec fn rule_active(
    r: RuleView,
    defs: Seq<(Seq<char>, TokenView)>,
    active: Firsts,
) -> bool {
    let here = first_follow::set_at(active, r.name);
    &&& !r.is_fragment ==> only_default().subset_of(here)
    &&& calls_closed(r.body, here, defs, active)
}

/// The modes that can be on top when the rule `n` is entered.
pub open spec fn entry_modes(
    rules: Seq<RuleView>,
    defs: Seq<(Seq<char>, TokenView)>,
    n: Seq<char>,
) -> Set<NameSeq> {
    Set::new(
        |s: NameSeq|
            forall|active: Firsts| #[trigger]
                active_holds(rules, defs, active) ==> first_follow::set_at(active, n).contains(s),
    )
}

/// The mode names in ascending order.
pub open spec fn mode_names(m: Set<NameSeq>) -> Seq<Seq<char>> {
    let l = first_set::listed(m);
    Seq::new(l.len(), |i: int| l[i][0])
}

/// No mode of the token is among `m`.
pub open spec fn out_of_reach(t: TokenView, m: Set<NameSeq>) -> bool {
    forall|i: int| 0 <= i < t.modes.len() ==> !m.contains(seq![#[trigger] t.modes[i]])
}

/// What is reported of a token that cannot be matched where it stands.
pub open spec fn unmatched_text(
    r: RuleView,
    n: Seq<char>,
    t: TokenView,
    m: Set<NameSeq>,
) -> Seq<char> {
    "rule `"@ + r.name + "` references token `"@ + n + "` which lives in mode(s) `"@
        + text::joined(names::sorted(t.modes), ", "@) + "`, but the lexer is on mode(s) `"@
        + text::joined(mode_names(m), ", "@)
        + "` at this position — the token can never be matched here"@
}

/// What is reported of the tokens in `e`, where the modes of `m` can be on top
/// before it.
pub open spec fn mode_diags(
    e: ExprView,
    m: Set<NameSeq>,
    r: RuleView,
    defs: Seq<(Seq<char>, TokenView)>,
) -> Seq<DiagnosticView>
    decreases e, 0nat,
{
    match e {
        ExprView::Token(n) => match ir::lookup(defs, n) {
            Some(t) => validate::when(
                out_of_reach(t, m),
                diagnostic::error_at(unmatched_text(r, n, t, m), r.span),
            ),
            None => Seq::empty(),
        },
        ExprView::Concat(xs) => items_mode_diags(xs, m, r, defs, xs.len()),
        ExprView::Alt(xs) => any_mode_diags(xs, m, r, defs, xs.len()),
        ExprView::Opt(x) => mode_diags(*x, m, r, defs),
        ExprView::Star(x) => mode_diags(*x, m, r, defs),
        ExprView::Plus(x) => mode_diags(*x, m, r, defs),
        ExprView::Label(_, x) => mode_diags(*x, m, r, defs),
        _ => Seq::empty(),
    }
}

/// The same for the first `n` items of a sequence.
pub open spec fn items_mode_diags(
    xs: Seq<ExprView>,
    m: Set<NameSeq>,
    r: RuleView,
    defs: Seq<(Seq<char>, TokenView)>,
    n: nat,
) -> Seq<DiagnosticView>
    decreases xs, n,
{
    if n == 0 || n > xs.len() {
        Seq::empty()
    } else {
        items_mode_diags(xs, m, r, defs, (n - 1) as nat) + mode_diags(
            xs[n - 1],
            after_items(xs, m, defs, (n - 1) as nat),
            r,
            defs,
        )
    }
}

/// The same for the first `n` alternatives.
pub open spec fn any_mode_diags(
    xs: Seq<ExprView>,
    m: Set<NameSeq>,
    r: RuleView,
    defs: Seq<(Seq<char>, TokenView)>,
    n: nat,
) -> Seq<DiagnosticView>
    decreases xs, n,
{
    if n == 0 || n > xs.len() {
        Seq::empty()
    } else {
        any_mode_diags(xs, m, r, defs, (n - 1) as nat) + mode_diags(xs[n - 1], m, r, defs)
    }
}

/// What is reported of the rule at position `i`.
pub open spec fn rule_mode_diags(
    rules: Seq<RuleView>,
    defs: Seq<(Seq<char>, TokenView)>,
    i: int,
) -> Seq<DiagnosticView> {
    let m = entry_modes(rules, defs, rules[i].name);
    if m == Set::<NameSeq>::empty() {
        Seq::empty()
    } else {
        mode_diags(rules[i].body, m, rules[i], defs)
    }
}

/// What is reported of the first `n` rules.
pub open spec fn all_mode_diags(
    rules: Seq<RuleView>,
    defs: Seq<(Seq<char>, TokenView)>,
    n: nat,
) -> Seq<DiagnosticView>
    decreases n,
{
    if n == 0 {
        Seq::empty()
    } else {
        all_mode_diags(rules, defs, (n - 1) as nat) + rule_mode_diags(rules, defs, n - 1)
    }
}

proof fn lemma_after_mono(
    e: ExprView,
    a: Set<NameSeq>,
    b: Set<NameSeq>,
    defs: Seq<(Seq<char>, TokenView)>,
)
    requires
        a.subset_of(b),
    ensures
        after(e, a, defs).subset_of(after(e, b, defs)),
    decreases e, 0nat,
{
    match e {
        ExprView::Concat(xs) => lemma_after_items_mono(xs, a, b, defs, xs.len()),
        ExprView::Alt(xs) => lemma_after_any_mono(xs, a, b, defs, xs.len()),
        ExprView::Opt(x) => lemma_after_mono(*x, a, b, defs),
        ExprView::Star(x) => lemma_after_mono(*x, a, b, defs),
        ExprView::Plus(x) => lemma_after_mono(*x, a, b, defs),
        ExprView::Label(_, x) => lemma_after_mono(*x, a, b, defs),
        _ => {},
    }
}

proof fn lemma_after_items_mono(
    xs: Seq<ExprView>,
    a: Set<NameSeq>,
    b: Set<NameSeq>,
    defs: Seq<(Seq<char>, TokenView)>,
    n: nat,
)
    requires
        a.subset_of(b),
    ensures
        after_items(xs, a, defs, n).subset_of(after_items(xs, b, defs, n)),
    decreases xs, n,
{
    if 0 < n <= xs.len() {
        lemma_after_items_mono(xs, a, b, defs, (n - 1) as nat);
        lemma_after_mono(
            xs[n - 1],
            after_items(xs, a, defs, (n - 1) as nat),
            after_items(xs, b, defs, (n - 1) as nat),
            defs,
        );
    }
}

proof fn lemma_after_any_mono(
    xs: Seq<ExprView>,
    a: Set<NameSeq>,
    b: Set<NameSeq>,
    defs: Seq<(Seq<char>, TokenView)>,
    n: nat,
)
    requires
        a.subset_of(b),
    ensures
        after_any(xs, a, defs, n).subset_of(after_any(xs, b, defs, n)),
    decreases xs, n,
{
    if 0 < n <= xs.len() {
        lemma_after_any_mono(xs, a, b, defs, (n - 1) as nat);
        lemma_after_mono(xs[n - 1], a, b, defs);
    }
}

/// A table that does for more modes does for fewer.
proof fn lemma_calls_mono(
    e: ExprView,
    a: Set<NameSeq>,
    b: Set<NameSeq>,
    defs: Seq<(Seq<char>, TokenView)>,
    active: Firsts,
)
    requires
        a.subset_of(b),
        calls_closed(e, b, defs, active),
    ensures
        calls_closed(e, a, defs, active),
    decreases e,
{
    match e {
        ExprView::Concat(xs) => {
            assert forall|i: int| 0 <= i < xs.len() implies calls_closed(
                #[trigger] xs[i],
                after_items(xs, a, defs, i as nat),
                defs,
                active,
            ) by {
                lemma_after_items_mono(xs, a, b, defs, i as nat);
                lemma_calls_mono(
                    xs[i],
                    after_items(xs, a, defs, i as nat),
                    after_items(xs, b, defs, i as nat),
                    defs,
                    active,
                );
            }
        },
        ExprView::Alt(xs) => {
            assert forall|i: int| 0 <= i < xs.len() implies calls_closed(
                #[trigger] xs[i],
                a,
                defs,
                active,
            ) by {
                lemma_calls_mono(xs[i], a, b, defs, active);
            }
        },
        ExprView::Opt(x) => lemma_calls_mono(*x, a, b, defs, active),
        ExprView::Star(x) => lemma_calls_mono(*x, a, b, defs, active),
        ExprView::Plus(x) => lemma_calls_mono(*x, a, b, defs, active),
        ExprView::Label(_, x) => lemma_calls_mono(*x, a, b, defs, active),
        _ => {},
    }
}

/// The modes that the first `n` tokens push.
spec fn all_pushes(defs: Seq<(Seq<char>, TokenView)>, n: nat) -> Seq<Seq<char>>
    decreases n,
{
    if n == 0 {
        Seq::empty()
    } else {
        all_pushes(defs, (n - 1) as nat) + pushes(defs[n - 1].1.mode_actions)
    }
}

/// All modes that can ever be on top.
spec fn all_modes(defs: Seq<(Seq<char>, TokenView)>) -> Set<Seq<char>> {
    all_pushes(defs, defs.len()).to_set().insert(DEFAULT_MODE@)
}

proof fn lemma_all_pushes(defs: Seq<(Seq<char>, TokenView)>, n: nat, i: int, x: Seq<char>)
    requires
        0 <= i < n <= defs.len(),
        pushes(defs[i].1.mode_actions).contains(x),
    ensures
        all_pushes(defs, n).contains(x),
    decreases n,
{
    let a = all_pushes(defs, (n - 1) as nat);
    let b = pushes(defs[n - 1].1.mode_actions);
    if i == n - 1 {
        let j = choose|j: int| 0 <= j < b.len() && b[j] == x;
        assert((a + b)[a.len() + j] == x);
    } else {
        lemma_all_pushes(defs, (n - 1) as nat, i, x);
        let j = choose|j: int| 0 <= j < a.len() && a[j] == x;
        assert((a + b)[j] == x);
    }
}

proof fn lemma_after_bounded(
    e: ExprView,
    m: Set<NameSeq>,
    defs: Seq<(Seq<char>, TokenView)>,
)
    requires
        m.subset_of(follow::ones(all_modes(defs))),
    ensures
        after(e, m, defs).subset_of(follow::ones(all_modes(defs))),
    decreases e, 0nat,
{
    match e {
        ExprView::Token(n) => {
            if let Some(t) = ir::lookup(defs, n) {
                ir::lemma_position(defs, n);
                let i = ir::position(defs, n);
                assert forall|s: NameSeq| after(e, m, defs).contains(s) implies follow::ones(
                    all_modes(defs),
                ).contains(s) by {
                    if !m.contains(s) {
                        lemma_all_pushes(defs, defs.len(), i, s[0]);
                    }
                }
            }
        },
        ExprView::Concat(xs) => lemma_after_items_bounded(xs, m, defs, xs.len()),
        ExprView::Alt(xs) => lemma_after_any_bounded(xs, m, defs, xs.len()),
        ExprView::Opt(x) => lemma_after_bounded(*x, m, defs),
        ExprView::Star(x) => lemma_after_bounded(*x, m, defs),
        ExprView::Plus(x) => lemma_after_bounded(*x, m, defs),
        ExprView::Label(_, x) => lemma_after_bounded(*x, m, defs),
        _ => {},
    }
}

proof fn lemma_after_items_bounded(
    xs: Seq<ExprView>,
    m: Set<NameSeq>,
    defs: Seq<(Seq<char>, TokenView)>,
    n: nat,
)
    requires
        m.subset_of(follow::ones(all_modes(defs))),
    ensures
        after_items(xs, m, defs, n).subset_of(follow::ones(all_modes(defs))),
    decreases xs, n,
{
    if 0 < n <= xs.len() {
        lemma_after_items_bounded(xs, m, defs, (n - 1) as nat);
        lemma_after_bounded(xs[n - 1], after_items(xs, m, defs, (n - 1) as nat), defs);
    }
}

proof fn lemma_after_any_bounded(
    xs: Seq<ExprView>,
    m: Set<NameSeq>,
    defs: Seq<(Seq<char>, TokenView)>,
    n: nat,
)
    requires
        m.subset_of(follow::ones(all_modes(defs))),
    ensures
        after_any(xs, m, defs, n).subset_of(follow::ones(all_modes(defs))),
    decreases xs, n,
{
    if 0 < n <= xs.len() {
        lemma_after_any_bounded(xs, m, defs, (n - 1) as nat);
        lemma_after_bounded(xs[n - 1], m, defs);
    }
}

/// The full table does for every expression whose rules have a place in it.
proof fn lemma_full_calls(
    e: ExprView,
    m: Set<NameSeq>,
    defs: Seq<(Seq<char>, TokenView)>,
    keys: Set<Seq<char>>,
)
    requires
        m.subset_of(follow::ones(all_modes(defs))),
        forall|n: Seq<char>| #[trigger] follow::rule_refs(e).contains(n) ==> keys.contains(n),
    ensures
        calls_closed(e, m, defs, follow::full(keys, follow::ones(all_modes(defs)))),
    decreases e,
{
    let fo = follow::full(keys, follow::ones(all_modes(defs)));
    match e {
        ExprView::Rule(n) => {
            assert(follow::rule_refs(e)[0] == n);
            assert(follow::rule_refs(e).contains(n));
        },
        ExprView::Concat(xs) => {
            assert forall|i: int| 0 <= i < xs.len() implies calls_closed(
                #[trigger] xs[i],
                after_items(xs, m, defs, i as nat),
                defs,
                fo,
            ) by {
                lemma_after_items_bounded(xs, m, defs, i as nat);
                assert forall|n: Seq<char>| #[trigger] follow::rule_refs(
                    xs[i],
                ).contains(n) implies keys.contains(n) by {
                    follow::lemma_list_refs(xs, i, n);
                    assert(follow::rule_refs(e).contains(n));
                }
                lemma_full_calls(xs[i], after_items(xs, m, defs, i as nat), defs, keys);
            }
        },
        ExprView::Alt(xs) => {
            assert forall|i: int| 0 <= i < xs.len() implies calls_closed(
                #[trigger] xs[i],
                m,
                defs,
                fo,
            ) by {
                assert forall|n: Seq<char>| #[trigger] follow::rule_refs(
                    xs[i],
                ).contains(n) implies keys.contains(n) by {
                    follow::lemma_list_refs(xs, i, n);
                    assert(follow::rule_refs(e).contains(n));
                }
                lemma_full_calls(xs[i], m, defs, keys);
            }
        },
        ExprView::Opt(x) => {
            assert(follow::rule_refs(e) == follow::rule_refs(*x));
            lemma_full_calls(*x, m, defs, keys);
        },
        ExprView::Star(x) => {
            assert(follow::rule_refs(e) == follow::rule_refs(*x));
            lemma_full_calls(*x, m, defs, keys);
        },
        ExprView::Plus(x) => {
            assert(follow::rule_refs(e) == follow::rule_refs(*x));
            lemma_full_calls(*x, m, defs, keys);
        },
        ExprView::Label(_, x) => {
            assert(follow::rule_refs(e) == follow::rule_refs(*x));
            lemma_full_calls(*x, m, defs, keys);
        },
        _ => {},
    }
}

/// Apply a token's pushes to the mode set.
fn post_token_modes(g: &Grammar, name: &str, in_modes: &FirstSet) -> (out: FirstSet)
    requires
        in_modes.wf(),
    ensures
        out.wf(),
        out@ == after_token(g.token_map(), name@, in_modes@),
{
    let mut out = in_modes.clone();
    match g.token(name) {
        Some(t) => {
            let ghost actions = t@.mode_actions;
            let mut i: usize = 0;
            while i < t.mode_actions.len()
                invariant
                    i <= t.mode_actions@.len(),
                    actions == ir::actions_view(t.mode_actions@),
                    out.wf(),
                    forall|s: NameSeq| #[trigger]
                        out@.contains(s) <==> in_modes@.contains(s) || (s.len() == 1 && pushes(
                            actions.take(i as int),
                        ).contains(s[0])),
                decreases t.mode_actions@.len() - i,
            {
                let ghost before = out@;
                proof {
                    assert(actions.take(i + 1).drop_last() =~= actions.take(i as int));
                    assert(actions.take(i + 1).last() == t.mode_actions@[i as int]@);
                }
                match &t.mode_actions[i] {
                    ModeAction::Push(x) => {
                        let mut one: Vec<String> = Vec::new();
                        one.push(x.clone());
                        assert(names::list_view(one@) =~= seq![x@]);
                        out.insert(one);
                        proof {
                            let p = pushes(actions.take(i as int));
                            assert forall|s: NameSeq| #[trigger] out@.contains(s)
                                <==> in_modes@.contains(s) || (s.len() == 1 && p.push(x@).contains(
                                s[0],
                            )) by {
                                validate::lemma_push_has(p, x@, if s.len() == 1 {
                                    s[0]
                                } else {
                                    x@
                                });
                                if s.len() == 1 && s[0] == x@ {
                                    assert(s =~= seq![x@]);
                                }
                            }
                        }
                    },
                    ModeAction::Pop => {},
                }
                i += 1;
            }
            assert(actions.take(i as int) =~= actions);
        },
        None => {},
    }
    assert(out@ =~= after_token(g.token_map(), name@, in_modes@));
    out
}

/// Every table that does for the expression contains `a1` if it contains `a0`.
spec fn forced(
    e: ExprView,
    m: Set<NameSeq>,
    defs: Seq<(Seq<char>, TokenView)>,
    a0: Firsts,
    a1: Firsts,
) -> bool {
    forall|a2: Firsts| #[trigger]
        calls_closed(e, m, defs, a2) && first_follow::tables_le(a0, a2)
            ==> first_follow::tables_le(a1, a2)
}

/// Walks the body in order with the modes possibly on top, and adds them to
/// each rule that is called; true if something was not there. The modes
/// possibly on top afterwards come with it.
fn propagate_walk(e: &Expr, in_modes: &FirstSet, g: &Grammar, active: &mut FirstTable) -> (r: (
    FirstSet,
    bool,
))
    requires
        in_modes.wf(),
        first_follow::table_wf(*old(active)),
    ensures
        first_follow::table_wf(*final(active)),
        r.0.wf(),
        r.0@ == after(e@, in_modes@, g.token_map()),
        follow::grown(
            first_follow::firsts(*old(active)),
            first_follow::firsts(*final(active)),
            r.1,
        ),
        !r.1 ==> calls_closed(
            e@,
            in_modes@,
            g.token_map(),
            first_follow::firsts(*final(active)),
        ),
        forced(
            e@,
            in_modes@,
            g.token_map(),
            first_follow::firsts(*old(active)),
            first_follow::firsts(*final(active)),
        ),
    decreases e,
{
    let ghost a0 = first_follow::firsts(*active);
    let ghost defs = g.token_map();
    match e {
        Expr::Empty => (in_modes.clone(), false),
        Expr::Token(name) => (post_token_modes(g, name.as_str(), in_modes), false),
        Expr::Rule(name) => {
            let changed = follow::add_to(active, name.as_str(), in_modes);
            proof {
                let a1 = first_follow::firsts(*active);
                assert forall|a2: Firsts| #[trigger]
                    calls_closed(e@, in_modes@, defs, a2) && first_follow::tables_le(
                        a0,
                        a2,
                    ) implies first_follow::tables_le(a1, a2) by {
                    follow::lemma_add_set_le(a0, a1, a2, name@, in_modes@);
                }
            }
            (in_modes.clone(), changed)
        },
        Expr::Concat(xs) => propagate_items(xs, in_modes, g, active),
        Expr::Alt(xs) => propagate_any(xs, in_modes, g, active),
        Expr::Opt(x) => {
            let (post, changed) = propagate_walk(x, in_modes, g, active);
            let mut out = in_modes.clone();
            out.extend(&post);
            proof {
                lemma_forced_inner(e@, x@, in_modes@, defs, a0, first_follow::firsts(*active));
            }
            (out, changed)
        },
        Expr::Star(x) => {
            let (post, changed) = propagate_walk(x, in_modes, g, active);
            let mut out = in_modes.clone();
            out.extend(&post);
            proof {
                lemma_forced_inner(e@, x@, in_modes@, defs, a0, first_follow::firsts(*active));
            }
            (out, changed)
        },
        Expr::Plus(x) => {
            let (post, changed) = propagate_walk(x, in_modes, g, active);
            let mut out = in_modes.clone();
            out.extend(&post);
            proof {
                lemma_forced_inner(e@, x@, in_modes@, defs, a0, first_follow::firsts(*active));
            }
            (out, changed)
        },
        Expr::Label(_, x) => {
            let r = propagate_walk(x, in_modes, g, active);
            proof {
                lemma_forced_inner(e@, x@, in_modes@, defs, a0, first_follow::firsts(*active));
            }
            r
        },
    }
}

proof fn lemma_forced_inner(
    e: ExprView,
    x: ExprView,
    m: Set<NameSeq>,
    defs: Seq<(Seq<char>, TokenView)>,
    a0: Firsts,
    a1: Firsts,
)
    requires
        forced(x, m, defs, a0, a1),
        match e {
            ExprView::Opt(y) => *y == x,
            ExprView::Label(_, y) => *y == x,
            ExprView::Star(y) => *y == x,
            ExprView::Plus(y) => *y == x,
            _ => false,
        },
    ensures
        forced(e, m, defs, a0, a1),
{
    assert forall|a2: Firsts| #[trigger]
        calls_closed(e, m, defs, a2) && first_follow::tables_le(
            a0,
            a2,
        ) implies first_follow::tables_le(a1, a2) by {
        assert(calls_closed(x, m, defs, a2));
    }
}

proof fn lemma_forced_part(
    e: ExprView,
    xs: Seq<ExprView>,
    i: int,
    m: Set<NameSeq>,
    part_modes: Set<NameSeq>,
    defs: Seq<(Seq<char>, TokenView)>,
    a0: Firsts,
    a1: Firsts,
    a3: Firsts,
)
    requires
        0 <= i < xs.len(),
        forced(e, m, defs, a0, a1),
        forced(xs[i], part_modes, defs, a1, a3),
        e == ExprView::Concat(xs) && part_modes == after_items(xs, m, defs, i as nat) || e
            == ExprView::Alt(xs) && part_modes == m,
    ensures
        forced(e, m, defs, a0, a3),
{
    if e is Concat {
        assert(e->Concat_0 == xs);
    } else {
        assert(e->Alt_0 == xs);
    }
    assert forall|a2: Firsts| #[trigger]
        calls_closed(e, m, defs, a2) && first_follow::tables_le(
            a0,
            a2,
        ) implies first_follow::tables_le(a3, a2) by {
        assert(first_follow::tables_le(a1, a2));
        assert(calls_closed(xs[i], part_modes, defs, a2));
    }
}

fn propagate_items(
    xs: &Vec<Expr>,
    in_modes: &FirstSet,
    g: &Grammar,
    active: &mut FirstTable,
) -> (r: (FirstSet, bool))
    requires
        in_modes.wf(),
        first_follow::table_wf(*old(active)),
    ensures
        first_follow::table_wf(*final(active)),
        r.0.wf(),
        r.0@ == after_items(ir::exprs_view(xs@), in_modes@, g.token_map(), xs@.len()),
        follow::grown(
            first_follow::firsts(*old(active)),
            first_follow::firsts(*final(active)),
            r.1,
        ),
        !r.1 ==> calls_closed(
            ExprView::Concat(ir::exprs_view(xs@)),
            in_modes@,
            g.token_map(),
            first_follow::firsts(*final(active)),
        ),
        forced(
            ExprView::Concat(ir::exprs_view(xs@)),
            in_modes@,
            g.token_map(),
            first_follow::firsts(*old(active)),
            first_follow::firsts(*final(active)),
        ),
    decreases xs,
{
    let ghost views = ir::exprs_view(xs@);
    let ghost whole = ExprView::Concat(views);
    let ghost a0 = first_follow::firsts(*active);
    let ghost defs = g.token_map();
    let ghost m = in_modes@;
    assert(whole->Concat_0 == views);
    let mut current = in_modes.clone();
    let mut changed = false;
    let mut i: usize = 0;
    while i < xs.len()
        invariant
            i <= xs@.len(),
            views == ir::exprs_view(xs@),
            whole == ExprView::Concat(views),
            whole->Concat_0 == views,
            defs == g.token_map(),
            current.wf(),
            current@ == after_items(views, m, defs, i as nat),
            first_follow::table_wf(*active),
            follow::grown(a0, first_follow::firsts(*active), changed),
            !changed ==> forall|j: int|
                0 <= j < i ==> calls_closed(
                    #[trigger] views[j],
                    after_items(views, m, defs, j as nat),
                    defs,
                    a0,
                ),
            forced(whole, m, defs, a0, first_follow::firsts(*active)),
        decreases xs@.len() - i,
    {
        let ghost a1 = first_follow::firsts(*active);
        let ghost c1 = changed;
        let ghost here = current@;
        let (post, c) = propagate_walk(&xs[i], &current, g, active);
        proof {
            let a3 = first_follow::firsts(*active);
            assert(views[i as int] == xs@[i as int]@);
            follow::lemma_grown_trans(a0, a1, a3, c1, c);
            lemma_forced_part(whole, views, i as int, m, here, defs, a0, a1, a3);
        }
        current = post;
        changed = changed || c;
        i += 1;
    }
    (current, changed)
}

fn propagate_any(
    xs: &Vec<Expr>,
    in_modes: &FirstSet,
    g: &Grammar,
    active: &mut FirstTable,
) -> (r: (FirstSet, bool))
    requires
        in_modes.wf(),
        first_follow::table_wf(*old(active)),
    ensures
        first_follow::table_wf(*final(active)),
        r.0.wf(),
        r.0@ == after_any(ir::exprs_view(xs@), in_modes@, g.token_map(), xs@.len()),
        follow::grown(
            first_follow::firsts(*old(active)),
            first_follow::firsts(*final(active)),
            r.1,
        ),
        !r.1 ==> calls_closed(
            ExprView::Alt(ir::exprs_view(xs@)),
            in_modes@,
            g.token_map(),
            first_follow::firsts(*final(active)),
        ),
        forced(
            ExprView::Alt(ir::exprs_view(xs@)),
            in_modes@,
            g.token_map(),
            first_follow::firsts(*old(active)),
            first_follow::firsts(*final(active)),
        ),
    decreases xs,
{
    let ghost views = ir::exprs_view(xs@);
    let ghost whole = ExprView::Alt(views);
    let ghost a0 = first_follow::firsts(*active);
    let ghost defs = g.token_map();
    let ghost m = in_modes@;
    assert(whole->Alt_0 == views);
    let mut all = FirstSet::new();
    let mut changed = false;
    let mut i: usize = 0;
    while i < xs.len()
        invariant
            i <= xs@.len(),
            views == ir::exprs_view(xs@),
            whole == ExprView::Alt(views),
            whole->Alt_0 == views,
            defs == g.token_map(),
            m == in_modes@,
            in_modes.wf(),
            all.wf(),
            all@ == after_any(views, m, defs, i as nat),
            first_follow::table_wf(*active),
            follow::grown(a0, first_follow::firsts(*active), changed),
            !changed ==> forall|j: int|
                0 <= j < i ==> calls_closed(#[trigger] views[j], m, defs, a0),
            forced(whole, m, defs, a0, first_follow::firsts(*active)),
        decreases xs@.len() - i,
    {
        let ghost a1 = first_follow::firsts(*active);
        let ghost c1 = changed;
        let (post, c) = propagate_walk(&xs[i], in_modes, g, active);
        all.extend(&post);
        proof {
            let a3 = first_follow::firsts(*active);
            assert(views[i as int] == xs@[i as int]@);
            follow::lemma_grown_trans(a0, a1, a3, c1, c);
            lemma_forced_part(whole, views, i as int, m, m, defs, a0, a1, a3);
        }
        changed = changed || c;
        i += 1;
    }
    (all, changed)
}

/// What holds throughout the saturation.
spec fn active_inv(
    rules: Seq<RuleView>,
    defs: Seq<(Seq<char>, TokenView)>,
    active: Firsts,
) -> bool {
    &&& forall|i: int|
        0 <= i < rules.len() && !(#[trigger] rules[i]).is_fragment ==> only_default().subset_of(
            first_follow::set_at(active, rules[i].name),
        )
    &&& forall|a2: Firsts| #[trigger]
        active_holds(rules, defs, a2) ==> first_follow::tables_le(active, a2)
}

/// The full table does for all rules.
proof fn lemma_full_holds(rules: Seq<RuleView>, defs: Seq<(Seq<char>, TokenView)>)
    ensures
        all_modes(defs).finite(),
        active_holds(
            rules,
            defs,
            follow::full(follow::all_keys(rules), follow::ones(all_modes(defs))),
        ),
{
    let keys = follow::all_keys(rules);
    let u = follow::ones(all_modes(defs));
    let fo = follow::full(keys, u);
    vstd::seq_lib::seq_to_set_is_finite(all_pushes(defs, defs.len()));
    follow::lemma_all_keys(rules);
    assert forall|i: int| 0 <= i < rules.len() implies rule_active(
        #[trigger] rules[i],
        defs,
        fo,
    ) by {
        assert forall|n: Seq<char>| #[trigger] follow::rule_refs(
            rules[i].body,
        ).contains(n) implies keys.contains(n) by {}
        lemma_full_calls(rules[i].body, u, defs, keys);
        assert forall|s: NameSeq| only_default().contains(s) implies u.contains(s) by {}
    }
}

/// For each rule, the modes that can be on top when its body starts: the least
/// table over the calls in the rule bodies.
fn compute_active_modes(g: &Grammar) -> (active: FirstTable)
    ensures
        first_follow::table_wf(active),
        forall|n: Seq<char>| #[trigger]
            first_follow::set_at(first_follow::firsts(active), n) == entry_modes(
                g.rule_list(),
                g.token_map(),
                n,
            ),
{
    let rule_list = g.rule_values();
    let ghost rules = g.rule_list();
    let ghost defs = g.token_map();
    let ghost sigma = all_modes(defs);
    let ghost keys = follow::all_keys(rules);
    let ghost u = follow::ones(sigma);
    let ghost all = universe::all_seqs(sigma.union(keys), 2);
    proof {
        follow::lemma_all_keys(rules);
        lemma_full_holds(rules, defs);
    }
    let mut start: Vec<String> = Vec::new();
    start.push(DEFAULT_MODE.to_owned());
    assert(names::list_view(start@) =~= seq![DEFAULT_MODE@]);
    let mut default_set = FirstSet::new();
    default_set.insert(start);
    assert(default_set@ =~= only_default());
    let mut active: FirstTable = NameMap::new();
    let mut k: usize = 0;
    while k < rule_list.len()
        invariant
            k <= rule_list@.len(),
            rules == g.rule_list(),
            rule_list@.len() == rules.len(),
            forall|i: int| 0 <= i < rules.len() ==> (#[trigger] rule_list@[i])@ == rules[i],
            default_set.wf(),
            default_set@ == only_default(),
            first_follow::table_wf(active),
            forall|i: int|
                0 <= i < k && !(#[trigger] rules[i]).is_fragment ==> only_default().subset_of(
                    first_follow::set_at(first_follow::firsts(active), rules[i].name),
                ),
            forall|a2: Firsts| #[trigger]
                active_holds(rules, defs, a2) ==> first_follow::tables_le(
                    first_follow::firsts(active),
                    a2,
                ),
        decreases rule_list@.len() - k,
    {
        let r = rule_list[k];
        assert(r@ == rules[k as int]);
        if !r.is_fragment {
            let ghost a0 = first_follow::firsts(active);
            let _ = follow::add_to(&mut active, r.name.as_str(), &default_set);
            proof {
                let a1 = first_follow::firsts(active);
                assert forall|a2: Firsts| #[trigger]
                    active_holds(rules, defs, a2) implies first_follow::tables_le(a1, a2) by {
                    assert(rule_active(rules[k as int], defs, a2));
                    follow::lemma_add_set_le(a0, a1, a2, r.name@, only_default());
                }
            }
        }
        k += 1;
    }
    let mut changed = true;
    while changed
        invariant
            rules == g.rule_list(),
            defs == g.token_map(),
            rule_list@.len() == rules.len(),
            forall|i: int| 0 <= i < rules.len() ==> (#[trigger] rule_list@[i])@ == rules[i],
            first_follow::table_wf(active),
            keys.finite(),
            sigma.finite(),
            u == follow::ones(sigma),
            all == universe::all_seqs(sigma.union(keys), 2),
            active_holds(rules, defs, follow::full(keys, u)),
            active_inv(rules, defs, first_follow::firsts(active)),
            !changed ==> active_holds(rules, defs, first_follow::firsts(active)),
        decreases
                all.len() - first_follow::tagged(first_follow::firsts(active)).len(),
                (if changed {
                    1int
                } else {
                    0int
                }),
    {
        changed = false;
        let ghost a0 = first_follow::firsts(active);
        let mut i: usize = 0;
        while i < rule_list.len()
            invariant
                i <= rule_list@.len(),
                rules == g.rule_list(),
                defs == g.token_map(),
                rule_list@.len() == rules.len(),
                forall|j: int| 0 <= j < rules.len() ==> (#[trigger] rule_list@[j])@ == rules[j],
                first_follow::table_wf(active),
                active_inv(rules, defs, a0),
                active_inv(rules, defs, first_follow::firsts(active)),
                follow::grown(a0, first_follow::firsts(active), changed),
                !changed ==> forall|j: int|
                    0 <= j < i ==> rule_active(#[trigger] rules[j], defs, a0),
            decreases rule_list@.len() - i,
        {
            let ghost a1 = first_follow::firsts(active);
            let ghost c1 = changed;
            let r = rule_list[i];
            assert(r@ == rules[i as int]);
            let entry = follow::set_of(&active, r.name.as_str());
            let (_, c) = propagate_walk(&r.body, &entry, g, &mut active);
            proof {
                let a3 = first_follow::firsts(active);
                follow::lemma_grown_trans(a0, a1, a3, c1, c);
                assert forall|a2: Firsts| #[trigger]
                    active_holds(rules, defs, a2) implies first_follow::tables_le(a3, a2) by {
                    assert(first_follow::tables_le(a1, a2));
                    assert(rule_active(rules[i as int], defs, a2));
                    let more = first_follow::set_at(a2, r@.name);
                    assert(first_follow::set_at(a1, r@.name).subset_of(more));
                    lemma_calls_mono(r@.body, entry@, more, defs, a2);
                }
                assert forall|j: int|
                    0 <= j < rules.len() && !(
                    #[trigger] rules[j]).is_fragment implies only_default().subset_of(
                    first_follow::set_at(a3, rules[j].name),
                ) by {
                    assert(first_follow::set_at(a1, rules[j].name).subset_of(
                        first_follow::set_at(a3, rules[j].name),
                    ));
                }
            }
            changed = changed || c;
            i += 1;
        }
        proof {
            if changed {
                assert forall|s: NameSeq| u.contains(s) implies universe::all_seqs(
                    sigma,
                    1,
                ).contains(s) by {}
                follow::lemma_progress(a0, first_follow::firsts(active), keys, u, sigma, 1);
            }
        }
    }
    proof {
        let a = first_follow::firsts(active);
        assert forall|n: Seq<char>| #[trigger] first_follow::set_at(a, n) == entry_modes(
            rules,
            defs,
            n,
        ) by {
            assert forall|s: NameSeq| first_follow::set_at(a, n).contains(s) <==> entry_modes(
                rules,
                defs,
                n,
            ).contains(s) by {
                if first_follow::set_at(a, n).contains(s) {
                    assert forall|a2: Firsts| #[trigger]
                        active_holds(rules, defs, a2) implies first_follow::set_at(
                        a2,
                        n,
                    ).contains(s) by {
                        assert(first_follow::set_at(a, n).subset_of(first_follow::set_at(a2, n)));
                    }
                }
            }
            assert(first_follow::set_at(a, n) =~= entry_modes(rules, defs, n));
        }
    }
    active
}

/// True iff no mode of the token is among `modes`.
fn is_out_of_reach(t: &TokenDef, modes: &FirstSet) -> (r: bool)
    ensures
        r == out_of_reach(t@, modes@),
{
    let mut i: usize = 0;
    while i < t.modes.len()
        invariant
            i <= t.modes@.len(),
            forall|j: int| 0 <= j < i ==> !modes@.contains(seq![#[trigger] t@.modes[j]]),
        decreases t.modes@.len() - i,
    {
        let mut one: Vec<String> = Vec::new();
        one.push(t.modes[i].clone());
        assert(names::list_view(one@) =~= seq![t@.modes[i as int]]);
        if modes.contains(&one) {
            assert(modes@.contains(seq![t@.modes[i as int]]));
            return false;
        }
        i += 1;
    }
    true
}

/// The mode names in ascending order.
fn list_modes(modes: &FirstSet) -> (r: Vec<String>)
    requires
        modes.wf(),
        forall|s: NameSeq| #[trigger] modes@.contains(s) ==> s.len() == 1,
    ensures
        names::list_view(r@) == mode_names(modes@),
{
    proof {
        first_set::lemma_listed(*modes);
    }
    let mut r: Vec<String> = Vec::new();
    let mut i: usize = 0;
    while i < modes.len()
        invariant
            i <= modes.list().len(),
            forall|s: NameSeq| #[trigger] modes@.contains(s) ==> s.len() == 1,
            r@.len() == i,
            forall|j: int| 0 <= j < i ==> (#[trigger] r@[j])@ == modes.list()[j][0],
        decreases modes.list().len() - i,
    {
        let one = modes.get(i);
        assert(modes.list().contains(modes.list()[i as int]));
        r.push(one[0].clone());
        i += 1;
    }
    assert(names::list_view(r@) =~= mode_names(modes@));
    r
}

/// Walks the body once more and reports every token whose modes are not among
/// those possibly on top. The modes possibly on top afterwards come back.
fn check_walk(
    e: &Expr,
    in_modes: &FirstSet,
    rule: &RuleDef,
    g: &Grammar,
    issues: &mut Vec<Diagnostic>,
) -> (out: FirstSet)
    requires
        in_modes.wf(),
        forall|s: NameSeq| #[trigger] in_modes@.contains(s) ==> s.len() == 1,
    ensures
        out.wf(),
        forall|s: NameSeq| #[trigger] out@.contains(s) ==> s.len() == 1,
        out@ == after(e@, in_modes@, g.token_map()),
        diagnostic::diags_view(final(issues)@) == diagnostic::diags_view(old(issues)@)
            + mode_diags(e@, in_modes@, rule@, g.token_map()),
    decreases e,
{
    let ghost d0 = diagnostic::diags_view(issues@);
    let ghost defs = g.token_map();
    let out = match e {
        Expr::Empty => in_modes.clone(),
        Expr::Token(name) => {
            match g.token(name.as_str()) {
                Some(t) => {
                    if is_out_of_reach(t, in_modes) {
                        let mut m = "rule `".to_owned();
                        m.append(rule.name.as_str());
                        m.append("` references token `");
                        m.append(name.as_str());
                        m.append("` which lives in mode(s) `");
                        m.append(text::join(&names::sort_names(&t.modes), ", ").as_str());
                        m.append("`, but the lexer is on mode(s) `");
                        m.append(text::join(&list_modes(in_modes), ", ").as_str());
                        m.append("` at this position — the token can never be matched here");
                        diagnostic::report(issues, Diagnostic::error(m).at(rule.span));
                    }
                },
                None => {},
            }
            post_token_modes(g, name.as_str(), in_modes)
        },
        Expr::Rule(_) => in_modes.clone(),
        Expr::Concat(xs) => {
            let r = check_items(xs, in_modes, rule, g, issues);
            assert(e@->Concat_0 == ir::exprs_view(xs@));
            r
        },
        Expr::Alt(xs) => {
            let r = check_any(xs, in_modes, rule, g, issues);
            assert(e@->Alt_0 == ir::exprs_view(xs@));
            r
        },
        Expr::Opt(x) => {
            let post = check_walk(x, in_modes, rule, g, issues);
            let mut r = in_modes.clone();
            r.extend(&post);
            r
        },
        Expr::Star(x) => {
            let post = check_walk(x, in_modes, rule, g, issues);
            let mut r = in_modes.clone();
            r.extend(&post);
            r
        },
        Expr::Plus(x) => {
            let post = check_walk(x, in_modes, rule, g, issues);
            let mut r = in_modes.clone();
            r.extend(&post);
            r
        },
        Expr::Label(_, x) => check_walk(x, in_modes, rule, g, issues),
    };
    assert(diagnostic::diags_view(issues@) =~= d0 + mode_diags(e@, in_modes@, rule@, defs));
    out
}

fn check_items(
    xs: &Vec<Expr>,
    in_modes: &FirstSet,
    rule: &RuleDef,
    g: &Grammar,
    issues: &mut Vec<Diagnostic>,
) -> (out: FirstSet)
    requires
        in_modes.wf(),
        forall|s: NameSeq| #[trigger] in_modes@.contains(s) ==> s.len() == 1,
    ensures
        out.wf(),
        forall|s: NameSeq| #[trigger] out@.contains(s) ==> s.len() == 1,
        out@ == after_items(ir::exprs_view(xs@), in_modes@, g.token_map(), xs@.len()),
        diagnostic::diags_view(final(issues)@) == diagnostic::diags_view(old(issues)@)
            + items_mode_diags(
            ir::exprs_view(xs@),
            in_modes@,
            rule@,
            g.token_map(),
            xs@.len(),
        ),
    decreases xs,
{
    let ghost views = ir::exprs_view(xs@);
    let ghost d0 = diagnostic::diags_view(issues@);
    let ghost defs = g.token_map();
    let ghost m = in_modes@;
    let mut current = in_modes.clone();
    let mut i: usize = 0;
    assert(d0 =~= d0 + items_mode_diags(views, m, rule@, defs, 0));
    while i < xs.len()
        invariant
            i <= xs@.len(),
            views == ir::exprs_view(xs@),
            defs == g.token_map(),
            current.wf(),
            forall|s: NameSeq| #[trigger] current@.contains(s) ==> s.len() == 1,
            current@ == after_items(views, m, defs, i as nat),
            diagnostic::diags_view(issues@) == d0 + items_mode_diags(
                views,
                m,
                rule@,
                defs,
                i as nat,
            ),
        decreases xs@.len() - i,
    {
        let next = check_walk(&xs[i], &current, rule, g, issues);
        proof {
            assert(views[i as int] == xs@[i as int]@);
            assert(diagnostic::diags_view(issues@) =~= d0 + items_mode_diags(
                views,
                m,
                rule@,
                defs,
                (i + 1) as nat,
            ));
        }
        current = next;
        i += 1;
    }
    current
}

fn check_any(
    xs: &Vec<Expr>,
    in_modes: &FirstSet,
    rule: &RuleDef,
    g: &Grammar,
    issues: &mut Vec<Diagnostic>,
) -> (out: FirstSet)
    requires
        in_modes.wf(),
        forall|s: NameSeq| #[trigger] in_modes@.contains(s) ==> s.len() == 1,
    ensures
        out.wf(),
        forall|s: NameSeq| #[trigger] out@.contains(s) ==> s.len() == 1,
        out@ == after_any(ir::exprs_view(xs@), in_modes@, g.token_map(), xs@.len()),
        diagnostic::diags_view(final(issues)@) == diagnostic::diags_view(old(issues)@)
            + any_mode_diags(ir::exprs_view(xs@), in_modes@, rule@, g.token_map(), xs@.len()),
    decreases xs,
{
    let ghost views = ir::exprs_view(xs@);
    let ghost d0 = diagnostic::diags_view(issues@);
    let ghost defs = g.token_map();
    let ghost m = in_modes@;
    let mut all = FirstSet::new();
    let mut i: usize = 0;
    assert(d0 =~= d0 + any_mode_diags(views, m, rule@, defs, 0));
    while i < xs.len()
        invariant
            i <= xs@.len(),
            views == ir::exprs_view(xs@),
            defs == g.token_map(),
            m == in_modes@,
            in_modes.wf(),
            forall|s: NameSeq| #[trigger] in_modes@.contains(s) ==> s.len() == 1,
            all.wf(),
            forall|s: NameSeq| #[trigger] all@.contains(s) ==> s.len() == 1,
            all@ == after_any(views, m, defs, i as nat),
            diagnostic::diags_view(issues@) == d0 + any_mode_diags(
                views,
                m,
                rule@,
                defs,
                i as nat,
            ),
        decreases xs@.len() - i,
    {
        let post = check_walk(&xs[i], in_modes, rule, g, issues);
        all.extend(&post);
        proof {
            assert(views[i as int] == xs@[i as int]@);
            assert(diagnostic::diags_view(issues@) =~= d0 + any_mode_diags(
                views,
                m,
                rule@,
                defs,
                (i + 1) as nat,
            ));
        }
        i += 1;
    }
    all
}

/// Every entry mode is one of the modes that can ever be on top.
proof fn lemma_entry_ones(rules: Seq<RuleView>, defs: Seq<(Seq<char>, TokenView)>, n: Seq<char>)
    ensures
        forall|s: NameSeq| #[trigger] entry_modes(rules, defs, n).contains(s) ==> s.len() == 1,
{
    lemma_full_holds(rules, defs);
    let fo = follow::full(follow::all_keys(rules), follow::ones(all_modes(defs)));
    assert forall|s: NameSeq| #[trigger] entry_modes(rules, defs, n).contains(s) implies s.len()
        == 1 by {
        assert(active_holds(rules, defs, fo));
        assert(first_follow::set_at(fo, n).contains(s));
    }
}

/// Run the check. Reports an error per token reference whose modes are not
/// among those seen to be on top at that position.
pub fn run(g: &Grammar, issues: &mut Vec<Diagnostic>)
    ensures
        diagnostic::diags_view(final(issues)@) == diagnostic::diags_view(old(issues)@)
            + all_mode_diags(g.rule_list(), g.token_map(), g.rule_list().len()),
{
    let active = compute_active_modes(g);
    let rule_list = g.rule_values();
    let ghost rules = g.rule_list();
    let ghost defs = g.token_map();
    let ghost d0 = diagnostic::diags_view(issues@);
    let mut i: usize = 0;
    assert(d0 =~= d0 + all_mode_diags(rules, defs, 0));
    while i < rule_list.len()
        invariant
            i <= rule_list@.len(),
            rules == g.rule_list(),
            defs == g.token_map(),
            rule_list@.len() == rules.len(),
            forall|j: int| 0 <= j < rules.len() ==> (#[trigger] rule_list@[j])@ == rules[j],
            first_follow::table_wf(active),
            forall|n: Seq<char>| #[trigger]
                first_follow::set_at(first_follow::firsts(active), n) == entry_modes(
                    rules,
                    defs,
                    n,
                ),
            diagnostic::diags_view(issues@) == d0 + all_mode_diags(rules, defs, i as nat),
        decreases rule_list@.len() - i,
    {
        let ghost before = diagnostic::diags_view(issues@);
        let r = rule_list[i];
        assert(r@ == rules[i as int]);
        let entry = follow::set_of(&active, r.name.as_str());
        if !entry.is_empty() {
            proof {
                lemma_entry_ones(rules, defs, r@.name);
            }
            let _ = check_walk(&r.body, &entry, r, g, issues);
        }
        proof {
            assert(diagnostic::diags_view(issues@) =~= before + rule_mode_diags(
                rules,
                defs,
                i as int,
            ));
            assert(before + rule_mode_diags(rules, defs, i as int) =~= d0 + all_mode_diags(
                rules,
                defs,
                (i + 1) as nat,
            ));
        }
        i += 1;
    }
}

} // verus!
