//! What lowering promises of its intermediate results: whatever a block refers
//! to is there, and every state keeps to the rules of the runtime.
use vstd::prelude::*;

use crate::analysis::first_follow;
use crate::analysis::first_set::{self, NameSeq};
use crate::analysis::follow;
use crate::analysis::follow_k;
use crate::analysis::validate as check;
use crate::analysis::AnalyzedGrammar;
use crate::diagnostic::{self, DiagnosticView, Severity};
use crate::grammar::ir::{self, ExprView, Grammar, RuleView, TokenView};
use crate::lowering::dispatch::{self, Entry};
use crate::lowering::layout::{self, Plan};
use crate::lowering::program::{self, Built, OpView, Program, Step, TargetView, Within};
use crate::lowering::table::{self, LeafView, TreeView};
use crate::lowering::validate;
use crate::names;
use crate::sorting;
use crate::text;

verus! {

/// The target is one of the first `nb` blocks or a known rule.
pub open spec fn target_in(t: TargetView, nb: nat, rules: Set<Seq<char>>) -> bool {
    match t {
        TargetView::Block(b) => b < nb,
        TargetView::Rule(n) => rules.contains(n),
    }
}

/// The step refers to known blocks, FIRST sets and rules.
pub open spec fn op_in(op: OpView, nb: nat, nf: nat, rules: Set<Seq<char>>) -> bool {
    match op {
        OpView::Call(t) => target_in(t, nb, rules),
        OpView::Opt(f, t) => target_in(t, nb, rules) && f < nf,
        OpView::Star(f, t) => target_in(t, nb, rules) && f < nf,
        OpView::Dispatch(arms, _, _) => forall|i: int|
            0 <= i < arms.len() ==> target_in((#[trigger] arms[i]).1, nb, rules) && arms[i].0 < nf,
        _ => true,
    }
}

/// Each step refers to what is known.
pub open spec fn steps_in(steps: Seq<Step>, nb: nat, nf: nat, rules: Set<Seq<char>>) -> bool {
    forall|i: int| 0 <= i < steps.len() ==> op_in((#[trigger] steps[i]).0, nb, nf, rules)
}

/// Each block refers to what is there.
pub open spec fn built_in(st: Built, rules: Set<Seq<char>>) -> bool {
    forall|b: int|
        0 <= b < st.blocks.len() ==> steps_in(
            (#[trigger] st.blocks[b]).steps,
            st.blocks.len(),
            st.firsts.len(),
            rules,
        )
}

/// Ids of 32 bits are enough.
pub open spec fn numbered(st: Built) -> bool {
    st.blocks.len() <= u32::MAX && st.firsts.len() <= u32::MAX
}

/// The expression refers to known rules only.
pub open spec fn refs_in(e: ExprView, rules: Set<Seq<char>>) -> bool {
    forall|n: Seq<char>| #[trigger] follow::rule_refs(e).contains(n) ==> rules.contains(n)
}

proof fn lemma_steps_mono(
    steps: Seq<Step>,
    nb: nat,
    nf: nat,
    nb2: nat,
    nf2: nat,
    rules: Set<Seq<char>>,
)
    requires
        steps_in(steps, nb, nf, rules),
        nb <= nb2,
        nf <= nf2,
    ensures
        steps_in(steps, nb2, nf2, rules),
{
    assert forall|i: int| 0 <= i < steps.len() implies op_in(
        (#[trigger] steps[i]).0,
        nb2,
        nf2,
        rules,
    ) by {
        assert(op_in(steps[i].0, nb, nf, rules));
    }
}

/// Interning a set makes room for its id.
proof fn lemma_with_first(st: Built, ag: AnalyzedGrammar, s: Set<NameSeq>, rules: Set<Seq<char>>)
    requires
        built_in(st, rules),
        program::with_first(st, ag, s).firsts.len() <= u32::MAX,
    ensures
        built_in(program::with_first(st, ag, s), rules),
        program::first_id(st, ag, s) < program::with_first(st, ag, s).firsts.len(),
        program::with_first(st, ag, s).firsts.len() >= st.firsts.len(),
        program::with_first(st, ag, s).blocks == st.blocks,
{
    let st1 = program::with_first(st, ag, s);
    program::lemma_place(st.firsts, program::first_row(ag.grammar.token_list(), s));
    assert forall|b: int| 0 <= b < st1.blocks.len() implies steps_in(
        (#[trigger] st1.blocks[b]).steps,
        st1.blocks.len(),
        st1.firsts.len(),
        rules,
    ) by {
        assert(steps_in(st.blocks[b].steps, st.blocks.len(), st.firsts.len(), rules));
        lemma_steps_mono(
            st.blocks[b].steps,
            st.blocks.len(),
            st.firsts.len(),
            st1.blocks.len(),
            st1.firsts.len(),
            rules,
        );
    }
}

/// The pools and blocks only grow.
proof fn lemma_firsts_grow(
    e: ExprView,
    tail: Set<NameSeq>,
    sym: Seq<char>,
    cx: Within,
    st: Built,
)
    ensures
        program::emit(e, tail, sym, cx, st).1.firsts.len() >= st.firsts.len(),
        program::emit(e, tail, sym, cx, st).1.blocks.len() >= st.blocks.len(),
        program::emit(e, tail, sym, cx, st).1.syncs == st.syncs,
    decreases e, 0nat,
{
    match e {
        ExprView::Concat(xs) => {
            lemma_item_firsts_grow(xs, xs.len(), tail, sym, cx, st);
        },
        ExprView::Alt(xs) => {
            lemma_arm_firsts_grow(xs, xs.len(), tail, sym, cx, st);
        },
        ExprView::Opt(x) => {
            let st1 = program::with_first(st, cx.ag, program::first_in(cx.ag, *x));
            lemma_sub_firsts_grow(*x, tail, sym + ":opt-body"@, cx, st1);
        },
        ExprView::Star(x) => {
            let first = program::first_in(cx.ag, *x);
            let st1 = program::with_first(st, cx.ag, first);
            let inner = program::looped(cx.ag, *x, tail);
            lemma_sub_firsts_grow(*x, inner, sym + ":star-body"@, cx, st1);
        },
        ExprView::Plus(x) => {
            let first = program::first_in(cx.ag, *x);
            let st1 = program::with_first(st, cx.ag, first);
            let inner = program::looped(cx.ag, *x, tail);
            lemma_sub_firsts_grow(*x, inner, sym + ":plus-body"@, cx, st1);
        },
        ExprView::Label(_, x) => {
            lemma_firsts_grow(*x, tail, sym, cx, st);
        },
        _ => {},
    }
}

proof fn lemma_sub_firsts_grow(
    e: ExprView,
    tail: Set<NameSeq>,
    label: Seq<char>,
    cx: Within,
    st: Built,
)
    ensures
        program::emit_sub(e, tail, label, cx, st).firsts.len() >= st.firsts.len(),
        program::emit_sub(e, tail, label, cx, st).blocks.len() > st.blocks.len(),
        program::emit_sub(e, tail, label, cx, st).syncs == st.syncs,
    decreases e, 1nat,
{
    let block = program::empty_block(label, cx.rule);
    let reserved = Built { blocks: st.blocks.push(block), ..st };
    lemma_firsts_grow(e, tail, label, cx, reserved);
}

proof fn lemma_item_firsts_grow(
    xs: Seq<ExprView>,
    n: nat,
    tail: Set<NameSeq>,
    sym: Seq<char>,
    cx: Within,
    st: Built,
)
    ensures
        program::emit_items(xs, n, tail, sym, cx, st).1.firsts.len() >= st.firsts.len(),
        program::emit_items(xs, n, tail, sym, cx, st).1.blocks.len() >= st.blocks.len(),
        program::emit_items(xs, n, tail, sym, cx, st).1.syncs == st.syncs,
    decreases xs, n,
{
    if 0 < n <= xs.len() {
        lemma_item_firsts_grow(xs, (n - 1) as nat, tail, sym, cx, st);
        let mid = program::emit_items(xs, (n - 1) as nat, tail, sym, cx, st).1;
        let rest = follow_k::rest_then(
            xs,
            n as int,
            tail,
            cx.ag.nullable@,
            first_follow::firsts(cx.ag.first),
            cx.ag.k as nat,
        );
        lemma_firsts_grow(xs[n - 1], rest, sym, cx, mid);
    }
}

proof fn lemma_arm_firsts_grow(
    xs: Seq<ExprView>,
    n: nat,
    tail: Set<NameSeq>,
    sym: Seq<char>,
    cx: Within,
    st: Built,
)
    ensures
        program::emit_arms(xs, n, tail, sym, cx, st).1.firsts.len() >= st.firsts.len(),
        program::emit_arms(xs, n, tail, sym, cx, st).1.blocks.len() >= st.blocks.len(),
        program::emit_arms(xs, n, tail, sym, cx, st).1.syncs == st.syncs,
    decreases xs, n,
{
    if 0 < n <= xs.len() {
        lemma_arm_firsts_grow(xs, (n - 1) as nat, tail, sym, cx, st);
        let mid = program::emit_arms(xs, (n - 1) as nat, tail, sym, cx, st).1;
        let first = program::first_in(cx.ag, xs[n - 1]);
        if !first.subset_of(first_follow::only_eps()) {
            let predict = first_set::concat_k_of(first, tail, cx.ag.k as nat).remove(
                Seq::empty(),
            );
            let st1 = program::with_first(mid, cx.ag, predict);
            let label = sym + ":alt"@ + text::decimal((n - 1) as nat);
            lemma_sub_firsts_grow(xs[n - 1], tail, label, cx, st1);
        }
    }
}

/// The steps of an expression, and the blocks that they need, refer to what is
/// there.
proof fn lemma_emit_in(
    e: ExprView,
    tail: Set<NameSeq>,
    sym: Seq<char>,
    cx: Within,
    st: Built,
    rules: Set<Seq<char>>,
)
    requires
        built_in(st, rules),
        refs_in(e, rules),
        numbered(program::emit(e, tail, sym, cx, st).1),
    ensures
        ({
            let (steps, after) = program::emit(e, tail, sym, cx, st);
            built_in(after, rules) && steps_in(
                steps,
                after.blocks.len(),
                after.firsts.len(),
                rules,
            )
        }),
    decreases e, 0nat,
{
    let after = program::emit(e, tail, sym, cx, st).1;
    match e {
        ExprView::Rule(n) => {
            assert(follow::rule_refs(e)[0] == n);
            assert(follow::rule_refs(e).contains(n));
        },
        ExprView::Concat(xs) => {
            assert forall|i: int| 0 <= i < xs.len() implies refs_in(#[trigger] xs[i], rules) by {
                assert forall|n: Seq<char>| #[trigger]
                    follow::rule_refs(xs[i]).contains(n) implies rules.contains(n) by {
                    follow::lemma_list_refs(xs, i, n);
                    assert(follow::rule_refs(e).contains(n));
                }
            }
            lemma_items_in(xs, xs.len(), tail, sym, cx, st, rules);
        },
        ExprView::Alt(xs) => {
            assert forall|i: int| 0 <= i < xs.len() implies refs_in(#[trigger] xs[i], rules) by {
                assert forall|n: Seq<char>| #[trigger]
                    follow::rule_refs(xs[i]).contains(n) implies rules.contains(n) by {
                    follow::lemma_list_refs(xs, i, n);
                    assert(follow::rule_refs(e).contains(n));
                }
            }
            lemma_arms_in(xs, xs.len(), tail, sym, cx, st, rules);
        },
        ExprView::Opt(x) => {
            let first = program::first_in(cx.ag, *x);
            let st1 = program::with_first(st, cx.ag, first);
            lemma_sub_firsts_grow(*x, tail, sym + ":opt-body"@, cx, st1);
            lemma_with_first(st, cx.ag, first, rules);
            assert(refs_in(*x, rules)) by {
                assert(follow::rule_refs(e) == follow::rule_refs(*x));
            }
            lemma_sub_in(*x, tail, sym + ":opt-body"@, cx, st1, rules);
        },
        ExprView::Star(x) => {
            let first = program::first_in(cx.ag, *x);
            let st1 = program::with_first(st, cx.ag, first);
            let inner = program::looped(cx.ag, *x, tail);
            lemma_sub_firsts_grow(*x, inner, sym + ":star-body"@, cx, st1);
            lemma_with_first(st, cx.ag, first, rules);
            assert(refs_in(*x, rules)) by {
                assert(follow::rule_refs(e) == follow::rule_refs(*x));
            }
            lemma_sub_in(*x, inner, sym + ":star-body"@, cx, st1, rules);
        },
        ExprView::Plus(x) => {
            let first = program::first_in(cx.ag, *x);
            let st1 = program::with_first(st, cx.ag, first);
            let inner = program::looped(cx.ag, *x, tail);
            lemma_sub_firsts_grow(*x, inner, sym + ":plus-body"@, cx, st1);
            lemma_with_first(st, cx.ag, first, rules);
            assert(refs_in(*x, rules)) by {
                assert(follow::rule_refs(e) == follow::rule_refs(*x));
            }
            lemma_sub_in(*x, inner, sym + ":plus-body"@, cx, st1, rules);
        },
        ExprView::Label(_, x) => {
            assert(refs_in(*x, rules)) by {
                assert(follow::rule_refs(e) == follow::rule_refs(*x));
            }
            if !(*x is Token) {
                lemma_emit_in(*x, tail, sym, cx, st, rules);
            }
        },
        _ => {},
    }
}

proof fn lemma_sub_in(
    e: ExprView,
    tail: Set<NameSeq>,
    label: Seq<char>,
    cx: Within,
    st: Built,
    rules: Set<Seq<char>>,
)
    requires
        built_in(st, rules),
        refs_in(e, rules),
        numbered(program::emit_sub(e, tail, label, cx, st)),
    ensures
        built_in(program::emit_sub(e, tail, label, cx, st), rules),
    decreases e, 1nat,
{
    let block = program::empty_block(label, cx.rule);
    let reserved = Built { blocks: st.blocks.push(block), ..st };
    let (steps, after) = program::emit(e, tail, label, cx, reserved);
    let r = program::emit_sub(e, tail, label, cx, st);
    assert forall|b: int| 0 <= b < reserved.blocks.len() implies steps_in(
        (#[trigger] reserved.blocks[b]).steps,
        reserved.blocks.len(),
        reserved.firsts.len(),
        rules,
    ) by {
        if b < st.blocks.len() {
            assert(reserved.blocks[b] == st.blocks[b]);
            assert(steps_in(st.blocks[b].steps, st.blocks.len(), st.firsts.len(), rules));
            lemma_steps_mono(
                st.blocks[b].steps,
                st.blocks.len(),
                st.firsts.len(),
                reserved.blocks.len(),
                reserved.firsts.len(),
                rules,
            );
        }
    }
    lemma_firsts_grow(e, tail, label, cx, reserved);
    lemma_emit_in(e, tail, label, cx, reserved, rules);
    assert forall|b: int| 0 <= b < r.blocks.len() implies steps_in(
        (#[trigger] r.blocks[b]).steps,
        r.blocks.len(),
        r.firsts.len(),
        rules,
    ) by {
        if b == st.blocks.len() {
            assert(r.blocks[b].steps =~= steps);
        } else {
            assert(r.blocks[b] == after.blocks[b]);
        }
    }
}

proof fn lemma_items_in(
    xs: Seq<ExprView>,
    n: nat,
    tail: Set<NameSeq>,
    sym: Seq<char>,
    cx: Within,
    st: Built,
    rules: Set<Seq<char>>,
)
    requires
        built_in(st, rules),
        forall|i: int| 0 <= i < xs.len() ==> refs_in(#[trigger] xs[i], rules),
        numbered(program::emit_items(xs, n, tail, sym, cx, st).1),
    ensures
        ({
            let (steps, after) = program::emit_items(xs, n, tail, sym, cx, st);
            built_in(after, rules) && steps_in(
                steps,
                after.blocks.len(),
                after.firsts.len(),
                rules,
            )
        }),
    decreases xs, n,
{
    if 0 < n <= xs.len() {
        let (before, mid) = program::emit_items(xs, (n - 1) as nat, tail, sym, cx, st);
        let rest = follow_k::rest_then(
            xs,
            n as int,
            tail,
            cx.ag.nullable@,
            first_follow::firsts(cx.ag.first),
            cx.ag.k as nat,
        );
        let (here, after) = program::emit(xs[n - 1], rest, sym, cx, mid);
        lemma_firsts_grow(xs[n - 1], rest, sym, cx, mid);
        lemma_items_in(xs, (n - 1) as nat, tail, sym, cx, st, rules);
        lemma_emit_in(xs[n - 1], rest, sym, cx, mid, rules);
        lemma_steps_mono(
            before,
            mid.blocks.len(),
            mid.firsts.len(),
            after.blocks.len(),
            after.firsts.len(),
            rules,
        );
        let steps = program::emit_items(xs, n, tail, sym, cx, st).0;
        assert forall|i: int| 0 <= i < steps.len() implies op_in(
            (#[trigger] steps[i]).0,
            after.blocks.len(),
            after.firsts.len(),
            rules,
        ) by {
            if i < before.len() {
                assert(steps[i] == before[i]);
            } else {
                assert(steps[i] == here[i - before.len()]);
            }
        }
    }
}

proof fn lemma_arms_in(
    xs: Seq<ExprView>,
    n: nat,
    tail: Set<NameSeq>,
    sym: Seq<char>,
    cx: Within,
    st: Built,
    rules: Set<Seq<char>>,
)
    requires
        built_in(st, rules),
        forall|i: int| 0 <= i < xs.len() ==> refs_in(#[trigger] xs[i], rules),
        numbered(program::emit_arms(xs, n, tail, sym, cx, st).1),
    ensures
        ({
            let (arms, after) = program::emit_arms(xs, n, tail, sym, cx, st);
            built_in(after, rules) && forall|i: int|
                0 <= i < arms.len() ==> target_in(
                    (#[trigger] arms[i]).1,
                    after.blocks.len(),
                    rules,
                ) && arms[i].0 < after.firsts.len()
        }),
    decreases xs, n,
{
    if 0 < n <= xs.len() {
        let (before, mid) = program::emit_arms(xs, (n - 1) as nat, tail, sym, cx, st);
        let first = program::first_in(cx.ag, xs[n - 1]);
        if first.subset_of(first_follow::only_eps()) {
            lemma_arms_in(xs, (n - 1) as nat, tail, sym, cx, st, rules);
        } else {
            let predict = first_set::concat_k_of(first, tail, cx.ag.k as nat).remove(
                Seq::empty(),
            );
            let st1 = program::with_first(mid, cx.ag, predict);
            let label = sym + ":alt"@ + text::decimal((n - 1) as nat);
            let after = program::emit_sub(xs[n - 1], tail, label, cx, st1);
            lemma_sub_firsts_grow(xs[n - 1], tail, label, cx, st1);
            program::lemma_place(
                mid.firsts,
                program::first_row(cx.ag.grammar.token_list(), predict),
            );
            lemma_arms_in(xs, (n - 1) as nat, tail, sym, cx, st, rules);
            lemma_with_first(mid, cx.ag, predict, rules);
            lemma_sub_in(xs[n - 1], tail, label, cx, st1, rules);
            let arms = program::emit_arms(xs, n, tail, sym, cx, st).0;
            assert forall|i: int| 0 <= i < arms.len() implies target_in(
                (#[trigger] arms[i]).1,
                after.blocks.len(),
                rules,
            ) && arms[i].0 < after.firsts.len() by {
                if i < before.len() {
                    assert(arms[i] == before[i]);
                    assert(target_in(before[i].1, mid.blocks.len(), rules));
                }
            }
        }
    }
}

/// Every rule that a rule refers to is a rule of the grammar.
pub open spec fn rules_defined(rules: Seq<RuleView>) -> bool {
    forall|i: int|
        0 <= i < rules.len() ==> refs_in(
            (#[trigger] rules[i]).body,
            first_follow::rule_names(rules),
        )
}

/// Each rule is kept under its name.
pub open spec fn rules_named(rules: Seq<(Seq<char>, RuleView)>) -> bool {
    forall|i: int| 0 <= i < rules.len() ==> (#[trigger] rules[i]).0 == rules[i].1.name
}

pub proof fn lemma_error_parts(a: Seq<DiagnosticView>, b: Seq<DiagnosticView>)
    requires
        !diagnostic::any_error(a + b),
    ensures
        !diagnostic::any_error(a),
        !diagnostic::any_error(b),
{
    assert forall|i: int| 0 <= i < a.len() implies (#[trigger] a[i]).severity != Severity::Error by {
        assert((a + b)[i] == a[i]);
    }
    assert forall|i: int| 0 <= i < b.len() implies (#[trigger] b[i]).severity != Severity::Error by {
        assert((a + b)[a.len() + i] == b[i]);
    }
}

proof fn lemma_refs_known(
    e: ExprView,
    defs: Seq<(Seq<char>, TokenView)>,
    rules: Seq<(Seq<char>, RuleView)>,
    ctx: RuleView,
    n: Seq<char>,
)
    requires
        !diagnostic::any_error(check::expr_ref_diags(e, defs, rules, ctx)),
        follow::rule_refs(e).contains(n),
    ensures
        ir::lookup(rules, n) is Some,
    decreases e, 0nat,
{
    match e {
        ExprView::Rule(m) => {
            assert(n == m);
            let l = check::expr_ref_diags(e, defs, rules, ctx);
            if ir::lookup(rules, n) is None {
                assert(l[0].severity == Severity::Error);
            }
        },
        ExprView::Concat(xs) => lemma_list_known(xs, defs, rules, ctx, n),
        ExprView::Alt(xs) => lemma_list_known(xs, defs, rules, ctx, n),
        ExprView::Opt(x) => lemma_refs_known(*x, defs, rules, ctx, n),
        ExprView::Star(x) => lemma_refs_known(*x, defs, rules, ctx, n),
        ExprView::Plus(x) => lemma_refs_known(*x, defs, rules, ctx, n),
        ExprView::Label(_, x) => lemma_refs_known(*x, defs, rules, ctx, n),
        _ => {},
    }
}

proof fn lemma_list_known(
    xs: Seq<ExprView>,
    defs: Seq<(Seq<char>, TokenView)>,
    rules: Seq<(Seq<char>, RuleView)>,
    ctx: RuleView,
    n: Seq<char>,
)
    requires
        !diagnostic::any_error(check::list_ref_diags(xs, defs, rules, ctx)),
        follow::list_refs(xs).contains(n),
    ensures
        ir::lookup(rules, n) is Some,
    decreases xs, xs.len(),
{
    if xs.len() > 0 {
        let p = xs.drop_last();
        lemma_error_parts(
            check::list_ref_diags(p, defs, rules, ctx),
            check::expr_ref_diags(xs.last(), defs, rules, ctx),
        );
        let a = follow::list_refs(p);
        let b = follow::rule_refs(xs.last());
        let i = choose|i: int| 0 <= i < (a + b).len() && (a + b)[i] == n;
        if i < a.len() {
            assert(a[i] == n);
            lemma_list_known(p, defs, rules, ctx, n);
        } else {
            assert(b[i - a.len()] == n);
            lemma_refs_known(xs.last(), defs, rules, ctx, n);
        }
    }
}

pub proof fn lemma_gathered_clean(each: spec_fn(int) -> Seq<DiagnosticView>, n: nat, i: int)
    requires
        0 <= i < n,
        !diagnostic::any_error(check::gathered(each, n)),
    ensures
        !diagnostic::any_error(each(i)),
    decreases n,
{
    lemma_error_parts(check::gathered(each, (n - 1) as nat), each(n - 1));
    if i < n - 1 {
        lemma_gathered_clean(each, (n - 1) as nat, i);
    }
}

/// Where the validators report no error, they report none of a rule.
pub proof fn lemma_rule_checked(g: Grammar, i: int)
    requires
        !diagnostic::any_error(check::validate_diags(g)),
        0 <= i < g.rule_list().len(),
    ensures
        !diagnostic::any_error(
            check::expr_ref_diags(
                g.rule_list()[i].body,
                g.token_map(),
                g.rule_map(),
                g.rule_list()[i],
            ),
        ),
        !check::repeats_rule(g.rule_list(), i),
{
    let tokens = g.token_list();
    let rules = g.rule_list();
    let map = g.rule_map();
    let each = |i: int| check::expr_ref_diags(rules[i].body, g.token_map(), map, rules[i]);
    let again = |i: int| check::when(
        check::repeats_rule(rules, i),
        diagnostic::error_at("duplicate rule: "@ + rules[i].name, rules[i].span),
    );
    let a = check::gathered(|i: int| check::reserved_diag(tokens[i]), tokens.len())
        + check::gathered(
        |i: int| check::when(
            check::repeats_token(tokens, i),
            diagnostic::error_at("duplicate token: "@ + tokens[i].name, tokens[i].span),
        ),
        tokens.len(),
    );
    let twice = check::gathered(again, rules.len());
    let b = check::gathered(each, rules.len());
    let c = check::gathered(
        |i: int| check::pattern_ref_diags(g.token_map(), tokens[i]),
        tokens.len(),
    );
    let d = check::cycle_diags(g.token_map());
    let e = check::gathered(|i: int| check::left_recursion_diag(rules, rules[i]), rules.len());
    let f = check::when(
        check::only_fragments(rules),
        diagnostic::error_view(
            "grammar contains no non-fragment rules; nothing would be emitted"@,
        ),
    );
    assert(check::validate_diags(g) == a + twice + b + c + d + e + f);
    lemma_error_parts(a + twice + b + c + d + e, f);
    lemma_error_parts(a + twice + b + c + d, e);
    lemma_error_parts(a + twice + b + c, d);
    lemma_error_parts(a + twice + b, c);
    lemma_error_parts(a + twice, b);
    lemma_error_parts(a, twice);
    lemma_gathered_clean(each, rules.len(), i);
    lemma_gathered_clean(again, rules.len(), i);
    if check::repeats_rule(rules, i) {
        assert(again(i)[0].severity == Severity::Error);
    }
}

/// In a grammar of which the validators report no error, every rule that a
/// rule refers to is defined.
pub proof fn law_checked_rules_are_defined(g: Grammar)
    requires
        rules_named(g.rule_map()),
        !diagnostic::any_error(check::validate_diags(g)),
    ensures
        rules_defined(g.rule_list()),
{
    let rules = g.rule_list();
    let map = g.rule_map();
    assert forall|i: int| 0 <= i < rules.len() implies refs_in(
        (#[trigger] rules[i]).body,
        first_follow::rule_names(rules),
    ) by {
        lemma_rule_checked(g, i);
        assert forall|n: Seq<char>| #[trigger]
            follow::rule_refs(rules[i].body).contains(n) implies first_follow::rule_names(
            rules,
        ).contains(n) by {
            lemma_refs_known(rules[i].body, g.token_map(), map, rules[i], n);
            ir::lemma_position(map, n);
            let j = ir::position(map, n);
            assert(map[j].0 == n);
            assert(rules[j].name == n);
        }
    }
}

/// The rules before the `n`-th are lowered to fewer blocks and sets.
proof fn lemma_rules_grow(ag: AnalyzedGrammar, n: nat)
    requires
        0 < n <= ag.grammar.rule_list().len(),
    ensures
        ({
            let a = program::lowered_rules(ag, (n - 1) as nat).0;
            let b = program::lowered_rules(ag, n).0;
            a.blocks.len() < b.blocks.len() && a.firsts.len() <= b.firsts.len()
        }),
{
    let rules = ag.grammar.rule_list();
    let (st, entries, syncs) = program::lowered_rules(ag, (n - 1) as nat);
    let rule = rules[n - 1];
    let row = sorting::kind_set(program::sync_of(ag, rule.name));
    let sync = program::place(st.syncs, row) as u32;
    let st1 = Built { syncs: program::joined(st.syncs, row), ..st };
    let cx = Within { ag, sync, rule: rule.name };
    let block = program::empty_block(rule.name, rule.name);
    let reserved = Built { blocks: st1.blocks.push(block), ..st1 };
    let tail = first_follow::set_at(first_follow::firsts(ag.follow_k), rule.name);
    lemma_firsts_grow(rule.body, tail, rule.name, cx, reserved);
}

proof fn lemma_rules_in(ag: AnalyzedGrammar, n: nat)
    requires
        n <= ag.grammar.rule_list().len(),
        rules_defined(ag.grammar.rule_list()),
        numbered(program::lowered_rules(ag, n).0),
    ensures
        ({
            let (st, entries, syncs) = program::lowered_rules(ag, n);
            let rules = ag.grammar.rule_list();
            &&& built_in(st, first_follow::rule_names(rules))
            &&& forall|i: int|
                0 <= i < n ==> entries.contains_key((#[trigger] rules[i]).name)
            &&& forall|name: Seq<char>| #[trigger]
                entries.contains_key(name) ==> entries[name].0 < st.blocks.len()
        }),
    decreases n,
{
    if n > 0 {
        let rules = ag.grammar.rule_list();
        let known = first_follow::rule_names(rules);
        lemma_rules_grow(ag, n);
        lemma_rules_in(ag, (n - 1) as nat);
        let (st, entries, syncs) = program::lowered_rules(ag, (n - 1) as nat);
        let rule = rules[n - 1];
        let row = sorting::kind_set(program::sync_of(ag, rule.name));
        let sync = program::place(st.syncs, row) as u32;
        let st1 = Built { syncs: program::joined(st.syncs, row), ..st };
        let cx = Within { ag, sync, rule: rule.name };
        let block = program::empty_block(rule.name, rule.name);
        let reserved = Built { blocks: st1.blocks.push(block), ..st1 };
        let tail = first_follow::set_at(first_follow::firsts(ag.follow_k), rule.name);
        let (body, after) = program::emit(rule.body, tail, rule.name, cx, reserved);
        let r = program::lowered_rules(ag, n).0;
        assert(r == program::lowered_rule(ag, rule, sync, st1));
        assert forall|b: int| 0 <= b < reserved.blocks.len() implies steps_in(
            (#[trigger] reserved.blocks[b]).steps,
            reserved.blocks.len(),
            reserved.firsts.len(),
            known,
        ) by {
            if b < st.blocks.len() {
                assert(reserved.blocks[b] == st.blocks[b]);
                assert(steps_in(st.blocks[b].steps, st.blocks.len(), st.firsts.len(), known));
                lemma_steps_mono(
                    st.blocks[b].steps,
                    st.blocks.len(),
                    st.firsts.len(),
                    reserved.blocks.len(),
                    reserved.firsts.len(),
                    known,
                );
            }
        }
        lemma_firsts_grow(rule.body, tail, rule.name, cx, reserved);
        lemma_emit_in(rule.body, tail, rule.name, cx, reserved, known);
        let at = st.blocks.len() as int;
        assert forall|b: int| 0 <= b < r.blocks.len() implies steps_in(
            (#[trigger] r.blocks[b]).steps,
            r.blocks.len(),
            r.firsts.len(),
            known,
        ) by {
            if b == at {
                let steps = r.blocks[b].steps;
                assert forall|i: int| 0 <= i < steps.len() implies op_in(
                    (#[trigger] steps[i]).0,
                    r.blocks.len(),
                    r.firsts.len(),
                    known,
                ) by {
                    if rule.is_fragment {
                        assert(steps[i] == body[i]);
                    } else if 0 < i <= body.len() {
                        assert(steps[i] == body[i - 1]);
                    }
                }
            } else {
                assert(r.blocks[b] == after.blocks[b]);
            }
        }
    }
}

/// The blocks and the FIRST sets of the lowered grammar can be numbered.
pub open spec fn ids_suffice(ag: AnalyzedGrammar) -> bool {
    numbered(program::lowered_rules(ag, ag.grammar.rule_list().len()).0)
}

/// A grammar that defines every rule it refers to is lowered to blocks that
/// refer to nothing that is not there: each rule has an entry block, each
/// target is a block or a rule, and each set is in the pool.
pub proof fn law_program_is_closed(prog: Program, ag: AnalyzedGrammar)
    requires
        program::is_program(prog, ag),
        rules_defined(ag.grammar.rule_list()),
        ids_suffice(ag),
    ensures
        layout::program_ok(prog),
{
    let rules = ag.grammar.rule_list();
    let (st, entries, syncs) = program::lowered_rules(ag, rules.len());
    let known = first_follow::rule_names(rules);
    lemma_rules_in(ag, rules.len());
    let order = names::list_view(prog.rule_order@);
    assert(order.len() == rules.len());
    assert(order.len() == prog.rule_order@.len());
    assert(st.blocks.len() == prog.blocks@.len());
    assert forall|i: int| 0 <= i < prog.rule_order@.len() implies prog.rule_entry@.contains_key(
        (#[trigger] prog.rule_order@[i])@,
    ) && prog.rule_entry@[prog.rule_order@[i]@].0 < prog.blocks@.len() by {
        assert(order[i] == rules[i].name);
        assert(entries.contains_key(rules[i].name));
    }
    assert forall|b: int, i: int|
        0 <= b < prog.blocks@.len() && 0 <= i < prog.blocks@[b].ops@.len() implies layout::op_ok(
        prog,
        (#[trigger] prog.blocks@[b].ops@[i])@,
    ) by {
        let op = prog.blocks@[b].ops@[i]@;
        assert(st.blocks[b] == prog.blocks@[b]@);
        assert(st.blocks[b].steps[i].0 == op);
        assert(steps_in(st.blocks[b].steps, st.blocks.len(), st.firsts.len(), known));
        assert(op_in(op, st.blocks.len(), st.firsts.len(), known));
        assert(st.firsts.len() == prog.first_sets@.len());
        assert forall|t: TargetView| target_in(t, st.blocks.len(), known) implies
            #[trigger] layout::target_ok(prog, t) by {
            if let TargetView::Rule(n) = t {
                let m = choose|m: int| 0 <= m < rules.len() && (#[trigger] rules[m]).name == n;
                assert(order[m] == n);
                assert(entries.contains_key(rules[m].name));
            }
        }
        if let OpView::Dispatch(arms, _, _) = op {
            assert forall|m: int| 0 <= m < arms.len() implies layout::target_ok(
                prog,
                (#[trigger] arms[m]).1,
            ) && arms[m].0 < prog.first_sets@.len() by {
                assert(target_in(arms[m].1, st.blocks.len(), known));
            }
        }
    }
}

/// A dispatch tree emits at most the one event of a miss, and none of its
/// arms takes a token itself.
proof fn lemma_trie_valid(
    entries: Seq<Entry>,
    depth: usize,
    outer: LeafView,
    bound: nat,
)
    requires
        validate::leaf_events(outer) <= 1,
        validate::leaf_no_peek(outer),
    ensures
        validate::tree_events(dispatch::trie(entries, depth, outer, bound)) <= 1,
        validate::tree_no_peek(dispatch::trie(entries, depth, outer, bound)),
    decreases bound - depth,
{
    let deeper = dispatch::going_on(entries, depth as int);
    let default = dispatch::default_at(entries, depth as int, outer);
    assert(validate::leaf_events(default) <= 1 && validate::leaf_no_peek(default)) by {
        let e = dispatch::end_at(entries, depth as int);
        if e < entries.len() {
            lemma_jump_valid(entries[e].1);
        }
    }
    let t = dispatch::trie(entries, depth, outer, bound);
    if !(deeper.len() == 0 || depth >= bound || depth >= usize::MAX) {
        let subs = t->Switch_2;
        let kinds = t->Switch_1;
        assert forall|i: int| 0 <= i < subs.len() implies validate::tree_events(
            #[trigger] subs[i],
        ) <= 1 && validate::tree_no_peek(subs[i]) by {
            lemma_trie_valid(
                dispatch::with_kind(deeper, depth as int, kinds[i]),
                (depth + 1) as usize,
                default,
                bound,
            );
        }
        lemma_trees_events(subs, subs.len());
    }
}

proof fn lemma_trees_events(subs: Seq<TreeView>, n: nat)
    requires
        n <= subs.len(),
        forall|i: int| 0 <= i < subs.len() ==> validate::tree_events(#[trigger] subs[i]) <= 1,
    ensures
        validate::trees_events(subs, n) <= 1,
    decreases n,
{
    if n > 0 {
        lemma_trees_events(subs, (n - 1) as nat);
        assert(validate::tree_events(subs[n - 1]) <= 1);
    }
}

/// A body that only goes to a state emits nothing and takes no token.
pub proof fn lemma_jump_valid(s: u32)
    ensures
        validate::body_events(table::jump_body(s)) == 0,
        validate::no_peek_after_expect(table::jump_body(s)),
        validate::leaf_events(dispatch::arm_leaf(s)) == 0,
        validate::leaf_no_peek(dispatch::arm_leaf(s)),
{
    let b = table::jump_body(s);
    assert(validate::instrs_events(b.instrs) == 0);
    assert(validate::tail_events(b.tail) == 0);
}

/// The state of one step keeps to the rules of the runtime.
proof fn lemma_op_valid(p: Plan, op: OpView, here: u32, is_tail: bool)
    ensures
        validate::valid_body(layout::op_body(p, op, here, is_tail)),
{
    let b = layout::op_body(p, op, here, is_tail);
    assert(b.instrs.len() <= 1);
    assert(validate::instrs_events(b.instrs) <= 1) by {
        if b.instrs.len() == 1 {
            assert(b.instrs.drop_last() =~= Seq::empty());
            assert(validate::instrs_events(b.instrs.drop_last()) == 0);
        }
    }
    match op {
        OpView::Opt(_, t) => {
            lemma_jump_valid(layout::state_of(p, t));
            assert(b.instrs.len() == 0);
            assert(validate::instrs_events(b.instrs) == 0);
        },
        OpView::Star(_, t) => {
            lemma_jump_valid(layout::state_of(p, t));
            assert(b.instrs.len() == 0);
            assert(validate::instrs_events(b.instrs) == 0);
        },
        OpView::Dispatch(arms, has_eps, _) => {
            let entries = dispatch::arm_entries(layout::arm_states(p, arms), p.pool);
            let outer = dispatch::outer_default(has_eps);
            lemma_trie_valid(entries, 0, outer, dispatch::longest(entries));
            assert(b.instrs.len() == 0);
            assert(validate::instrs_events(b.instrs) == 0);
        },
        _ => {
            assert(validate::tail_events(b.tail) == 0);
        },
    }
}

/// Every state that a program is laid out to emits at most one event on each
/// path and reads no lookahead after it took a token.
pub proof fn law_layout_is_valid(p: Plan, n: nat)
    requires
        n <= p.order.len(),
    ensures
        validate::all_valid(layout::states_upto(p, n)),
    decreases n,
{
    let states = layout::states_upto(p, n);
    if n > 0 {
        law_layout_is_valid(p, (n - 1) as nat);
        let before = layout::states_upto(p, (n - 1) as nat);
        let b = p.blocks[p.order[n - 1] as int];
        let base = 1 + layout::slots_upto(p.blocks, p.order, (n - 1) as nat);
        let here = layout::block_states(p, b, base);
        assert forall|i: int| 0 <= i < states.len() implies validate::valid_body(
            (#[trigger] states[i]).body,
        ) by {
            if i < before.len() {
                assert(states[i] == before[i]);
            } else {
                let j = i - before.len();
                assert(states[i] == here[j]);
                if b.steps.len() == 0 {
                    let body = here[j].body;
                    assert(validate::instrs_events(body.instrs) == 0);
                    assert(validate::tail_events(body.tail) == 0);
                } else {
                    lemma_op_valid(
                        p,
                        b.steps[j].0,
                        (base + j) as u32,
                        j + 1 == b.steps.len(),
                    );
                }
            }
        }
    }
}

/// The states that a program is laid out to are numbered from one without a
/// gap.
pub proof fn law_layout_ids_are_dense(p: Plan)
    requires
        layout::slots_upto(p.blocks, p.order, p.order.len()) < u32::MAX,
    ensures
        ({
            let states = layout::states_upto(p, p.order.len());
            forall|i: int| 0 <= i < states.len() ==> (#[trigger] states[i]).id == i + 1
        }),
{
    layout::lemma_state_ids(p, p.order.len());
}

} // verus!
