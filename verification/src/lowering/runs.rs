//! Runs of a program in which every choice is free: each sentence of the
//! grammar has one.
use vstd::prelude::*;

use crate::analysis::first_follow;
use crate::analysis::first_set::{self, NameSeq};
use crate::analysis::follow_k;
use crate::analysis::AnalyzedGrammar;
use crate::grammar::ir::{self, ExprView, Grammar, RuleView};
use crate::lowering::closed;
use crate::lowering::derivation::{self, Mark, Terms};
use crate::lowering::layout;
use crate::lowering::prefixes;
use crate::lowering::program::{
    self, BlockId, BlockView, Built, OpView, Program, Step, TargetView, Within,
};
use crate::lowering::validate;
use crate::sorting;
use crate::text;

verus! {

/// A token that is taken: its kind, and the number of its label if it has one.
pub type Taken = (u16, Option<u16>);

/// What is run: the blocks, the block of each rule, and the labels in the
/// order of their numbers.
pub ghost struct Code {
    pub blocks: Seq<BlockView>,
    pub rules: Map<Seq<char>, BlockId>,
    pub labels: Seq<Seq<char>>,
}

/// The tokens among the marks.
pub open spec fn taken(w: Seq<Mark>) -> Seq<Taken>
    decreases w.len(),
{
    if w.len() == 0 {
        Seq::empty()
    } else {
        let rest = taken(w.skip(1));
        match w[0] {
            Mark::Token(k, l) => seq![(k, l)] + rest,
            _ => rest,
        }
    }
}

/// The block that a target is; none if there is no such block.
pub open spec fn block_at(c: Code, t: TargetView) -> int {
    match t {
        TargetView::Block(b) => b as int,
        TargetView::Rule(n) => if c.rules.contains_key(n) {
            c.rules[n].0 as int
        } else {
            c.blocks.len() as int
        },
    }
}

/// A run of the target, with blocks nested at most `d` deep, takes the tokens.
pub open spec fn target_runs(c: Code, t: TargetView, d: nat, w: Seq<Taken>) -> bool
    decreases d, 0nat, 0nat,
{
    let b = block_at(c, t);
    d > 0 && b < c.blocks.len() && steps_run(c, c.blocks[b].steps, (d - 1) as nat, w)
}

/// Any number of runs of the target take the tokens.
pub open spec fn rounds_run(c: Code, t: TargetView, d: nat, w: Seq<Taken>) -> bool
    decreases d, 1nat, w.len(),
{
    w.len() == 0 || exists|m: int|
        0 < m <= w.len() && target_runs(c, t, d, #[trigger] w.take(m)) && rounds_run(
            c,
            t,
            d,
            w.skip(m),
        )
}

/// A run of the step takes the tokens.
pub open spec fn op_runs(c: Code, op: OpView, d: nat, w: Seq<Taken>) -> bool
    decreases d, 2nat, 0nat,
{
    match op {
        OpView::Enter(_) => w.len() == 0,
        OpView::Exit(_) => w.len() == 0,
        OpView::Expect(k, _, _, label) => w == seq![(k, layout::label_id(c.labels, label))],
        OpView::Call(t) => target_runs(c, t, d, w),
        OpView::Opt(_, t) => w.len() == 0 || target_runs(c, t, d, w),
        OpView::Star(_, t) => rounds_run(c, t, d, w),
        OpView::Dispatch(arms, has_eps, _) => {
            ||| exists|i: int| 0 <= i < arms.len() && target_runs(c, (#[trigger] arms[i]).1, d, w)
            ||| has_eps && w.len() == 0
        },
    }
}

/// Runs of the steps one behind the other take the tokens.
pub open spec fn steps_run(c: Code, steps: Seq<Step>, d: nat, w: Seq<Taken>) -> bool
    decreases d, 3nat, steps.len(),
{
    if steps.len() == 0 {
        w.len() == 0
    } else {
        exists|m: int|
            0 <= m <= w.len() && op_runs(c, steps[0].0, d, #[trigger] w.take(m)) && steps_run(
                c,
                steps.skip(1),
                d,
                w.skip(m),
            )
    }
}

proof fn lemma_target_deeper(c: Code, t: TargetView, d: nat, e: nat, w: Seq<Taken>)
    requires
        d <= e,
        target_runs(c, t, d, w),
    ensures
        target_runs(c, t, e, w),
    decreases d, 0nat, 0nat,
{
    lemma_steps_deeper(c, c.blocks[block_at(c, t)].steps, (d - 1) as nat, (e - 1) as nat, w);
}

proof fn lemma_rounds_deeper(c: Code, t: TargetView, d: nat, e: nat, w: Seq<Taken>)
    requires
        d <= e,
        rounds_run(c, t, d, w),
    ensures
        rounds_run(c, t, e, w),
    decreases d, 1nat, w.len(),
{
    if w.len() > 0 {
        let m = choose|m: int|
            0 < m <= w.len() && target_runs(c, t, d, #[trigger] w.take(m)) && rounds_run(
                c,
                t,
                d,
                w.skip(m),
            );
        lemma_target_deeper(c, t, d, e, w.take(m));
        lemma_rounds_deeper(c, t, d, e, w.skip(m));
    }
}

proof fn lemma_op_deeper(c: Code, op: OpView, d: nat, e: nat, w: Seq<Taken>)
    requires
        d <= e,
        op_runs(c, op, d, w),
    ensures
        op_runs(c, op, e, w),
    decreases d, 2nat, 0nat,
{
    match op {
        OpView::Call(t) => lemma_target_deeper(c, t, d, e, w),
        OpView::Opt(_, t) => {
            if w.len() > 0 {
                lemma_target_deeper(c, t, d, e, w);
            }
        },
        OpView::Star(_, t) => lemma_rounds_deeper(c, t, d, e, w),
        OpView::Dispatch(arms, _, _) => {
            if exists|i: int| 0 <= i < arms.len() && target_runs(c, (#[trigger] arms[i]).1, d, w) {
                let i = choose|i: int|
                    0 <= i < arms.len() && target_runs(c, (#[trigger] arms[i]).1, d, w);
                lemma_target_deeper(c, arms[i].1, d, e, w);
            }
        },
        _ => {},
    }
}

proof fn lemma_steps_deeper(c: Code, steps: Seq<Step>, d: nat, e: nat, w: Seq<Taken>)
    requires
        d <= e,
        steps_run(c, steps, d, w),
    ensures
        steps_run(c, steps, e, w),
    decreases d, 3nat, steps.len(),
{
    if steps.len() > 0 {
        let m = choose|m: int|
            0 <= m <= w.len() && op_runs(c, steps[0].0, d, #[trigger] w.take(m)) && steps_run(
                c,
                steps.skip(1),
                d,
                w.skip(m),
            );
        lemma_op_deeper(c, steps[0].0, d, e, w.take(m));
        lemma_steps_deeper(c, steps.skip(1), d, e, w.skip(m));
    }
}

proof fn lemma_taken_joined(a: Seq<Mark>, b: Seq<Mark>)
    ensures
        taken(a + b) == taken(a) + taken(b),
    decreases a.len(),
{
    if a.len() == 0 {
        assert(a + b =~= b);
        assert(taken(a) + taken(b) =~= taken(b));
    } else {
        assert((a + b).skip(1) =~= a.skip(1) + b);
        assert((a + b)[0] == a[0]);
        lemma_taken_joined(a.skip(1), b);
        if let Mark::Token(k, l) = a[0] {
            assert(seq![(k, l)] + (taken(a.skip(1)) + taken(b)) =~= taken(a) + taken(b));
        }
    }
}

/// What is taken before and behind a place.
proof fn lemma_taken_split(w: Seq<Mark>, m: int)
    requires
        0 <= m <= w.len(),
    ensures
        taken(w) == taken(w.take(m)) + taken(w.skip(m)),
{
    lemma_taken_joined(w.take(m), w.skip(m));
    assert(w.take(m) + w.skip(m) =~= w);
}

proof fn lemma_taken_one(m: Mark)
    ensures
        taken(seq![m]) == match m {
            Mark::Token(k, l) => seq![(k, l)],
            _ => Seq::<Taken>::empty(),
        },
{
    reveal_with_fuel(taken, 2);
    let one = seq![m];
    assert(one.skip(1) =~= Seq::<Mark>::empty());
    assert(one[0] == m);
    if let Mark::Token(k, l) = m {
        assert(seq![(k, l)] + Seq::<Taken>::empty() =~= seq![(k, l)]);
    }
}

/// As many tokens are taken as the marks have kinds.
proof fn lemma_taken_kinds(w: Seq<Mark>)
    ensures
        taken(w).len() == prefixes::token_kinds(w).len(),
    decreases w.len(),
{
    if w.len() > 0 {
        lemma_taken_kinds(w.skip(1));
    }
}

proof fn lemma_one_runs(c: Code, step: Step, d: nat, w: Seq<Taken>)
    requires
        op_runs(c, step.0, d, w),
    ensures
        steps_run(c, seq![step], d, w),
{
    reveal_with_fuel(steps_run, 2);
    let one = seq![step];
    assert(one.skip(1) =~= Seq::<Step>::empty());
    assert(w.take(w.len() as int) =~= w);
    assert(w.skip(w.len() as int).len() == 0);
    assert(steps_run(c, one.skip(1), d, w.skip(w.len() as int)));
}

proof fn lemma_runs_joined(
    c: Code,
    a: Seq<Step>,
    b: Seq<Step>,
    d: nat,
    u: Seq<Taken>,
    v: Seq<Taken>,
)
    requires
        steps_run(c, a, d, u),
        steps_run(c, b, d, v),
    ensures
        steps_run(c, a + b, d, u + v),
    decreases a.len(),
{
    let w = u + v;
    if a.len() == 0 {
        assert(a + b =~= b);
        assert(w =~= v);
    } else {
        let m = choose|m: int|
            0 <= m <= u.len() && op_runs(c, a[0].0, d, #[trigger] u.take(m)) && steps_run(
                c,
                a.skip(1),
                d,
                u.skip(m),
            );
        lemma_runs_joined(c, a.skip(1), b, d, u.skip(m), v);
        assert((a + b).skip(1) =~= a.skip(1) + b);
        assert((a + b)[0] == a[0]);
        assert(w.take(m) =~= u.take(m));
        assert(w.skip(m) =~= u.skip(m) + v);
    }
}

/// How deep the blocks of an expression are nested.
pub open spec fn height(e: ExprView) -> nat
    decreases e, 0nat,
{
    match e {
        ExprView::Concat(xs) => highest(xs, xs.len()),
        ExprView::Alt(xs) => 1 + highest(xs, xs.len()),
        ExprView::Opt(x) => 1 + height(*x),
        ExprView::Star(x) => 1 + height(*x),
        ExprView::Plus(x) => 1 + height(*x),
        ExprView::Label(_, x) => height(*x),
        _ => 0,
    }
}

/// How deep those of the first `n` expressions are nested.
pub open spec fn highest(xs: Seq<ExprView>, n: nat) -> nat
    decreases xs, n,
{
    if n == 0 || n > xs.len() {
        0
    } else {
        validate::larger(highest(xs, (n - 1) as nat), height(xs[n - 1]))
    }
}

proof fn lemma_highest(xs: Seq<ExprView>, n: nat, i: int)
    requires
        0 <= i < n <= xs.len(),
    ensures
        height(xs[i]) <= highest(xs, n),
    decreases n,
{
    if i < n - 1 {
        lemma_highest(xs, (n - 1) as nat, i);
    }
}

/// Blocks were put behind those that were there.
pub open spec fn behind(st: Built, after: Built) -> bool {
    &&& st.blocks.len() <= after.blocks.len()
    &&& forall|j: int| 0 <= j < st.blocks.len() ==> #[trigger] after.blocks[j] == st.blocks[j]
}

pub proof fn lemma_emit_behind(
    e: ExprView,
    tail: Set<NameSeq>,
    sym: Seq<char>,
    cx: Within,
    st: Built,
)
    ensures
        behind(st, program::emit(e, tail, sym, cx, st).1),
    decreases e, 0nat,
{
    match e {
        ExprView::Concat(xs) => lemma_items_behind(xs, xs.len(), tail, sym, cx, st),
        ExprView::Alt(xs) => lemma_arms_behind(xs, xs.len(), tail, sym, cx, st),
        ExprView::Opt(x) => {
            let st1 = program::with_first(st, cx.ag, program::first_in(cx.ag, *x));
            lemma_sub_behind(*x, tail, sym + ":opt-body"@, cx, st1);
        },
        ExprView::Star(x) => {
            let first = program::first_in(cx.ag, *x);
            let st1 = program::with_first(st, cx.ag, first);
            let inner = program::looped(cx.ag, *x, tail);
            lemma_sub_behind(*x, inner, sym + ":star-body"@, cx, st1);
        },
        ExprView::Plus(x) => {
            let first = program::first_in(cx.ag, *x);
            let st1 = program::with_first(st, cx.ag, first);
            let inner = program::looped(cx.ag, *x, tail);
            lemma_sub_behind(*x, inner, sym + ":plus-body"@, cx, st1);
        },
        ExprView::Label(_, x) => {
            if !(*x is Token) {
                lemma_emit_behind(*x, tail, sym, cx, st);
            }
        },
        _ => {},
    }
}

pub proof fn lemma_sub_behind(
    e: ExprView,
    tail: Set<NameSeq>,
    label: Seq<char>,
    cx: Within,
    st: Built,
)
    ensures
        behind(st, program::emit_sub(e, tail, label, cx, st)),
        st.blocks.len() < program::emit_sub(e, tail, label, cx, st).blocks.len(),
    decreases e, 1nat,
{
    let block = program::empty_block(label, cx.rule);
    let reserved = Built { blocks: st.blocks.push(block), ..st };
    lemma_emit_behind(e, tail, label, cx, reserved);
    let after = program::emit(e, tail, label, cx, reserved).1;
    let out = program::emit_sub(e, tail, label, cx, st);
    assert forall|j: int| 0 <= j < st.blocks.len() implies #[trigger] out.blocks[j]
        == st.blocks[j] by {
        assert(after.blocks[j] == reserved.blocks[j]);
    }
}

pub proof fn lemma_items_behind(
    xs: Seq<ExprView>,
    n: nat,
    tail: Set<NameSeq>,
    sym: Seq<char>,
    cx: Within,
    st: Built,
)
    ensures
        behind(st, program::emit_items(xs, n, tail, sym, cx, st).1),
    decreases xs, n,
{
    if 0 < n <= xs.len() {
        lemma_items_behind(xs, (n - 1) as nat, tail, sym, cx, st);
        let mid = program::emit_items(xs, (n - 1) as nat, tail, sym, cx, st).1;
        let rest = rest_of(cx, xs, n as int, tail);
        lemma_emit_behind(xs[n - 1], rest, sym, cx, mid);
        let after = program::emit(xs[n - 1], rest, sym, cx, mid).1;
        lemma_behind(st, mid, after);
    }
}

pub proof fn lemma_arms_behind(
    xs: Seq<ExprView>,
    n: nat,
    tail: Set<NameSeq>,
    sym: Seq<char>,
    cx: Within,
    st: Built,
)
    ensures
        behind(st, program::emit_arms(xs, n, tail, sym, cx, st).1),
    decreases xs, n,
{
    if 0 < n <= xs.len() {
        lemma_arms_behind(xs, (n - 1) as nat, tail, sym, cx, st);
        let mid = program::emit_arms(xs, (n - 1) as nat, tail, sym, cx, st).1;
        let first = program::first_in(cx.ag, xs[n - 1]);
        if !first.subset_of(first_follow::only_eps()) {
            let st1 = arm_start(cx, xs[n - 1], tail, mid);
            let label = sym + ":alt"@ + text::decimal((n - 1) as nat);
            lemma_sub_behind(xs[n - 1], tail, label, cx, st1);
            lemma_behind(st, mid, program::emit_sub(xs[n - 1], tail, label, cx, st1));
        }
    }
}

pub proof fn lemma_behind(a: Built, b: Built, c: Built)
    requires
        behind(a, b),
        behind(b, c),
    ensures
        behind(a, c),
{
    assert forall|j: int| 0 <= j < a.blocks.len() implies #[trigger] c.blocks[j]
        == a.blocks[j] by {
        assert(b.blocks[j] == a.blocks[j]);
    }
}

/// What can follow the first `n` items.
pub open spec fn rest_of(cx: Within, xs: Seq<ExprView>, n: int, tail: Set<NameSeq>) -> Set<NameSeq> {
    follow_k::rest_then(
        xs,
        n,
        tail,
        cx.ag.nullable@,
        first_follow::firsts(cx.ag.first),
        cx.ag.k as nat,
    )
}

/// The state with the set that an alternative is taken on.
pub open spec fn arm_start(cx: Within, x: ExprView, tail: Set<NameSeq>, mid: Built) -> Built {
    let predict = first_set::concat_k_of(
        program::first_in(cx.ag, x),
        tail,
        cx.ag.k as nat,
    ).remove(Seq::empty());
    program::with_first(mid, cx.ag, predict)
}

/// What is known of the rules: the derivations of a depth have runs of a
/// depth.
ghost struct Reach {
    pub terms: Terms,
    pub derived: nat,
    pub run: nat,
}

/// The code has the runs that are known of.
spec fn holds(c: Code, s: Reach, ag: AnalyzedGrammar) -> bool {
    &&& prefixes::known(s.terms, ag)
    &&& c.labels == s.terms.labels
    &&& c.blocks.len() <= u32::MAX
    &&& forall|n: Seq<char>, w: Seq<Mark>| #[trigger]
        derivation::derived_at(s.terms, n, w, s.derived) ==> target_runs(
            c,
            TargetView::Rule(n),
            s.run,
            taken(w),
        )
}

/// The blocks that were put behind are those of the code.
spec fn present(c: Code, st: Built, after: Built) -> bool {
    &&& after.blocks.len() <= c.blocks.len()
    &&& forall|j: int|
        st.blocks.len() <= j < after.blocks.len() ==> #[trigger] c.blocks[j] == after.blocks[j]
}

/// The marks that the expression derives.
spec fn derived(s: Reach, e: ExprView, w: Seq<Mark>) -> bool {
    derivation::gives(s.terms, derivation::deep(s.terms, s.derived), e, w)
}

/// An alternative that matches nothing but ε takes no token, and one that
/// takes no token can match ε.
proof fn lemma_blank(s: Reach, ag: AnalyzedGrammar, x: ExprView, w: Seq<Mark>)
    requires
        prefixes::known(s.terms, ag),
        derived(s, x, w),
    ensures
        program::first_in(ag, x).subset_of(first_follow::only_eps()) ==> taken(w).len() == 0,
        taken(w).len() == 0 ==> program::first_in(ag, x).contains(Seq::empty()),
{
    let f = program::first_in(ag, x);
    let k = ag.k as nat;
    prefixes::lemma_expr(s.terms, ag, s.derived, x, w);
    lemma_taken_kinds(w);
    let q = choose|q: NameSeq|
        f.contains(q) && #[trigger] program::kinds_of(s.terms.tokens, q) == prefixes::first_kinds(
            prefixes::token_kinds(w),
            k,
        );
    assert(program::kinds_of(s.terms.tokens, q).len() == q.len());
    if f.subset_of(first_follow::only_eps()) {
        assert(first_follow::only_eps().contains(q));
        assert(q.len() == 0);
    }
    if taken(w).len() == 0 {
        assert(q =~= Seq::<Seq<char>>::empty());
    }
}

proof fn lemma_tokenless(w: Seq<Mark>)
    requires
        derivation::tokenless(w),
    ensures
        taken(w).len() == 0,
    decreases w.len(),
{
    if w.len() > 0 {
        assert forall|i: int| 0 <= i < w.skip(1).len() implies !((#[trigger] w.skip(1)[i])
            is Token) by {
            assert(w.skip(1)[i] == w[i + 1]);
        }
        lemma_tokenless(w.skip(1));
    }
}

proof fn lemma_one_arm(
    c: Code,
    arms: Seq<(u32, TargetView)>,
    eps: bool,
    sync: u32,
    m: int,
    d: nat,
    w: Seq<Taken>,
)
    requires
        0 <= m < arms.len(),
        target_runs(c, arms[m].1, d, w),
    ensures
        op_runs(c, OpView::Dispatch(arms, eps, sync), d, w),
{
    let op = OpView::Dispatch(arms, eps, sync);
    assert(op->Dispatch_0[m] == arms[m]);
}

proof fn lemma_emit_runs(
    c: Code,
    s: Reach,
    e: ExprView,
    tail: Set<NameSeq>,
    sym: Seq<char>,
    cx: Within,
    st: Built,
    w: Seq<Mark>,
)
    requires
        holds(c, s, cx.ag),
        present(c, st, program::emit(e, tail, sym, cx, st).1),
        derived(s, e, w),
    ensures
        steps_run(c, program::emit(e, tail, sym, cx, st).0, s.run + height(e), taken(w)),
    decreases e, 0nat, 0nat,
{
    let steps = program::emit(e, tail, sym, cx, st).0;
    let d = s.run + height(e);
    match e {
        ExprView::Empty => {},
        ExprView::Token(n) => {
            lemma_taken_one(w[0]);
            assert(w =~= seq![w[0]]);
            lemma_one_runs(c, steps[0], d, taken(w));
            assert(steps =~= seq![steps[0]]);
        },
        ExprView::Rule(n) => {
            assert(derivation::derived_at(s.terms, n, w, s.derived));
            lemma_one_runs(c, steps[0], d, taken(w));
            assert(steps =~= seq![steps[0]]);
        },
        ExprView::Concat(xs) => {
            assert(xs.take(xs.len() as int) =~= xs);
            lemma_items_run(c, s, xs, xs.len(), tail, sym, cx, st, w);
        },
        ExprView::Alt(xs) => {
            let (arms, after) = program::emit_arms(xs, xs.len(), tail, sym, cx, st);
            let calls = derivation::deep(s.terms, s.derived);
            let eps = program::any_eps(cx.ag, xs);
            let op = OpView::Dispatch(arms, eps, cx.sync);
            if exists|i: int| 0 <= i < xs.len() && derivation::gives(
                s.terms,
                calls,
                #[trigger] xs[i],
                w,
            ) {
                let i = choose|i: int|
                    0 <= i < xs.len() && derivation::gives(s.terms, calls, #[trigger] xs[i], w);
                lemma_blank(s, cx.ag, xs[i], w);
                if program::first_in(cx.ag, xs[i]).subset_of(first_follow::only_eps()) {
                    assert(eps);
                } else {
                    let m = lemma_arm_runs(c, s, xs, xs.len(), i, tail, sym, cx, st, w);
                    lemma_one_arm(c, arms, eps, cx.sync, m, d, taken(w));
                }
            } else {
                let (i, v) = choose|i: int, v: Seq<Mark>|
                    0 <= i < xs.len() && derivation::gives(s.terms, calls, #[trigger] xs[i], v)
                        && #[trigger] derivation::tokenless(v);
                lemma_tokenless(v);
                lemma_blank(s, cx.ag, xs[i], v);
                assert(eps);
            }
            assert(steps[0].0 == op);
            assert(op_runs(c, op, d, taken(w)));
            lemma_one_runs(c, steps[0], d, taken(w));
            assert(steps =~= seq![steps[0]]);
        },
        ExprView::Opt(x) => {
            let st1 = program::with_first(st, cx.ag, program::first_in(cx.ag, *x));
            if w.len() > 0 {
                lemma_sub_runs(c, s, *x, tail, sym + ":opt-body"@, cx, st1, w);
            }
            lemma_one_runs(c, steps[0], d, taken(w));
            assert(steps =~= seq![steps[0]]);
        },
        ExprView::Star(x) => {
            let first = program::first_in(cx.ag, *x);
            let st1 = program::with_first(st, cx.ag, first);
            let inner = program::looped(cx.ag, *x, tail);
            lemma_rounds(c, s, *x, inner, sym + ":star-body"@, cx, st1, w);
            lemma_one_runs(c, steps[0], d, taken(w));
            assert(steps =~= seq![steps[0]]);
        },
        ExprView::Plus(x) => {
            let first = program::first_in(cx.ag, *x);
            let st1 = program::with_first(st, cx.ag, first);
            let inner = program::looped(cx.ag, *x, tail);
            let calls = derivation::deep(s.terms, s.derived);
            let m = choose|m: int|
                0 <= m <= w.len() && derivation::gives(s.terms, calls, *x, #[trigger] w.take(m))
                    && derivation::star_gives(s.terms, calls, *x, w.skip(m));
            lemma_sub_runs(c, s, *x, inner, sym + ":plus-body"@, cx, st1, w.take(m));
            lemma_rounds(c, s, *x, inner, sym + ":plus-body"@, cx, st1, w.skip(m));
            lemma_one_runs(c, steps[0], d, taken(w.take(m)));
            lemma_one_runs(c, steps[1], d, taken(w.skip(m)));
            lemma_taken_split(w, m);
            lemma_runs_joined(
                c,
                seq![steps[0]],
                seq![steps[1]],
                d,
                taken(w.take(m)),
                taken(w.skip(m)),
            );
            assert(steps =~= seq![steps[0]] + seq![steps[1]]);
        },
        ExprView::Label(name, x) => {
            if *x is Token {
                lemma_taken_one(w[0]);
                assert(w =~= seq![w[0]]);
                lemma_one_runs(c, steps[0], d, taken(w));
                assert(steps =~= seq![steps[0]]);
            } else {
                lemma_emit_runs(c, s, *x, tail, sym, cx, st, w);
            }
        },
    }
}

/// The block of a part runs.
proof fn lemma_sub_runs(
    c: Code,
    s: Reach,
    e: ExprView,
    tail: Set<NameSeq>,
    label: Seq<char>,
    cx: Within,
    st: Built,
    w: Seq<Mark>,
)
    requires
        holds(c, s, cx.ag),
        present(c, st, program::emit_sub(e, tail, label, cx, st)),
        derived(s, e, w),
    ensures
        target_runs(
            c,
            TargetView::Block(st.blocks.len() as u32),
            s.run + height(e) + 1,
            taken(w),
        ),
    decreases e, 1nat, 0nat,
{
    let block = program::empty_block(label, cx.rule);
    let reserved = Built { blocks: st.blocks.push(block), ..st };
    let (steps, after) = program::emit(e, tail, label, cx, reserved);
    let out = program::emit_sub(e, tail, label, cx, st);
    let at = st.blocks.len() as int;
    lemma_emit_behind(e, tail, label, cx, reserved);
    assert(present(c, reserved, after)) by {
        assert forall|j: int| reserved.blocks.len() <= j < after.blocks.len() implies #[trigger]
            c.blocks[j] == after.blocks[j] by {
            assert(out.blocks[j] == after.blocks[j]);
        }
    }
    lemma_emit_runs(c, s, e, tail, label, cx, reserved, w);
    assert(c.blocks[at] == out.blocks[at]);
    assert(c.blocks[at].steps =~= steps);
}

/// Rounds of a loop run.
proof fn lemma_rounds(
    c: Code,
    s: Reach,
    e: ExprView,
    tail: Set<NameSeq>,
    label: Seq<char>,
    cx: Within,
    st: Built,
    w: Seq<Mark>,
)
    requires
        holds(c, s, cx.ag),
        present(c, st, program::emit_sub(e, tail, label, cx, st)),
        derivation::star_gives(s.terms, derivation::deep(s.terms, s.derived), e, w),
    ensures
        rounds_run(
            c,
            TargetView::Block(st.blocks.len() as u32),
            s.run + height(e) + 1,
            taken(w),
        ),
    decreases e, 2nat, w.len(),
{
    let calls = derivation::deep(s.terms, s.derived);
    let t = TargetView::Block(st.blocks.len() as u32);
    if w.len() > 0 {
        let m = choose|m: int|
            0 < m <= w.len() && derivation::gives(s.terms, calls, e, #[trigger] w.take(m))
                && derivation::star_gives(s.terms, calls, e, w.skip(m));
        lemma_sub_runs(c, s, e, tail, label, cx, st, w.take(m));
        lemma_rounds(c, s, e, tail, label, cx, st, w.skip(m));
        lemma_taken_split(w, m);
        let u = taken(w.take(m));
        let v = taken(w.skip(m));
        if u.len() == 0 {
            assert(u + v =~= v);
        } else {
            let all = u + v;
            assert(all.take(u.len() as int) =~= u);
            assert(all.skip(u.len() as int) =~= v);
        }
    }
}

proof fn lemma_items_run(
    c: Code,
    s: Reach,
    xs: Seq<ExprView>,
    n: nat,
    tail: Set<NameSeq>,
    sym: Seq<char>,
    cx: Within,
    st: Built,
    w: Seq<Mark>,
)
    requires
        n <= xs.len(),
        holds(c, s, cx.ag),
        present(c, st, program::emit_items(xs, n, tail, sym, cx, st).1),
        derivation::items_give(
            s.terms,
            derivation::deep(s.terms, s.derived),
            xs.take(n as int),
            w,
        ),
    ensures
        steps_run(
            c,
            program::emit_items(xs, n, tail, sym, cx, st).0,
            s.run + highest(xs, n),
            taken(w),
        ),
    decreases xs, n, 0nat,
{
    if n > 0 {
        let calls = derivation::deep(s.terms, s.derived);
        let some = xs.take(n as int);
        let d = s.run + highest(xs, n);
        let m = choose|m: int|
            0 <= m <= w.len() && derivation::items_give(
                s.terms,
                calls,
                some.drop_last(),
                #[trigger] w.take(m),
            ) && derivation::gives(s.terms, calls, some.last(), w.skip(m));
        assert(some.drop_last() =~= xs.take(n - 1));
        assert(some.last() == xs[n - 1]);
        let (before, mid) = program::emit_items(xs, (n - 1) as nat, tail, sym, cx, st);
        let rest = rest_of(cx, xs, n as int, tail);
        let (here, after) = program::emit(xs[n - 1], rest, sym, cx, mid);
        lemma_emit_behind(xs[n - 1], rest, sym, cx, mid);
        lemma_items_behind(xs, (n - 1) as nat, tail, sym, cx, st);
        lemma_present(c, st, mid, after);
        lemma_items_run(c, s, xs, (n - 1) as nat, tail, sym, cx, st, w.take(m));
        lemma_emit_runs(c, s, xs[n - 1], rest, sym, cx, mid, w.skip(m));
        lemma_steps_deeper(
            c,
            before,
            s.run + highest(xs, (n - 1) as nat),
            d,
            taken(w.take(m)),
        );
        lemma_steps_deeper(c, here, s.run + height(xs[n - 1]), d, taken(w.skip(m)));
        lemma_runs_joined(c, before, here, d, taken(w.take(m)), taken(w.skip(m)));
        lemma_taken_split(w, m);
    }
}

proof fn lemma_present(c: Code, st: Built, mid: Built, after: Built)
    requires
        present(c, st, after),
        behind(st, mid),
        behind(mid, after),
    ensures
        present(c, st, mid),
        present(c, mid, after),
{
    assert forall|j: int| st.blocks.len() <= j < mid.blocks.len() implies #[trigger] c.blocks[j]
        == mid.blocks[j] by {
        assert(after.blocks[j] == mid.blocks[j]);
    }
}

/// The arm of an alternative runs.
proof fn lemma_arm_runs(
    c: Code,
    s: Reach,
    xs: Seq<ExprView>,
    n: nat,
    i: int,
    tail: Set<NameSeq>,
    sym: Seq<char>,
    cx: Within,
    st: Built,
    w: Seq<Mark>,
) -> (m: int)
    requires
        0 <= i < n <= xs.len(),
        holds(c, s, cx.ag),
        present(c, st, program::emit_arms(xs, n, tail, sym, cx, st).1),
        derived(s, xs[i], w),
        !program::first_in(cx.ag, xs[i]).subset_of(first_follow::only_eps()),
    ensures
        0 <= m < program::emit_arms(xs, n, tail, sym, cx, st).0.len(),
        target_runs(
            c,
            program::emit_arms(xs, n, tail, sym, cx, st).0[m].1,
            s.run + highest(xs, n) + 1,
            taken(w),
        ),
    decreases xs, n, 0nat,
{
    let (arms, after) = program::emit_arms(xs, n, tail, sym, cx, st);
    let (before, mid) = program::emit_arms(xs, (n - 1) as nat, tail, sym, cx, st);
    let x = xs[n - 1];
    let st1 = arm_start(cx, x, tail, mid);
    let label = sym + ":alt"@ + text::decimal((n - 1) as nat);
    lemma_arms_behind(xs, (n - 1) as nat, tail, sym, cx, st);
    lemma_highest(xs, n, i);
    if i == n - 1 {
        lemma_sub_behind(x, tail, label, cx, st1);
        assert(mid.blocks == st1.blocks);
        lemma_present(c, st, mid, after);
        assert(present(c, st1, after));
        lemma_sub_runs(c, s, x, tail, label, cx, st1, w);
        lemma_target_deeper(
            c,
            arms[before.len() as int].1,
            s.run + height(x) + 1,
            s.run + highest(xs, n) + 1,
            taken(w),
        );
        before.len() as int
    } else {
        if !program::first_in(cx.ag, x).subset_of(first_follow::only_eps()) {
            lemma_sub_behind(x, tail, label, cx, st1);
            assert(behind(mid, after));
        }
        lemma_present(c, st, mid, after);
        let m = lemma_arm_runs(c, s, xs, (n - 1) as nat, i, tail, sym, cx, st, w);
        assert(arms[m] == before[m]);
        lemma_target_deeper(
            c,
            arms[m].1,
            s.run + highest(xs, (n - 1) as nat) + 1,
            s.run + highest(xs, n) + 1,
            taken(w),
        );
        m
    }
}

/// How deep the blocks of the first `n` rules are nested.
spec fn rules_height(rules: Seq<RuleView>, n: nat) -> nat
    decreases n,
{
    if n == 0 || n > rules.len() {
        0
    } else {
        validate::larger(rules_height(rules, (n - 1) as nat), height(rules[n - 1].body))
    }
}

proof fn lemma_rules_height(rules: Seq<RuleView>, n: nat, i: int)
    requires
        0 <= i < n <= rules.len(),
    ensures
        height(rules[i].body) <= rules_height(rules, n),
    decreases n,
{
    if i < n - 1 {
        lemma_rules_height(rules, (n - 1) as nat, i);
    }
}

/// How deep the runs of derivations with rules nested `d` deep are.
spec fn reached(rules: Seq<RuleView>, d: nat) -> nat
    decreases d,
{
    if d == 0 {
        0
    } else {
        reached(rules, (d - 1) as nat) + rules_height(rules, rules.len()) + 1
    }
}

/// No two rules have the same name.
pub open spec fn names_apart(rules: Seq<RuleView>) -> bool {
    forall|i: int, j: int|
        0 <= i < j < rules.len() ==> (#[trigger] rules[i]).name != (#[trigger] rules[j]).name
}

/// Each rule stands under its name, and no two under the same.
pub open spec fn rules_keyed(map: Seq<(Seq<char>, RuleView)>) -> bool {
    &&& forall|i: int| 0 <= i < map.len() ==> (#[trigger] map[i]).0 == map[i].1.name
    &&& forall|i: int, j: int|
        0 <= i < j < map.len() ==> (#[trigger] map[i]).0 != (#[trigger] map[j]).0
}

/// Rules that are added to a grammar one by one have names that are apart.
pub proof fn law_added_rules_are_apart(g: Grammar, map: Seq<(Seq<char>, RuleView)>, r: RuleView)
    requires
        rules_keyed(map),
    ensures
        rules_keyed(ir::put(map, r.name, r)),
        g.rule_map() == map ==> names_apart(g.rule_list()),
{
    ir::lemma_position(map, r.name);
    let at = ir::position(map, r.name);
    let next = ir::put(map, r.name, r);
    assert forall|i: int, j: int| 0 <= i < j < next.len() implies (#[trigger] next[i]).0 != (
    #[trigger] next[j]).0 by {
        if j < map.len() {
            assert(next[i].0 == map[i].0 && next[j].0 == map[j].0);
        } else {
            assert(next[i] == map[i]);
            assert(map[i].0 != r.name);
        }
    }
    if g.rule_map() == map {
        let rules = g.rule_list();
        assert forall|i: int, j: int| 0 <= i < j < rules.len() implies (#[trigger] rules[i]).name
            != (#[trigger] rules[j]).name by {
            assert(map[i].0 != map[j].0);
        }
    }
}

/// What the `i`th rule is lowered in.
pub open spec fn rule_cx(ag: AnalyzedGrammar, i: int) -> Within {
    let rule = ag.grammar.rule_list()[i];
    let st = program::lowered_rules(ag, i as nat).0;
    let row = sorting::kind_set(program::sync_of(ag, rule.name));
    Within { ag, sync: program::place(st.syncs, row) as u32, rule: rule.name }
}

/// The state in which the `i`th rule is lowered, with a place for its block.
pub open spec fn rule_start(ag: AnalyzedGrammar, i: int) -> Built {
    let rule = ag.grammar.rule_list()[i];
    let st = program::lowered_rules(ag, i as nat).0;
    let row = sorting::kind_set(program::sync_of(ag, rule.name));
    Built {
        blocks: st.blocks.push(program::empty_block(rule.name, rule.name)),
        firsts: st.firsts,
        syncs: program::joined(st.syncs, row),
    }
}

/// What can follow the rule.
pub open spec fn rule_tail(ag: AnalyzedGrammar, rule: RuleView) -> Set<NameSeq> {
    first_follow::set_at(first_follow::firsts(ag.follow_k), rule.name)
}

pub proof fn lemma_next_rule(ag: AnalyzedGrammar, i: int)
    requires
        0 <= i < ag.grammar.rule_list().len(),
    ensures
        ({
            let rule = ag.grammar.rule_list()[i];
            let st = program::lowered_rules(ag, i as nat).0;
            let next = program::lowered_rules(ag, (i + 1) as nat).0;
            let (body, after) = program::emit(
                rule.body,
                rule_tail(ag, rule),
                rule.name,
                rule_cx(ag, i),
                rule_start(ag, i),
            );
            let at = st.blocks.len() as int;
            let kind = program::rule_kind(
                program::public_names(ag.grammar.rule_list()),
                rule.name,
            );
            &&& behind(st, next)
            &&& next.firsts == after.firsts
            &&& at < next.blocks.len() == after.blocks.len()
            &&& next.blocks[at].steps == if rule.is_fragment {
                body
            } else {
                seq![(OpView::Enter(kind), rule.name + ":enter"@)] + body + seq![
                    (OpView::Exit(kind), rule.name + ":exit"@),
                ]
            }
            &&& forall|j: int|
                at < j < next.blocks.len() ==> #[trigger] next.blocks[j] == after.blocks[j]
        }),
{
    let rule = ag.grammar.rule_list()[i];
    let st = program::lowered_rules(ag, i as nat).0;
    let next = program::lowered_rules(ag, (i + 1) as nat).0;
    let cx = rule_cx(ag, i);
    let row = sorting::kind_set(program::sync_of(ag, rule.name));
    let st1 = Built { syncs: program::joined(st.syncs, row), ..st };
    let reserved = rule_start(ag, i);
    let block = program::empty_block(rule.name, rule.name);
    assert(next == program::lowered_rule(ag, rule, cx.sync, st1));
    assert(reserved == (Built { blocks: st1.blocks.push(block), ..st1 }));
    let tail = rule_tail(ag, rule);
    lemma_emit_behind(rule.body, tail, rule.name, cx, reserved);
    let (body, after) = program::emit(rule.body, tail, rule.name, cx, reserved);
    let at = st.blocks.len() as int;
    assert forall|j: int| 0 <= j < st.blocks.len() implies #[trigger] next.blocks[j]
        == st.blocks[j] by {
        assert(after.blocks[j] == reserved.blocks[j]);
    }
    let kind = program::rule_kind(program::public_names(ag.grammar.rule_list()), rule.name);
    let steps = if rule.is_fragment {
        body
    } else {
        seq![(OpView::Enter(kind), rule.name + ":enter"@)] + body + seq![
            (OpView::Exit(kind), rule.name + ":exit"@),
        ]
    };
    assert(next.blocks[at] == program::with_steps(block, steps));
    assert(next.blocks[at].steps =~= steps);
}

pub proof fn lemma_rules_behind(ag: AnalyzedGrammar, n: nat, m: nat)
    requires
        n <= m <= ag.grammar.rule_list().len(),
    ensures
        behind(program::lowered_rules(ag, n).0, program::lowered_rules(ag, m).0),
    decreases m,
{
    if n < m {
        lemma_rules_behind(ag, n, (m - 1) as nat);
        lemma_next_rule(ag, m - 1);
        lemma_behind(
            program::lowered_rules(ag, n).0,
            program::lowered_rules(ag, (m - 1) as nat).0,
            program::lowered_rules(ag, m).0,
        );
    }
}

pub proof fn lemma_entry(ag: AnalyzedGrammar, n: nat, i: int)
    requires
        names_apart(ag.grammar.rule_list()),
        0 <= i < n <= ag.grammar.rule_list().len(),
    ensures
        ({
            let name = ag.grammar.rule_list()[i].name;
            let entries = program::lowered_rules(ag, n).1;
            entries.contains_key(name) && entries[name] == BlockId(
                program::lowered_rules(ag, i as nat).0.blocks.len() as u32,
            )
        }),
    decreases n,
{
    let rules = ag.grammar.rule_list();
    if i < n - 1 {
        lemma_entry(ag, (n - 1) as nat, i);
        assert(rules[i].name != rules[n - 1].name);
    }
}

proof fn lemma_rule_runs(c: Code, s: Reach, ag: AnalyzedGrammar, i: int, w: Seq<Mark>)
    requires
        holds(c, s, ag),
        names_apart(ag.grammar.rule_list()),
        0 <= i < ag.grammar.rule_list().len(),
        c.blocks == program::lowered_rules(ag, ag.grammar.rule_list().len()).0.blocks,
        c.rules == program::lowered_rules(ag, ag.grammar.rule_list().len()).1,
        derivation::rule_gives(
            s.terms,
            derivation::deep(s.terms, s.derived),
            ag.grammar.rule_list()[i],
            w,
        ),
    ensures
        target_runs(
            c,
            TargetView::Rule(ag.grammar.rule_list()[i].name),
            s.run + height(ag.grammar.rule_list()[i].body) + 1,
            taken(w),
        ),
{
    let rules = ag.grammar.rule_list();
    let rule = rules[i];
    let cx = rule_cx(ag, i);
    let reserved = rule_start(ag, i);
    let tail = rule_tail(ag, rule);
    let next = program::lowered_rules(ag, (i + 1) as nat).0;
    let (body, after) = program::emit(rule.body, tail, rule.name, cx, reserved);
    let at = program::lowered_rules(ag, i as nat).0.blocks.len() as int;
    let d = s.run + height(rule.body);
    lemma_next_rule(ag, i);
    lemma_rules_behind(ag, (i + 1) as nat, rules.len());
    lemma_entry(ag, rules.len(), i);
    assert(c.blocks[at] == next.blocks[at]);
    assert(present(c, reserved, after)) by {
        assert forall|j: int| reserved.blocks.len() <= j < after.blocks.len() implies #[trigger]
            c.blocks[j] == after.blocks[j] by {
            assert(c.blocks[j] == next.blocks[j]);
            assert(next.blocks[j] == after.blocks[j]);
        }
    }
    if rule.is_fragment {
        lemma_emit_runs(c, s, rule.body, tail, rule.name, cx, reserved, w);
    } else {
        let v = w.subrange(1, w.len() - 1);
        lemma_emit_runs(c, s, rule.body, tail, rule.name, cx, reserved, v);
        let kind = program::rule_kind(program::public_names(rules), rule.name);
        let enter = (OpView::Enter(kind), rule.name + ":enter"@);
        let exit = (OpView::Exit(kind), rule.name + ":exit"@);
        let none = Seq::<Taken>::empty();
        lemma_one_runs(c, enter, d, none);
        lemma_one_runs(c, exit, d, none);
        lemma_runs_joined(c, seq![enter], body, d, none, taken(v));
        lemma_runs_joined(c, seq![enter] + body, seq![exit], d, none + taken(v), none);
        let a = seq![w[0]];
        let b = seq![w.last()];
        assert(w =~= a + v + b);
        lemma_taken_joined(a + v, b);
        lemma_taken_joined(a, v);
        lemma_taken_one(w[0]);
        lemma_taken_one(w.last());
        assert(taken(w) =~= none + taken(v) + none);
    }
}

proof fn lemma_reached(c: Code, ag: AnalyzedGrammar, t: Terms, d: nat)
    requires
        prefixes::known(t, ag),
        names_apart(ag.grammar.rule_list()),
        c.labels == t.labels,
        c.blocks.len() <= u32::MAX,
        c.blocks == program::lowered_rules(ag, ag.grammar.rule_list().len()).0.blocks,
        c.rules == program::lowered_rules(ag, ag.grammar.rule_list().len()).1,
    ensures
        holds(
            c,
            (Reach { terms: t, derived: d, run: reached(ag.grammar.rule_list(), d) }),
            ag,
        ),
    decreases d,
{
    let rules = ag.grammar.rule_list();
    if d > 0 {
        let run = reached(rules, (d - 1) as nat);
        let s = Reach { terms: t, derived: (d - 1) as nat, run };
        lemma_reached(c, ag, t, (d - 1) as nat);
        assert forall|n: Seq<char>, w: Seq<Mark>| #[trigger]
            derivation::derived_at(t, n, w, d) implies target_runs(
            c,
            TargetView::Rule(n),
            reached(rules, d),
            taken(w),
        ) by {
            let calls = derivation::deep(t, (d - 1) as nat);
            assert(derivation::named_gives(t, calls, n, w));
            let i = choose|i: int|
                0 <= i < t.rules.len() && (#[trigger] t.rules[i]).name == n
                    && derivation::rule_gives(t, calls, t.rules[i], w);
            lemma_rule_runs(c, s, ag, i, w);
            lemma_rules_height(rules, rules.len(), i);
            lemma_target_deeper(
                c,
                TargetView::Rule(n),
                run + height(rules[i].body) + 1,
                reached(rules, d),
                taken(w),
            );
        }
    }
}

/// The code of a program, with the labels in the order of their numbers.
pub open spec fn code_of(prog: Program, labels: Seq<Seq<char>>) -> Code {
    Code { blocks: program::blocks_view(prog.blocks@), rules: prog.rule_entry@, labels }
}

/// Lowering keeps every sentence: whatever a rule derives, some run of its
/// block takes the same tokens under the same labels.
pub proof fn law_every_sentence_has_a_run(
    prog: Program,
    ag: AnalyzedGrammar,
    t: Terms,
    n: Seq<char>,
    w: Seq<Mark>,
)
    requires
        prefixes::known(t, ag),
        names_apart(ag.grammar.rule_list()),
        closed::ids_suffice(ag),
        program::is_program(prog, ag),
        derivation::derives(t, n, w),
    ensures
        exists|d: nat| #[trigger]
            target_runs(code_of(prog, t.labels), TargetView::Rule(n), d, taken(w)),
{
    let c = code_of(prog, t.labels);
    let d = choose|d: nat| #[trigger] derivation::derived_at(t, n, w, d);
    let s = Reach { terms: t, derived: d, run: reached(ag.grammar.rule_list(), d) };
    lemma_reached(c, ag, t, d);
    assert(holds(c, s, ag));
    assert(derivation::derived_at(s.terms, n, w, s.derived));
    assert(target_runs(c, TargetView::Rule(n), s.run, taken(w)));
}

} // verus!
