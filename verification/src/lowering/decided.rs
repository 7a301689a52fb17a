//! The lookahead decides every alternative of a lowered grammar.
use vstd::prelude::*;

use crate::analysis::first_follow;
use crate::analysis::first_set::{self, NameSeq};
use crate::analysis::follow_k;
use crate::analysis::lookahead::{self, Tables};
use crate::analysis::universe;
use crate::analysis::AnalyzedGrammar;
use crate::grammar::ir::{ExprView, RuleView, TokenView};
use crate::lowering::closed;
use crate::lowering::program::{self, Built, OpView, Program, Step, TargetView, Within};
use crate::sorting;
use crate::text;

verus! {

/// No sequence of one set begins one of another.
pub open spec fn told_apart(sets: Seq<Set<NameSeq>>) -> bool {
    forall|p: int, q: int|
        #![trigger sets[p], sets[q]]
        0 <= p < q < sets.len() ==> lookahead::overlap(sets[p], sets[q]) == Set::<NameSeq>::empty()
}

/// The arms are taken on the sequences of the sets.
pub open spec fn taken_on(
    tokens: Seq<TokenView>,
    firsts: Seq<Seq<Seq<u16>>>,
    arms: Seq<(u32, TargetView)>,
    sets: Seq<Set<NameSeq>>,
) -> bool {
    &&& sets.len() == arms.len()
    &&& forall|p: int|
        0 <= p < arms.len() ==> (#[trigger] arms[p]).0 < firsts.len() && firsts[arms[p].0 as int]
            == program::first_row(tokens, sets[p])
}

/// The lookahead tells the arms apart.
pub open spec fn arms_decided(
    tokens: Seq<TokenView>,
    firsts: Seq<Seq<Seq<u16>>>,
    arms: Seq<(u32, TargetView)>,
) -> bool {
    exists|sets: Seq<Set<NameSeq>>|
        #![trigger taken_on(tokens, firsts, arms, sets)]
        taken_on(tokens, firsts, arms, sets) && told_apart(sets)
}

/// If the step is a dispatch, the lookahead tells its arms apart.
pub open spec fn op_decided(
    tokens: Seq<TokenView>,
    firsts: Seq<Seq<Seq<u16>>>,
    op: OpView,
) -> bool {
    match op {
        OpView::Dispatch(arms, _, _) => arms_decided(tokens, firsts, arms),
        _ => true,
    }
}

/// The lookahead tells the arms of every dispatch among the steps apart.
pub open spec fn steps_decided(
    tokens: Seq<TokenView>,
    firsts: Seq<Seq<Seq<u16>>>,
    steps: Seq<Step>,
) -> bool {
    forall|i: int| 0 <= i < steps.len() ==> op_decided(tokens, firsts, (#[trigger] steps[i]).0)
}

/// The lookahead tells the arms of every dispatch apart.
pub open spec fn all_decided(tokens: Seq<TokenView>, st: Built) -> bool {
    forall|b: int|
        0 <= b < st.blocks.len() ==> steps_decided(
            tokens,
            st.firsts,
            (#[trigger] st.blocks[b]).steps,
        )
}

/// The list goes on with more.
pub open spec fn extends(a: Seq<Seq<Seq<u16>>>, b: Seq<Seq<Seq<u16>>>) -> bool {
    a.len() <= b.len() && forall|i: int| 0 <= i < a.len() ==> #[trigger] b[i] == a[i]
}

pub proof fn lemma_extends_trans(
    a: Seq<Seq<Seq<u16>>>,
    b: Seq<Seq<Seq<u16>>>,
    c: Seq<Seq<Seq<u16>>>,
)
    requires
        extends(a, b),
        extends(b, c),
    ensures
        extends(a, c),
{
    assert forall|i: int| 0 <= i < a.len() implies #[trigger] c[i] == a[i] by {
        assert(b[i] == a[i]);
    }
}

pub proof fn lemma_interned(st: Built, ag: AnalyzedGrammar, s: Set<NameSeq>)
    ensures
        extends(st.firsts, program::with_first(st, ag, s).firsts),
        program::with_first(st, ag, s).blocks == st.blocks,
        ({
            let st1 = program::with_first(st, ag, s);
            let at = program::place(
                st.firsts,
                program::first_row(ag.grammar.token_list(), s),
            );
            0 <= at < st1.firsts.len() && st1.firsts[at] == program::first_row(
                ag.grammar.token_list(),
                s,
            )
        }),
{
    program::lemma_place(st.firsts, program::first_row(ag.grammar.token_list(), s));
}

proof fn lemma_op_kept(
    tokens: Seq<TokenView>,
    a: Seq<Seq<Seq<u16>>>,
    b: Seq<Seq<Seq<u16>>>,
    op: OpView,
)
    requires
        extends(a, b),
        op_decided(tokens, a, op),
    ensures
        op_decided(tokens, b, op),
{
    if let OpView::Dispatch(arms, _, _) = op {
        let sets = choose|sets: Seq<Set<NameSeq>>|
            #![trigger taken_on(tokens, a, arms, sets)]
            taken_on(tokens, a, arms, sets) && told_apart(sets);
        assert(taken_on(tokens, b, arms, sets)) by {
            assert forall|p: int| 0 <= p < arms.len() implies (#[trigger] arms[p]).0 < b.len()
                && b[arms[p].0 as int] == program::first_row(tokens, sets[p]) by {
                assert(b[arms[p].0 as int] == a[arms[p].0 as int]);
            }
        }
    }
}

proof fn lemma_steps_kept(
    tokens: Seq<TokenView>,
    a: Seq<Seq<Seq<u16>>>,
    b: Seq<Seq<Seq<u16>>>,
    steps: Seq<Step>,
)
    requires
        extends(a, b),
        steps_decided(tokens, a, steps),
    ensures
        steps_decided(tokens, b, steps),
{
    assert forall|i: int| 0 <= i < steps.len() implies op_decided(
        tokens,
        b,
        (#[trigger] steps[i]).0,
    ) by {
        lemma_op_kept(tokens, a, b, steps[i].0);
    }
}

proof fn lemma_all_kept(tokens: Seq<TokenView>, st: Built, st1: Built)
    requires
        st1.blocks == st.blocks,
        extends(st.firsts, st1.firsts),
        all_decided(tokens, st),
    ensures
        all_decided(tokens, st1),
{
    assert forall|b: int| 0 <= b < st1.blocks.len() implies steps_decided(
        tokens,
        st1.firsts,
        (#[trigger] st1.blocks[b]).steps,
    ) by {
        assert(steps_decided(tokens, st.firsts, st.blocks[b].steps));
        lemma_steps_kept(tokens, st.firsts, st1.firsts, st.blocks[b].steps);
    }
}

/// The tables of an analyzed grammar.
pub open spec fn tables(ag: AnalyzedGrammar) -> Tables {
    Tables { nulls: ag.nullable@, firsts: first_follow::firsts(ag.first), k: ag.k as nat }
}

/// FIRST sets hold nothing longer than the lookahead.
pub proof fn lemma_short(ag: AnalyzedGrammar, e: ExprView)
    requires
        ag.wf(),
    ensures
        forall|s: NameSeq| #[trigger] program::first_in(ag, e).contains(s) ==> s.len() <= ag.k,
{
    let k = ag.k as nat;
    let all = Set::<Seq<char>>::full();
    let u = universe::all_seqs(all, k);
    let n2 = Map::<Seq<char>, bool>::new(|n: Seq<char>| true, |n: Seq<char>| true);
    let f2 = Map::<Seq<char>, Set<NameSeq>>::new(|n: Seq<char>| true, |n: Seq<char>| u);
    let rules = ag.grammar.rule_list();
    assert forall|n: Seq<char>| (#[trigger] first_follow::set_at(f2, n)).subset_of(u) by {}
    assert forall|i: int| 0 <= i < rules.len() implies first_follow::rule_closed(
        #[trigger] rules[i],
        k,
        n2,
        f2,
    ) by {
        first_follow::lemma_first_bounded(rules[i].body, n2, f2, k, all, k);
    }
    assert(first_follow::first_closed(rules, k, n2, f2));
    let f = first_follow::firsts(ag.first);
    assert forall|n: Seq<char>| (#[trigger] first_follow::set_at(f, n)).subset_of(u) by {
        assert(first_follow::set_at(f, n).subset_of(first_follow::set_at(f2, n)));
    }
    first_follow::lemma_first_bounded(e, ag.nullable@, f, k, all, k);
    assert forall|s: NameSeq| #[trigger] program::first_in(ag, e).contains(s) implies s.len()
        <= ag.k by {
        assert(u.contains(s));
    }
}

/// Alternatives without conflicts do not overlap.
proof fn lemma_row(
    t: Tables,
    xs: Seq<ExprView>,
    tail: Set<NameSeq>,
    r: RuleView,
    i: int,
    from: int,
    j: int,
)
    requires
        0 <= from <= j < xs.len(),
        lookahead::row_conflicts(t, xs, tail, r, i, from).len() == 0,
    ensures
        lookahead::overlap(
            lookahead::predict(t, xs[i], tail),
            lookahead::predict(t, xs[j], tail),
        ) == Set::<NameSeq>::empty(),
    decreases j - from,
{
    let both = lookahead::overlap(
        lookahead::predict(t, xs[i], tail),
        lookahead::predict(t, xs[from], tail),
    );
    if both != Set::<NameSeq>::empty() {
        assert(lookahead::row_conflicts(t, xs, tail, r, i, from).len() >= 1);
    }
    if from < j {
        lemma_row(t, xs, tail, r, i, from + 1, j);
    }
}

/// Alternatives without a conflict predict on different sequences.
pub proof fn lemma_pairs(
    t: Tables,
    xs: Seq<ExprView>,
    tail: Set<NameSeq>,
    r: RuleView,
    from: int,
    i: int,
    j: int,
)
    requires
        0 <= from <= i < j < xs.len(),
        lookahead::arm_conflicts(t, xs, tail, r, from).len() == 0,
    ensures
        lookahead::overlap(
            lookahead::predict(t, xs[i], tail),
            lookahead::predict(t, xs[j], tail),
        ) == Set::<NameSeq>::empty(),
    decreases i - from,
{
    if from < i {
        lemma_pairs(t, xs, tail, r, from + 1, i, j);
    } else {
        lemma_row(t, xs, tail, r, i, i + 1, j);
    }
}

/// What is needed of the place where an expression is emitted.
spec fn set_up(cx: Within, st: Built, after: Built) -> bool {
    &&& cx.ag.wf()
    &&& all_decided(cx.ag.grammar.token_list(), st)
    &&& after.firsts.len() <= u32::MAX
}

/// What emission gives.
spec fn came_out(cx: Within, st: Built, after: Built) -> bool {
    all_decided(cx.ag.grammar.token_list(), after) && extends(st.firsts, after.firsts)
}

pub proof fn lemma_emit_extends(
    e: ExprView,
    tail: Set<NameSeq>,
    sym: Seq<char>,
    cx: Within,
    st: Built,
)
    ensures
        extends(st.firsts, program::emit(e, tail, sym, cx, st).1.firsts),
        st.blocks.len() <= program::emit(e, tail, sym, cx, st).1.blocks.len(),
    decreases e, 0nat,
{
    match e {
        ExprView::Concat(xs) => lemma_items_extend(xs, xs.len(), tail, sym, cx, st),
        ExprView::Alt(xs) => lemma_arms_extend(xs, xs.len(), tail, sym, cx, st),
        ExprView::Opt(x) => {
            let first = program::first_in(cx.ag, *x);
            let st1 = program::with_first(st, cx.ag, first);
            lemma_interned(st, cx.ag, first);
            lemma_sub_extends(*x, tail, sym + ":opt-body"@, cx, st1);
            lemma_extends_trans(
                st.firsts,
                st1.firsts,
                program::emit_sub(*x, tail, sym + ":opt-body"@, cx, st1).firsts,
            );
        },
        ExprView::Star(x) => {
            let first = program::first_in(cx.ag, *x);
            let st1 = program::with_first(st, cx.ag, first);
            let inner = program::looped(cx.ag, *x, tail);
            lemma_interned(st, cx.ag, first);
            lemma_sub_extends(*x, inner, sym + ":star-body"@, cx, st1);
            lemma_extends_trans(
                st.firsts,
                st1.firsts,
                program::emit_sub(*x, inner, sym + ":star-body"@, cx, st1).firsts,
            );
        },
        ExprView::Plus(x) => {
            let first = program::first_in(cx.ag, *x);
            let st1 = program::with_first(st, cx.ag, first);
            let inner = program::looped(cx.ag, *x, tail);
            lemma_interned(st, cx.ag, first);
            lemma_sub_extends(*x, inner, sym + ":plus-body"@, cx, st1);
            lemma_extends_trans(
                st.firsts,
                st1.firsts,
                program::emit_sub(*x, inner, sym + ":plus-body"@, cx, st1).firsts,
            );
        },
        ExprView::Label(_, x) => {
            if !(*x is Token) {
                lemma_emit_extends(*x, tail, sym, cx, st);
            }
        },
        _ => {},
    }
}

pub proof fn lemma_sub_extends(
    e: ExprView,
    tail: Set<NameSeq>,
    label: Seq<char>,
    cx: Within,
    st: Built,
)
    ensures
        extends(st.firsts, program::emit_sub(e, tail, label, cx, st).firsts),
        st.blocks.len() <= program::emit_sub(e, tail, label, cx, st).blocks.len(),
    decreases e, 1nat,
{
    let block = program::empty_block(label, cx.rule);
    lemma_emit_extends(e, tail, label, cx, Built { blocks: st.blocks.push(block), ..st });
}

pub proof fn lemma_items_extend(
    xs: Seq<ExprView>,
    n: nat,
    tail: Set<NameSeq>,
    sym: Seq<char>,
    cx: Within,
    st: Built,
)
    ensures
        extends(st.firsts, program::emit_items(xs, n, tail, sym, cx, st).1.firsts),
        st.blocks.len() <= program::emit_items(xs, n, tail, sym, cx, st).1.blocks.len(),
    decreases xs, n,
{
    if 0 < n <= xs.len() {
        lemma_items_extend(xs, (n - 1) as nat, tail, sym, cx, st);
        let mid = program::emit_items(xs, (n - 1) as nat, tail, sym, cx, st).1;
        let rest = follow_k::rest_then(
            xs,
            n as int,
            tail,
            cx.ag.nullable@,
            first_follow::firsts(cx.ag.first),
            cx.ag.k as nat,
        );
        lemma_emit_extends(xs[n - 1], rest, sym, cx, mid);
        lemma_extends_trans(
            st.firsts,
            mid.firsts,
            program::emit(xs[n - 1], rest, sym, cx, mid).1.firsts,
        );
    }
}

pub proof fn lemma_arms_extend(
    xs: Seq<ExprView>,
    n: nat,
    tail: Set<NameSeq>,
    sym: Seq<char>,
    cx: Within,
    st: Built,
)
    ensures
        extends(st.firsts, program::emit_arms(xs, n, tail, sym, cx, st).1.firsts),
        st.blocks.len() <= program::emit_arms(xs, n, tail, sym, cx, st).1.blocks.len(),
    decreases xs, n,
{
    if 0 < n <= xs.len() {
        lemma_arms_extend(xs, (n - 1) as nat, tail, sym, cx, st);
        let mid = program::emit_arms(xs, (n - 1) as nat, tail, sym, cx, st).1;
        let first = program::first_in(cx.ag, xs[n - 1]);
        if !first.subset_of(first_follow::only_eps()) {
            let predict = first_set::concat_k_of(first, tail, cx.ag.k as nat).remove(Seq::empty());
            let st1 = program::with_first(mid, cx.ag, predict);
            let label = sym + ":alt"@ + text::decimal((n - 1) as nat);
            lemma_interned(mid, cx.ag, predict);
            lemma_sub_extends(xs[n - 1], tail, label, cx, st1);
            let after = program::emit_sub(xs[n - 1], tail, label, cx, st1);
            lemma_extends_trans(mid.firsts, st1.firsts, after.firsts);
            lemma_extends_trans(st.firsts, mid.firsts, after.firsts);
        }
    }
}

proof fn lemma_emit_decided(
    e: ExprView,
    tail: Set<NameSeq>,
    sym: Seq<char>,
    cx: Within,
    st: Built,
    r: RuleView,
)
    requires
        set_up(cx, st, program::emit(e, tail, sym, cx, st).1),
        lookahead::expr_conflicts(tables(cx.ag), e, tail, r).len() == 0,
    ensures
        ({
            let (steps, after) = program::emit(e, tail, sym, cx, st);
            &&& came_out(cx, st, after)
            &&& steps_decided(cx.ag.grammar.token_list(), after.firsts, steps)
        }),
    decreases e, 0nat,
{
    let tokens = cx.ag.grammar.token_list();
    lemma_emit_extends(e, tail, sym, cx, st);
    match e {
        ExprView::Concat(xs) => lemma_items_decided(xs, xs.len(), tail, sym, cx, st, r),
        ExprView::Alt(xs) => {
            let t = tables(cx.ag);
            let k = cx.ag.k as nat;
            assert(lookahead::alt_conflicts(t, xs, tail, r, xs.len()).len() == 0);
            assert(lookahead::arm_conflicts(t, xs, tail, r, 0).len() == 0);
            let idx = lemma_arms_decided(xs, xs.len(), tail, sym, cx, st, r);
            let (arms, after) = program::emit_arms(xs, xs.len(), tail, sym, cx, st);
            let sets = Seq::new(arms.len(), |p: int| foreseen(cx, xs[idx[p]], tail));
            assert forall|p: int, q: int|
                #![trigger sets[p], sets[q]]
                0 <= p < q < sets.len() implies lookahead::overlap(sets[p], sets[q]) == Set::<
                NameSeq,
            >::empty() by {
                let (i, j) = (idx[p], idx[q]);
                lemma_pairs(t, xs, tail, r, 0, i, j);
            }
            assert(taken_on(tokens, after.firsts, arms, sets));
            assert(told_apart(sets));
            assert(arms_decided(tokens, after.firsts, arms));
        },
        ExprView::Opt(x) => {
            let first = program::first_in(cx.ag, *x);
            let st1 = program::with_first(st, cx.ag, first);
            lemma_interned(st, cx.ag, first);
            lemma_all_kept(tokens, st, st1);
            lemma_sub_decided(*x, tail, sym + ":opt-body"@, cx, st1, r);
        },
        ExprView::Star(x) => {
            let first = program::first_in(cx.ag, *x);
            let st1 = program::with_first(st, cx.ag, first);
            let inner = program::looped(cx.ag, *x, tail);
            lemma_interned(st, cx.ag, first);
            lemma_all_kept(tokens, st, st1);
            lemma_sub_decided(*x, inner, sym + ":star-body"@, cx, st1, r);
        },
        ExprView::Plus(x) => {
            let first = program::first_in(cx.ag, *x);
            let st1 = program::with_first(st, cx.ag, first);
            let inner = program::looped(cx.ag, *x, tail);
            lemma_interned(st, cx.ag, first);
            lemma_all_kept(tokens, st, st1);
            lemma_sub_decided(*x, inner, sym + ":plus-body"@, cx, st1, r);
        },
        ExprView::Label(_, x) => {
            if !(*x is Token) {
                lemma_emit_decided(*x, tail, sym, cx, st, r);
            }
        },
        _ => {},
    }
}

/// What an alternative is taken on.
spec fn foreseen(cx: Within, x: ExprView, tail: Set<NameSeq>) -> Set<NameSeq> {
    first_set::concat_k_of(program::first_in(cx.ag, x), tail, cx.ag.k as nat).remove(Seq::empty())
}

proof fn lemma_sub_decided(
    e: ExprView,
    tail: Set<NameSeq>,
    label: Seq<char>,
    cx: Within,
    st: Built,
    r: RuleView,
)
    requires
        set_up(cx, st, program::emit_sub(e, tail, label, cx, st)),
        lookahead::expr_conflicts(tables(cx.ag), e, tail, r).len() == 0,
    ensures
        came_out(cx, st, program::emit_sub(e, tail, label, cx, st)),
    decreases e, 1nat,
{
    let tokens = cx.ag.grammar.token_list();
    let block = program::empty_block(label, cx.rule);
    let reserved = Built { blocks: st.blocks.push(block), ..st };
    assert forall|b: int| 0 <= b < reserved.blocks.len() implies steps_decided(
        tokens,
        reserved.firsts,
        (#[trigger] reserved.blocks[b]).steps,
    ) by {
        if b < st.blocks.len() {
            assert(steps_decided(tokens, st.firsts, st.blocks[b].steps));
        }
    }
    lemma_emit_extends(e, tail, label, cx, reserved);
    lemma_emit_decided(e, tail, label, cx, reserved, r);
    let (steps, after) = program::emit(e, tail, label, cx, reserved);
    let out = program::emit_sub(e, tail, label, cx, st);
    assert forall|b: int| 0 <= b < out.blocks.len() implies steps_decided(
        tokens,
        out.firsts,
        (#[trigger] out.blocks[b]).steps,
    ) by {
        if b == st.blocks.len() {
            assert(out.blocks[b].steps =~= steps);
        } else {
            assert(out.blocks[b] == after.blocks[b]);
        }
    }
}

proof fn lemma_items_decided(
    xs: Seq<ExprView>,
    n: nat,
    tail: Set<NameSeq>,
    sym: Seq<char>,
    cx: Within,
    st: Built,
    r: RuleView,
)
    requires
        n <= xs.len(),
        set_up(cx, st, program::emit_items(xs, n, tail, sym, cx, st).1),
        lookahead::seq_conflicts(tables(cx.ag), xs, tail, r, n).len() == 0,
    ensures
        ({
            let (steps, after) = program::emit_items(xs, n, tail, sym, cx, st);
            &&& came_out(cx, st, after)
            &&& steps_decided(cx.ag.grammar.token_list(), after.firsts, steps)
        }),
    decreases xs, n,
{
    let tokens = cx.ag.grammar.token_list();
    if n > 0 {
        let f = first_follow::firsts(cx.ag.first);
        let k = cx.ag.k as nat;
        let (before, mid) = program::emit_items(xs, (n - 1) as nat, tail, sym, cx, st);
        let rest = follow_k::rest_then(xs, n as int, tail, cx.ag.nullable@, f, k);
        let (here, after) = program::emit(xs[n - 1], rest, sym, cx, mid);
        lemma_emit_extends(xs[n - 1], rest, sym, cx, mid);
        lemma_items_decided(xs, (n - 1) as nat, tail, sym, cx, st, r);
        lemma_emit_decided(xs[n - 1], rest, sym, cx, mid, r);
        lemma_steps_kept(tokens, mid.firsts, after.firsts, before);
        lemma_extends_trans(st.firsts, mid.firsts, after.firsts);
        let steps = before + here;
        assert forall|i: int| 0 <= i < steps.len() implies op_decided(
            tokens,
            after.firsts,
            (#[trigger] steps[i]).0,
        ) by {
            if i < before.len() {
                assert(steps[i] == before[i]);
            } else {
                assert(steps[i] == here[i - before.len()]);
            }
        }
    }
}

proof fn lemma_arms_decided(
    xs: Seq<ExprView>,
    n: nat,
    tail: Set<NameSeq>,
    sym: Seq<char>,
    cx: Within,
    st: Built,
    r: RuleView,
) -> (idx: Seq<int>)
    requires
        n <= xs.len(),
        set_up(cx, st, program::emit_arms(xs, n, tail, sym, cx, st).1),
        lookahead::alt_conflicts(tables(cx.ag), xs, tail, r, n).len() == 0,
    ensures
        ({
            let (arms, after) = program::emit_arms(xs, n, tail, sym, cx, st);
            let tokens = cx.ag.grammar.token_list();
            &&& came_out(cx, st, after)
            &&& idx.len() == arms.len()
            &&& forall|p: int| 0 <= p < idx.len() ==> 0 <= #[trigger] idx[p] < n
            &&& forall|p: int, q: int|
                0 <= p < q < idx.len() ==> #[trigger] idx[p] < #[trigger] idx[q]
            &&& forall|p: int|
                0 <= p < arms.len() ==> (#[trigger] arms[p]).0 < after.firsts.len()
                    && after.firsts[arms[p].0 as int] == program::first_row(
                    tokens,
                    foreseen(cx, xs[idx[p]], tail),
                )
        }),
    decreases xs, n,
{
    let tokens = cx.ag.grammar.token_list();
    if n == 0 {
        Seq::empty()
    } else {
        let (before, mid) = program::emit_arms(xs, (n - 1) as nat, tail, sym, cx, st);
        let x = xs[n - 1];
        let first = program::first_in(cx.ag, x);
        if first.subset_of(first_follow::only_eps()) {
            lemma_arms_decided(xs, (n - 1) as nat, tail, sym, cx, st, r)
        } else {
            let predict = foreseen(cx, x, tail);
            let st1 = program::with_first(mid, cx.ag, predict);
            let label = sym + ":alt"@ + text::decimal((n - 1) as nat);
            let after = program::emit_sub(x, tail, label, cx, st1);
            lemma_interned(mid, cx.ag, predict);
            lemma_sub_extends(x, tail, label, cx, st1);
            lemma_extends_trans(mid.firsts, st1.firsts, after.firsts);
            let idx0 = lemma_arms_decided(xs, (n - 1) as nat, tail, sym, cx, st, r);
            lemma_extends_trans(st.firsts, mid.firsts, after.firsts);
            lemma_all_kept(tokens, mid, st1);
            lemma_sub_decided(x, tail, label, cx, st1, r);
            let idx = idx0.push(n - 1);
            let arms = program::emit_arms(xs, n, tail, sym, cx, st).0;
            assert forall|p: int| 0 <= p < arms.len() implies (#[trigger] arms[p]).0
                < after.firsts.len() && after.firsts[arms[p].0 as int] == program::first_row(
                tokens,
                foreseen(cx, xs[idx[p]], tail),
            ) by {
                if p < before.len() {
                    assert(arms[p] == before[p]);
                    assert(idx[p] == idx0[p]);
                    assert(after.firsts[arms[p].0 as int] == mid.firsts[arms[p].0 as int]);
                } else {
                    let at = program::place(mid.firsts, program::first_row(tokens, predict));
                    assert(arms[p].0 == at);
                    assert(after.firsts[at] == st1.firsts[at]);
                }
            }
            assert forall|p: int, q: int| 0 <= p < q < idx.len() implies #[trigger] idx[p]
                < #[trigger] idx[q] by {
                assert(idx[p] == idx0[p]);
                if q < idx0.len() {
                    assert(idx[q] == idx0[q]);
                }
            }
            assert forall|p: int| 0 <= p < idx.len() implies 0 <= #[trigger] idx[p] < n by {
                if p < idx0.len() {
                    assert(idx[p] == idx0[p]);
                }
            }
            idx
        }
    }
}

pub proof fn lemma_rules_extend(ag: AnalyzedGrammar, n: nat, m: nat)
    requires
        n <= m <= ag.grammar.rule_list().len(),
    ensures
        extends(
            program::lowered_rules(ag, n).0.firsts,
            program::lowered_rules(ag, m).0.firsts,
        ),
    decreases m,
{
    if n < m {
        lemma_rules_extend(ag, n, (m - 1) as nat);
        let rules = ag.grammar.rule_list();
        let st = program::lowered_rules(ag, (m - 1) as nat).0;
        let rule = rules[m - 1];
        let row = sorting::kind_set(program::sync_of(ag, rule.name));
        let sync = program::place(st.syncs, row) as u32;
        let st1 = Built { syncs: program::joined(st.syncs, row), ..st };
        let cx = Within { ag, sync, rule: rule.name };
        let block = program::empty_block(rule.name, rule.name);
        let reserved = Built { blocks: st1.blocks.push(block), ..st1 };
        let tail = first_follow::set_at(first_follow::firsts(ag.follow_k), rule.name);
        lemma_emit_extends(rule.body, tail, rule.name, cx, reserved);
        assert(program::lowered_rules(ag, m).0 == program::lowered_rule(ag, rule, sync, st1));
        lemma_extends_trans(
            program::lowered_rules(ag, n).0.firsts,
            st.firsts,
            program::lowered_rules(ag, m).0.firsts,
        );
    }
}

proof fn lemma_rules_decided(ag: AnalyzedGrammar, n: nat)
    requires
        ag.wf(),
        n <= ag.grammar.rule_list().len(),
        program::lowered_rules(ag, n).0.firsts.len() <= u32::MAX,
        lookahead::rules_conflicts(
            tables(ag),
            ag.grammar.rule_list(),
            first_follow::firsts(ag.follow_k),
            n,
        ).len() == 0,
    ensures
        all_decided(ag.grammar.token_list(), program::lowered_rules(ag, n).0),
    decreases n,
{
    let tokens = ag.grammar.token_list();
    let rules = ag.grammar.rule_list();
    if n > 0 {
        let st = program::lowered_rules(ag, (n - 1) as nat).0;
        lemma_rules_extend(ag, (n - 1) as nat, n);
        lemma_rules_decided(ag, (n - 1) as nat);
        let rule = rules[n - 1];
        let row = sorting::kind_set(program::sync_of(ag, rule.name));
        let sync = program::place(st.syncs, row) as u32;
        let st1 = Built { syncs: program::joined(st.syncs, row), ..st };
        let cx = Within { ag, sync, rule: rule.name };
        let block = program::empty_block(rule.name, rule.name);
        let reserved = Built { blocks: st1.blocks.push(block), ..st1 };
        let tail = first_follow::set_at(first_follow::firsts(ag.follow_k), rule.name);
        assert forall|b: int| 0 <= b < reserved.blocks.len() implies steps_decided(
            tokens,
            reserved.firsts,
            (#[trigger] reserved.blocks[b]).steps,
        ) by {
            if b < st.blocks.len() {
                assert(steps_decided(tokens, st.firsts, st.blocks[b].steps));
            }
        }
        let (body, after) = program::emit(rule.body, tail, rule.name, cx, reserved);
        let out = program::lowered_rules(ag, n).0;
        assert(out == program::lowered_rule(ag, rule, sync, st1));
        lemma_emit_extends(rule.body, tail, rule.name, cx, reserved);
        lemma_emit_decided(rule.body, tail, rule.name, cx, reserved, rule);
        assert forall|b: int| 0 <= b < out.blocks.len() implies steps_decided(
            tokens,
            out.firsts,
            (#[trigger] out.blocks[b]).steps,
        ) by {
            if b == st.blocks.len() {
                let steps = out.blocks[b].steps;
                if rule.is_fragment {
                    assert(steps =~= body);
                } else {
                    assert forall|i: int| 0 <= i < steps.len() implies op_decided(
                        tokens,
                        out.firsts,
                        (#[trigger] steps[i]).0,
                    ) by {
                        if 0 < i < steps.len() - 1 {
                            assert(steps[i] == body[i - 1]);
                        }
                    }
                }
            } else {
                assert(out.blocks[b] == after.blocks[b]);
            }
        }
    }
}

/// Where the search for a lookahead came to an end, there is no conflict.
pub proof fn lemma_no_conflicts(ag: AnalyzedGrammar)
    requires
        ag.wf(),
        lookahead::solved_at(ag.grammar.rule_list(), ag.k as nat),
    ensures
        lookahead::rules_conflicts(
            tables(ag),
            ag.grammar.rule_list(),
            first_follow::firsts(ag.follow_k),
            ag.grammar.rule_list().len(),
        ).len() == 0,
{
    let rules = ag.grammar.rule_list();
    let k = ag.k as nat;
    let fo = first_follow::firsts(ag.follow_k);
    let cs = lookahead::rules_conflicts(tables(ag), rules, fo, rules.len());
    assert(lookahead::conflicts_of(rules, k, cs)) by {
        assert(follow_k::is_follow_k(
            rules,
            k,
            ag.nullable@,
            first_follow::firsts(ag.first),
            fo,
        ));
    }
    lookahead::lemma_conflicts_unique(rules, k, cs, cs);
}

/// Where the analysis found no conflict, the lookahead decides every
/// alternative: of the sequences that the arms of a dispatch are taken on,
/// none of one arm begins one of another.
pub proof fn law_lookahead_decides(prog: Program, ag: AnalyzedGrammar)
    requires
        ag.wf(),
        lookahead::solved_at(ag.grammar.rule_list(), ag.k as nat),
        closed::ids_suffice(ag),
        program::is_program(prog, ag),
    ensures
        forall|b: int, i: int|
            0 <= b < prog.blocks@.len() && 0 <= i < prog.blocks@[b].ops@.len() ==> op_decided(
                ag.grammar.token_list(),
                program::first_rows(prog.first_sets@),
                (#[trigger] prog.blocks@[b].ops@[i])@,
            ),
{
    let rules = ag.grammar.rule_list();
    lemma_no_conflicts(ag);
    lemma_rules_decided(ag, rules.len());
    let st = program::lowered_rules(ag, rules.len()).0;
    let blocks = program::blocks_view(prog.blocks@);
    assert forall|b: int, i: int|
        0 <= b < prog.blocks@.len() && 0 <= i < prog.blocks@[b].ops@.len() implies op_decided(
        ag.grammar.token_list(),
        program::first_rows(prog.first_sets@),
        (#[trigger] prog.blocks@[b].ops@[i])@,
    ) by {
        assert(blocks[b] == prog.blocks@[b]@);
        assert(steps_decided(ag.grammar.token_list(), st.firsts, st.blocks[b].steps));
        assert(st.blocks[b].steps[i].0 == prog.blocks@[b].ops@[i]@);
    }
}

} // verus!
