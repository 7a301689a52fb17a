//! What the blocks of a program stand for: each gives marks that the grammar
//! derives.
use vstd::prelude::*;

use crate::analysis::first_follow;
use crate::analysis::first_set::{self, NameSeq};
use crate::analysis::follow_k;
use crate::analysis::AnalyzedGrammar;
use crate::grammar::ir::{ExprView, RuleView};
use crate::lowering::derivation::{self, Calls, Mark, Marks, Terms};
use crate::lowering::layout;
use crate::lowering::program::{self, BlockView, Built, OpView, Step, TargetView, Within};
use crate::sorting;
use crate::text;

verus! {

/// What a block stands for: a whole rule, or a part of the body of one.
pub ghost enum Sense {
    Rule(RuleView),
    Part(ExprView),
}

/// What derivations speak of, what the rules derive, and what each block
/// stands for.
pub ghost struct Senses {
    pub terms: Terms,
    pub calls: Calls,
    pub blocks: Seq<Sense>,
}

/// What the sense derives.
pub open spec fn sense_gives(s: Senses, x: Sense, w: Seq<Mark>) -> bool {
    match x {
        Sense::Rule(r) => derivation::rule_gives(s.terms, s.calls, r, w),
        Sense::Part(e) => derivation::gives(s.terms, s.calls, e, w),
    }
}

/// What the target of a step derives.
pub open spec fn target_gives(s: Senses, t: TargetView, w: Seq<Mark>) -> bool {
    match t {
        TargetView::Rule(n) => (s.calls)(n, w),
        TargetView::Block(b) => b < s.blocks.len() && sense_gives(s, s.blocks[b as int], w),
    }
}

/// What the target of a step derives, as a language.
pub open spec fn target_given(s: Senses, t: TargetView) -> Marks {
    |w: Seq<Mark>| target_gives(s, t, w)
}

/// What a step gives.
pub open spec fn op_gives(s: Senses, op: OpView, w: Seq<Mark>) -> bool {
    match op {
        OpView::Enter(k) => w == seq![Mark::Enter(k)],
        OpView::Exit(k) => w == seq![Mark::Exit(k)],
        OpView::Expect(k, _, _, label) => w == seq![
            Mark::Token(k, layout::label_id(s.terms.labels, label)),
        ],
        OpView::Call(t) => target_gives(s, t, w),
        OpView::Opt(_, t) => w.len() == 0 || target_gives(s, t, w),
        OpView::Star(_, t) => derivation::repeated(target_given(s, t), w),
        OpView::Dispatch(arms, has_eps, _) => {
            ||| exists|i: int| 0 <= i < arms.len() && target_gives(s, (#[trigger] arms[i]).1, w)
            ||| has_eps && w.len() == 0
        },
    }
}

/// What steps give one behind the other.
pub open spec fn steps_give(s: Senses, steps: Seq<Step>, w: Seq<Mark>) -> bool
    decreases steps.len(),
{
    if steps.len() == 0 {
        w.len() == 0
    } else {
        exists|m: int|
            0 <= m <= w.len() && op_gives(s, steps[0].0, #[trigger] w.take(m)) && steps_give(
                s,
                steps.skip(1),
                w.skip(m),
            )
    }
}

/// What steps give, as a language.
pub open spec fn steps_given(s: Senses, steps: Seq<Step>) -> Marks {
    |w: Seq<Mark>| steps_give(s, steps, w)
}

/// The steps give no more than the expression derives.
pub open spec fn steps_fit(s: Senses, steps: Seq<Step>, e: ExprView) -> bool {
    forall|w: Seq<Mark>| #[trigger]
        steps_given(s, steps)(w) ==> derivation::gives(s.terms, s.calls, e, w)
}

/// The block gives no more than what it stands for derives.
pub open spec fn block_fits(s: Senses, b: BlockView, x: Sense) -> bool {
    forall|w: Seq<Mark>| #[trigger] steps_given(s, b.steps)(w) ==> sense_gives(s, x, w)
}

/// The parts of an expression that get a block of their own.
pub open spec fn parts(ag: AnalyzedGrammar, e: ExprView) -> Seq<ExprView>
    decreases e, 0nat,
{
    match e {
        ExprView::Concat(xs) => item_parts(ag, xs, xs.len()),
        ExprView::Alt(xs) => arm_parts(ag, xs, xs.len()),
        ExprView::Opt(x) => seq![*x] + parts(ag, *x),
        ExprView::Star(x) => seq![*x] + parts(ag, *x),
        ExprView::Plus(x) => seq![*x] + parts(ag, *x),
        ExprView::Label(_, x) => match *x {
            ExprView::Token(_) => Seq::empty(),
            _ => parts(ag, *x),
        },
        _ => Seq::empty(),
    }
}

/// Those of the first `n` expressions of a sequence.
pub open spec fn item_parts(ag: AnalyzedGrammar, xs: Seq<ExprView>, n: nat) -> Seq<ExprView>
    decreases xs, n,
{
    if n == 0 || n > xs.len() {
        Seq::empty()
    } else {
        item_parts(ag, xs, (n - 1) as nat) + parts(ag, xs[n - 1])
    }
}

/// Those of the first `n` alternatives, and the alternatives themselves.
pub open spec fn arm_parts(ag: AnalyzedGrammar, xs: Seq<ExprView>, n: nat) -> Seq<ExprView>
    decreases xs, n,
{
    if n == 0 || n > xs.len() {
        Seq::empty()
    } else {
        let before = arm_parts(ag, xs, (n - 1) as nat);
        if program::first_in(ag, xs[n - 1]).subset_of(first_follow::only_eps()) {
            before
        } else {
            before + (seq![xs[n - 1]] + parts(ag, xs[n - 1]))
        }
    }
}

/// The blocks from `from` on stand for the parts.
pub open spec fn stand_for(s: Senses, from: int, l: Seq<ExprView>) -> bool {
    &&& from + l.len() <= s.blocks.len() <= u32::MAX
    &&& forall|j: int| 0 <= j < l.len() ==> #[trigger] s.blocks[from + j] == Sense::Part(l[j])
}

/// Emission went on from `st` to `after`: what was there is still there, and
/// the new blocks are as many as the parts and give what they stand for.
pub open spec fn went_on(s: Senses, st: Built, after: Built, l: Seq<ExprView>) -> bool {
    &&& after.blocks.len() == st.blocks.len() + l.len()
    &&& forall|j: int| 0 <= j < st.blocks.len() ==> #[trigger] after.blocks[j] == st.blocks[j]
    &&& forall|j: int|
        st.blocks.len() <= j < after.blocks.len() ==> block_fits(
            s,
            #[trigger] after.blocks[j],
            s.blocks[j],
        )
}

proof fn lemma_one_step(s: Senses, step: Step, w: Seq<Mark>)
    ensures
        steps_give(s, seq![step], w) == op_gives(s, step.0, w),
{
    reveal_with_fuel(steps_give, 2);
    let one = seq![step];
    assert(one.skip(1) =~= Seq::<Step>::empty());
    if steps_give(s, one, w) {
        let m = choose|m: int|
            0 <= m <= w.len() && op_gives(s, one[0].0, #[trigger] w.take(m)) && steps_give(
                s,
                one.skip(1),
                w.skip(m),
            );
        assert(w.take(m) =~= w);
    }
    if op_gives(s, step.0, w) {
        assert(w.take(w.len() as int) =~= w);
        assert(w.skip(w.len() as int).len() == 0);
    }
}

/// Steps behind steps give a word behind a word.
proof fn lemma_steps_joined(s: Senses, a: Seq<Step>, b: Seq<Step>, w: Seq<Mark>) -> (m: int)
    requires
        steps_give(s, a + b, w),
    ensures
        0 <= m <= w.len(),
        steps_give(s, a, w.take(m)),
        steps_give(s, b, w.skip(m)),
    decreases a.len(),
{
    if a.len() == 0 {
        assert(a + b =~= b);
        assert(w.skip(0) =~= w);
        0
    } else {
        let m = choose|m: int|
            0 <= m <= w.len() && op_gives(s, (a + b)[0].0, #[trigger] w.take(m)) && steps_give(
                s,
                (a + b).skip(1),
                w.skip(m),
            );
        assert((a + b).skip(1) =~= a.skip(1) + b);
        let v = w.skip(m);
        let n = lemma_steps_joined(s, a.skip(1), b, v);
        let x = w.take(m + n);
        assert(x.take(m) =~= w.take(m));
        assert(x.skip(m) =~= v.take(n));
        assert(w.skip(m + n) =~= v.skip(n));
        assert((a + b)[0] == a[0]);
        m + n
    }
}

/// The senses fit the grammar.
pub open spec fn suits(s: Senses, ag: AnalyzedGrammar) -> bool {
    &&& ag.wf()
    &&& s.terms.rules == ag.grammar.rule_list()
    &&& s.terms.tokens == ag.grammar.token_list()
    &&& derivation::closed_calls(s.terms, s.calls)
}

proof fn lemma_emit_fits(
    s: Senses,
    e: ExprView,
    tail: Set<NameSeq>,
    sym: Seq<char>,
    cx: Within,
    st: Built,
)
    requires
        suits(s, cx.ag),
        stand_for(s, st.blocks.len() as int, parts(cx.ag, e)),
    ensures
        ({
            let (steps, after) = program::emit(e, tail, sym, cx, st);
            &&& steps_fit(s, steps, e)
            &&& went_on(s, st, after, parts(cx.ag, e))
        }),
    decreases e, 0nat,
{
    let (steps, after) = program::emit(e, tail, sym, cx, st);
    let at = st.blocks.len() as int;
    match e {
        ExprView::Concat(xs) => {
            lemma_items_fit(s, xs, xs.len(), tail, sym, cx, st);
            assert(xs.take(xs.len() as int) =~= xs);
            assert forall|w: Seq<Mark>| #[trigger] steps_given(s, steps)(w) implies derivation::gives(
                s.terms,
                s.calls,
                e,
                w,
            ) by {
                assert(steps_given(s, steps)(w));
                assert(derivation::items_given(s.terms, s.calls, xs)(w));
            }
        },
        ExprView::Alt(xs) => {
            lemma_arms_fit(s, xs, xs.len(), tail, sym, cx, st);
            let arms = program::emit_arms(xs, xs.len(), tail, sym, cx, st).0;
            assert forall|w: Seq<Mark>| #[trigger] steps_given(s, steps)(w) implies derivation::gives(
                s.terms,
                s.calls,
                e,
                w,
            ) by {
                lemma_one_step(s, steps[0], w);
                assert(steps =~= seq![steps[0]]);
                if exists|i: int| 0 <= i < arms.len() && target_gives(s, (#[trigger] arms[i]).1, w) {
                    let i = choose|i: int|
                        0 <= i < arms.len() && target_gives(s, (#[trigger] arms[i]).1, w);
                    assert(arm_stands(s, xs, arms[i].1));
                } else {
                    let i = choose|i: int|
                        0 <= i < xs.len() && program::first_in(cx.ag, #[trigger] xs[i]).contains(
                            Seq::empty(),
                        );
                    derivation::lemma_blank(s.terms, s.calls, cx.ag, xs[i]);
                    let v = choose|v: Seq<Mark>|
                        derivation::gives(s.terms, s.calls, xs[i], v)
                            && #[trigger] derivation::tokenless(v);
                    assert(derivation::gives(s.terms, s.calls, xs[i], v));
                }
            }
        },
        ExprView::Opt(x) => {
            let st1 = program::with_first(st, cx.ag, program::first_in(cx.ag, *x));
            lemma_inner(s, e, *x, at, cx.ag);
            lemma_sub_fits(s, *x, tail, sym + ":opt-body"@, cx, st1);
            assert forall|w: Seq<Mark>| #[trigger] steps_given(s, steps)(w) implies derivation::gives(
                s.terms,
                s.calls,
                e,
                w,
            ) by {
                lemma_one_step(s, steps[0], w);
                assert(steps =~= seq![steps[0]]);
            }
        },
        ExprView::Star(x) => {
            let first = program::first_in(cx.ag, *x);
            let st1 = program::with_first(st, cx.ag, first);
            let inner = program::looped(cx.ag, *x, tail);
            lemma_inner(s, e, *x, at, cx.ag);
            lemma_sub_fits(s, *x, inner, sym + ":star-body"@, cx, st1);
            assert forall|w: Seq<Mark>| #[trigger] steps_given(s, steps)(w) implies derivation::gives(
                s.terms,
                s.calls,
                e,
                w,
            ) by {
                lemma_one_step(s, steps[0], w);
                assert(steps =~= seq![steps[0]]);
                lemma_repeats(s, *x, at as u32, w);
            }
        },
        ExprView::Plus(x) => {
            let first = program::first_in(cx.ag, *x);
            let st1 = program::with_first(st, cx.ag, first);
            let inner = program::looped(cx.ag, *x, tail);
            lemma_inner(s, e, *x, at, cx.ag);
            lemma_sub_fits(s, *x, inner, sym + ":plus-body"@, cx, st1);
            assert forall|w: Seq<Mark>| #[trigger] steps_given(s, steps)(w) implies derivation::gives(
                s.terms,
                s.calls,
                e,
                w,
            ) by {
                let a = seq![steps[0]];
                let b = seq![steps[1]];
                assert(steps =~= a + b);
                let m = lemma_steps_joined(s, a, b, w);
                lemma_one_step(s, steps[0], w.take(m));
                lemma_one_step(s, steps[1], w.skip(m));
                lemma_repeats(s, *x, at as u32, w.skip(m));
                assert(derivation::gives(s.terms, s.calls, *x, w.take(m)));
            }
        },
        ExprView::Label(name, x) => {
            if let ExprView::Token(n) = *x {
                assert forall|w: Seq<Mark>| #[trigger] steps_given(s, steps)(w) implies
                    derivation::gives(s.terms, s.calls, e, w) by {
                    lemma_one_step(s, steps[0], w);
                    assert(steps =~= seq![steps[0]]);
                }
            } else {
                lemma_emit_fits(s, *x, tail, sym, cx, st);
                assert forall|w: Seq<Mark>| #[trigger] steps_given(s, steps)(w) implies
                    derivation::gives(s.terms, s.calls, e, w) by {
                    assert(derivation::gives(s.terms, s.calls, *x, w));
                }
            }
        },
        ExprView::Empty => {},
        ExprView::Token(n) => {
            assert forall|w: Seq<Mark>| #[trigger] steps_given(s, steps)(w) implies derivation::gives(
                s.terms,
                s.calls,
                e,
                w,
            ) by {
                lemma_one_step(s, steps[0], w);
                assert(steps =~= seq![steps[0]]);
            }
        },
        ExprView::Rule(n) => {
            assert forall|w: Seq<Mark>| #[trigger] steps_given(s, steps)(w) implies derivation::gives(
                s.terms,
                s.calls,
                e,
                w,
            ) by {
                lemma_one_step(s, steps[0], w);
                assert(steps =~= seq![steps[0]]);
            }
        },
    }
}

/// The first of the new blocks stands for the inner expression.
proof fn lemma_inner(s: Senses, e: ExprView, x: ExprView, at: int, ag: AnalyzedGrammar)
    requires
        0 <= at,
        parts(ag, e) == seq![x] + parts(ag, x),
        stand_for(s, at, parts(ag, e)),
    ensures
        at < s.blocks.len() <= u32::MAX,
        s.blocks[at] == Sense::Part(x),
        stand_for(s, at + 1, parts(ag, x)),
{
    let l = parts(ag, e);
    assert(s.blocks[at + 0] == Sense::Part(l[0]));
    assert forall|j: int| 0 <= j < parts(ag, x).len() implies #[trigger] s.blocks[at + 1 + j]
        == Sense::Part(parts(ag, x)[j]) by {
        assert(s.blocks[at + (1 + j)] == Sense::Part(l[1 + j]));
    }
}

/// Words of the block one behind the other are words of the expression one
/// behind the other.
proof fn lemma_repeats(s: Senses, x: ExprView, b: u32, w: Seq<Mark>)
    requires
        b < s.blocks.len(),
        s.blocks[b as int] == Sense::Part(x),
        derivation::repeated(target_given(s, TargetView::Block(b)), w),
    ensures
        derivation::star_gives(s.terms, s.calls, x, w),
{
    let t = target_given(s, TargetView::Block(b));
    let g = derivation::given(s.terms, s.calls, x);
    assert forall|v: Seq<Mark>| #[trigger] t(v) implies g(v) by {}
    derivation::lemma_repeated_mono(t, g, w);
    derivation::lemma_star(s.terms, s.calls, x, w);
}

proof fn lemma_sub_fits(
    s: Senses,
    e: ExprView,
    tail: Set<NameSeq>,
    label: Seq<char>,
    cx: Within,
    st: Built,
)
    requires
        suits(s, cx.ag),
        st.blocks.len() < s.blocks.len(),
        s.blocks[st.blocks.len() as int] == Sense::Part(e),
        stand_for(s, (st.blocks.len() + 1) as int, parts(cx.ag, e)),
    ensures
        went_on(
            s,
            st,
            program::emit_sub(e, tail, label, cx, st),
            seq![e] + parts(cx.ag, e),
        ),
    decreases e, 1nat,
{
    let block = program::empty_block(label, cx.rule);
    let reserved = Built { blocks: st.blocks.push(block), ..st };
    lemma_emit_fits(s, e, tail, label, cx, reserved);
    let (steps, after) = program::emit(e, tail, label, cx, reserved);
    let r = program::emit_sub(e, tail, label, cx, st);
    assert forall|j: int| 0 <= j < st.blocks.len() implies #[trigger] r.blocks[j] == st.blocks[j] by {
        assert(after.blocks[j] == reserved.blocks[j]);
    }
    assert forall|j: int| st.blocks.len() <= j < r.blocks.len() implies block_fits(
        s,
        #[trigger] r.blocks[j],
        s.blocks[j],
    ) by {
        if j == st.blocks.len() {
            assert(r.blocks[j].steps == steps);
        } else {
            assert(r.blocks[j] == after.blocks[j]);
        }
    }
}

proof fn lemma_items_fit(
    s: Senses,
    xs: Seq<ExprView>,
    n: nat,
    tail: Set<NameSeq>,
    sym: Seq<char>,
    cx: Within,
    st: Built,
)
    requires
        suits(s, cx.ag),
        n <= xs.len(),
        stand_for(s, st.blocks.len() as int, item_parts(cx.ag, xs, n)),
    ensures
        ({
            let (steps, after) = program::emit_items(xs, n, tail, sym, cx, st);
            &&& went_on(s, st, after, item_parts(cx.ag, xs, n))
            &&& forall|w: Seq<Mark>| #[trigger]
                steps_given(s, steps)(w) ==> derivation::items_given(
                    s.terms,
                    s.calls,
                    xs.take(n as int),
                )(w)
        }),
    decreases xs, n,
{
    if n > 0 {
        let at = st.blocks.len() as int;
        let l = item_parts(cx.ag, xs, n);
        let l0 = item_parts(cx.ag, xs, (n - 1) as nat);
        let l1 = parts(cx.ag, xs[n - 1]);
        assert forall|j: int| 0 <= j < l0.len() implies #[trigger] s.blocks[at + j] == Sense::Part(
            l0[j],
        ) by {
            assert(s.blocks[at + j] == Sense::Part(l[j]));
        }
        lemma_items_fit(s, xs, (n - 1) as nat, tail, sym, cx, st);
        let (before, mid) = program::emit_items(xs, (n - 1) as nat, tail, sym, cx, st);
        let rest = follow_k::rest_then(
            xs,
            n as int,
            tail,
            cx.ag.nullable@,
            first_follow::firsts(cx.ag.first),
            cx.ag.k as nat,
        );
        assert forall|j: int| 0 <= j < l1.len() implies #[trigger] s.blocks[mid.blocks.len() + j]
            == Sense::Part(l1[j]) by {
            assert(s.blocks[at + (l0.len() + j)] == Sense::Part(l[l0.len() + j]));
        }
        lemma_emit_fits(s, xs[n - 1], rest, sym, cx, mid);
        let (here, after) = program::emit(xs[n - 1], rest, sym, cx, mid);
        let steps = before + here;
        lemma_went_on(s, st, mid, after, l0, l1);
        let all = xs.take(n as int);
        assert(all.drop_last() =~= xs.take(n - 1));
        assert(all.last() == xs[n - 1]);
        assert forall|w: Seq<Mark>| #[trigger] steps_given(s, steps)(w) implies
            derivation::items_given(s.terms, s.calls, all)(w) by {
            let m = lemma_steps_joined(s, before, here, w);
            assert(steps_given(s, before)(w.take(m)));
            assert(steps_given(s, here)(w.skip(m)));
            assert(derivation::items_given(s.terms, s.calls, all.drop_last())(w.take(m)));
            assert(derivation::items_give(s.terms, s.calls, all, w));
        }
    }
}

proof fn lemma_went_on(
    s: Senses,
    a: Built,
    b: Built,
    c: Built,
    l: Seq<ExprView>,
    m: Seq<ExprView>,
)
    requires
        went_on(s, a, b, l),
        went_on(s, b, c, m),
    ensures
        went_on(s, a, c, l + m),
{
    assert forall|j: int| 0 <= j < a.blocks.len() implies #[trigger] c.blocks[j] == a.blocks[j] by {
        assert(b.blocks[j] == a.blocks[j]);
    }
    assert forall|j: int| a.blocks.len() <= j < c.blocks.len() implies block_fits(
        s,
        #[trigger] c.blocks[j],
        s.blocks[j],
    ) by {
        if j < b.blocks.len() {
            assert(c.blocks[j] == b.blocks[j]);
        }
    }
}

/// The target is a block that stands for one of the alternatives.
spec fn arm_stands(s: Senses, xs: Seq<ExprView>, t: TargetView) -> bool {
    exists|i: int|
        0 <= i < xs.len() && t is Block && t->Block_0 < s.blocks.len() && s.blocks[t->Block_0 as int]
            == Sense::Part(#[trigger] xs[i])
}

proof fn lemma_arms_fit(
    s: Senses,
    xs: Seq<ExprView>,
    n: nat,
    tail: Set<NameSeq>,
    sym: Seq<char>,
    cx: Within,
    st: Built,
)
    requires
        suits(s, cx.ag),
        n <= xs.len(),
        stand_for(s, st.blocks.len() as int, arm_parts(cx.ag, xs, n)),
    ensures
        ({
            let (arms, after) = program::emit_arms(xs, n, tail, sym, cx, st);
            &&& went_on(s, st, after, arm_parts(cx.ag, xs, n))
            &&& forall|i: int|
                0 <= i < arms.len() ==> arm_stands(s, xs, (#[trigger] arms[i]).1)
        }),
    decreases xs, n,
{
    if n > 0 {
        let at = st.blocks.len() as int;
        let l = arm_parts(cx.ag, xs, n);
        let l0 = arm_parts(cx.ag, xs, (n - 1) as nat);
        assert forall|j: int| 0 <= j < l0.len() implies #[trigger] s.blocks[at + j] == Sense::Part(
            l0[j],
        ) by {
            assert(s.blocks[at + j] == Sense::Part(l[j]));
        }
        lemma_arms_fit(s, xs, (n - 1) as nat, tail, sym, cx, st);
        let (before, mid) = program::emit_arms(xs, (n - 1) as nat, tail, sym, cx, st);
        let first = program::first_in(cx.ag, xs[n - 1]);
        if !first.subset_of(first_follow::only_eps()) {
            let x = xs[n - 1];
            let l1 = seq![x] + parts(cx.ag, x);
            assert(l == l0 + l1);
            let predict = first_set::concat_k_of(first, tail, cx.ag.k as nat).remove(Seq::empty());
            let st1 = program::with_first(mid, cx.ag, predict);
            let label = sym + ":alt"@ + text::decimal((n - 1) as nat);
            assert(s.blocks[at + l0.len()] == Sense::Part(l[l0.len() as int]));
            assert forall|j: int| 0 <= j < parts(cx.ag, x).len() implies
                #[trigger] s.blocks[mid.blocks.len() + 1 + j] == Sense::Part(parts(cx.ag, x)[j]) by {
                assert(s.blocks[at + (l0.len() + 1 + j)] == Sense::Part(l[l0.len() + 1 + j]));
            }
            lemma_sub_fits(s, x, tail, label, cx, st1);
            let after = program::emit_sub(x, tail, label, cx, st1);
            assert(went_on(s, mid, after, l1));
            lemma_went_on(s, st, mid, after, l0, l1);
            let arms = program::emit_arms(xs, n, tail, sym, cx, st).0;
            assert forall|i: int| 0 <= i < arms.len() implies arm_stands(
                s,
                xs,
                (#[trigger] arms[i]).1,
            ) by {
                if i < before.len() {
                    assert(arms[i] == before[i]);
                } else {
                    assert(s.blocks[arms[i].1->Block_0 as int] == Sense::Part(xs[n - 1]));
                }
            }
        }
    }
}

/// What the blocks of the first `n` rules stand for.
pub open spec fn rule_senses(ag: AnalyzedGrammar, n: nat) -> Seq<Sense>
    decreases n,
{
    let rules = ag.grammar.rule_list();
    if n == 0 || n > rules.len() {
        Seq::empty()
    } else {
        let l = parts(ag, rules[n - 1].body);
        rule_senses(ag, (n - 1) as nat) + (seq![Sense::Rule(rules[n - 1])] + Seq::new(
            l.len(),
            |i: int| Sense::Part(l[i]),
        ))
    }
}

proof fn lemma_senses_prefix(ag: AnalyzedGrammar, n: nat, m: nat)
    requires
        n <= m <= ag.grammar.rule_list().len(),
    ensures
        rule_senses(ag, n).len() <= rule_senses(ag, m).len(),
        forall|j: int|
            0 <= j < rule_senses(ag, n).len() ==> #[trigger] rule_senses(ag, m)[j] == rule_senses(
                ag,
                n,
            )[j],
    decreases m,
{
    if n < m {
        lemma_senses_prefix(ag, n, (m - 1) as nat);
        assert forall|j: int| 0 <= j < rule_senses(ag, n).len() implies #[trigger] rule_senses(
            ag,
            m,
        )[j] == rule_senses(ag, n)[j] by {
            assert(rule_senses(ag, m)[j] == rule_senses(ag, (m - 1) as nat)[j]);
        }
    }
}

/// The body of a rule between the steps that enter and leave it.
proof fn lemma_rule_steps(s: Senses, r: RuleView, body: Seq<Step>, b: BlockView)
    requires
        steps_fit(s, body, r.body),
        ({
            let kind = program::rule_kind(program::public_names(s.terms.rules), r.name);
            if r.is_fragment {
                b.steps == body
            } else {
                b.steps == seq![(OpView::Enter(kind), r.name + ":enter"@)] + body + seq![
                    (OpView::Exit(kind), r.name + ":exit"@),
                ]
            }
        }),
    ensures
        block_fits(s, b, Sense::Rule(r)),
{
    let kind = program::rule_kind(program::public_names(s.terms.rules), r.name);
    assert forall|w: Seq<Mark>| #[trigger] steps_given(s, b.steps)(w) implies sense_gives(
        s,
        Sense::Rule(r),
        w,
    ) by {
        if r.is_fragment {
            assert(steps_given(s, body)(w));
        } else {
            let first: Step = (OpView::Enter(kind), r.name + ":enter"@);
            let last: Step = (OpView::Exit(kind), r.name + ":exit"@);
            let m = lemma_steps_joined(s, seq![first] + body, seq![last], w);
            let v = w.take(m);
            let n = lemma_steps_joined(s, seq![first], body, v);
            lemma_one_step(s, first, v.take(n));
            lemma_one_step(s, last, w.skip(m));
            assert(v.take(n) == seq![Mark::Enter(kind)]);
            assert(w.skip(m) == seq![Mark::Exit(kind)]);
            assert(v.take(n).len() == 1 && w.skip(m).len() == 1);
            assert(n == 1 && m == w.len() - 1);
            assert(w[0] == v.take(n)[0]);
            assert(w.last() == w.skip(m)[0]);
            assert(v.skip(n) =~= w.subrange(1, w.len() - 1));
            assert(steps_given(s, body)(v.skip(n)));
        }
    }
}

/// Every block of the first `n` rules gives what it stands for, and the block
/// at which a rule starts stands for it.
pub proof fn lemma_rules_fit(s: Senses, ag: AnalyzedGrammar, n: nat)
    requires
        suits(s, ag),
        n <= ag.grammar.rule_list().len(),
        s.blocks == rule_senses(ag, ag.grammar.rule_list().len()),
        s.blocks.len() <= u32::MAX,
    ensures
        ({
            let (st, entries, _) = program::lowered_rules(ag, n);
            &&& st.blocks.len() == rule_senses(ag, n).len()
            &&& forall|j: int|
                0 <= j < st.blocks.len() ==> block_fits(s, #[trigger] st.blocks[j], s.blocks[j])
            &&& forall|name: Seq<char>| #[trigger]
                entries.contains_key(name) ==> starts(s, entries[name].0, name)
        }),
    decreases n,
{
    let rules = ag.grammar.rule_list();
    if n > 0 {
        lemma_rules_fit(s, ag, (n - 1) as nat);
        let (st, entries, _) = program::lowered_rules(ag, (n - 1) as nat);
        let rule = rules[n - 1];
        let row = sorting::kind_set(program::sync_of(ag, rule.name));
        let sync = program::place(st.syncs, row) as u32;
        let st1 = Built { syncs: program::joined(st.syncs, row), ..st };
        let cx = Within { ag, sync, rule: rule.name };
        let block = program::empty_block(rule.name, rule.name);
        let reserved = Built { blocks: st1.blocks.push(block), ..st1 };
        let tail = first_follow::set_at(first_follow::firsts(ag.follow_k), rule.name);
        let l = parts(ag, rule.body);
        let here = rule_senses(ag, n);
        let at = st.blocks.len() as int;
        lemma_senses_prefix(ag, n, rules.len());
        assert(here[at] == Sense::Rule(rule));
        assert(s.blocks[at] == Sense::Rule(rule));
        assert forall|j: int| 0 <= j < l.len() implies #[trigger] s.blocks[at + 1 + j]
            == Sense::Part(l[j]) by {
            assert(here[at + 1 + j] == Sense::Part(l[j]));
        }
        lemma_emit_fits(s, rule.body, tail, rule.name, cx, reserved);
        let (body, after) = program::emit(rule.body, tail, rule.name, cx, reserved);
        let (r, more, _) = program::lowered_rules(ag, n);
        assert(r == program::lowered_rule(ag, rule, sync, st1));
        assert forall|j: int| 0 <= j < r.blocks.len() implies block_fits(
            s,
            #[trigger] r.blocks[j],
            s.blocks[j],
        ) by {
            if j < at {
                assert(after.blocks[j] == reserved.blocks[j]);
                assert(r.blocks[j] == st.blocks[j]);
            } else if j == at {
                lemma_rule_steps(s, rule, body, r.blocks[j]);
            } else {
                assert(r.blocks[j] == after.blocks[j]);
            }
        }
        assert forall|name: Seq<char>| #[trigger] more.contains_key(name) implies starts(
            s,
            more[name].0,
            name,
        ) by {
            if name != rule.name {
                assert(entries.contains_key(name));
            }
        }
    }
}

/// The block stands for a rule of the name.
pub open spec fn starts(s: Senses, b: u32, n: Seq<char>) -> bool {
    b < s.blocks.len() && exists|i: int|
        0 <= i < s.terms.rules.len() && (#[trigger] s.terms.rules[i]).name == n
            && s.blocks[b as int] == Sense::Rule(s.terms.rules[i])
}

proof fn lemma_emit_count(
    e: ExprView,
    tail: Set<NameSeq>,
    sym: Seq<char>,
    cx: Within,
    st: Built,
)
    ensures
        program::emit(e, tail, sym, cx, st).1.blocks.len() == st.blocks.len() + parts(
            cx.ag,
            e,
        ).len(),
    decreases e, 0nat,
{
    match e {
        ExprView::Concat(xs) => lemma_items_count(xs, xs.len(), tail, sym, cx, st),
        ExprView::Alt(xs) => lemma_arms_count(xs, xs.len(), tail, sym, cx, st),
        ExprView::Opt(x) => {
            let st1 = program::with_first(st, cx.ag, program::first_in(cx.ag, *x));
            lemma_sub_count(*x, tail, sym + ":opt-body"@, cx, st1);
        },
        ExprView::Star(x) => {
            let first = program::first_in(cx.ag, *x);
            let st1 = program::with_first(st, cx.ag, first);
            let inner = program::looped(cx.ag, *x, tail);
            lemma_sub_count(*x, inner, sym + ":star-body"@, cx, st1);
        },
        ExprView::Plus(x) => {
            let first = program::first_in(cx.ag, *x);
            let st1 = program::with_first(st, cx.ag, first);
            let inner = program::looped(cx.ag, *x, tail);
            lemma_sub_count(*x, inner, sym + ":plus-body"@, cx, st1);
        },
        ExprView::Label(_, x) => {
            if !(*x is Token) {
                lemma_emit_count(*x, tail, sym, cx, st);
            }
        },
        _ => {},
    }
}

proof fn lemma_sub_count(
    e: ExprView,
    tail: Set<NameSeq>,
    label: Seq<char>,
    cx: Within,
    st: Built,
)
    ensures
        program::emit_sub(e, tail, label, cx, st).blocks.len() == st.blocks.len() + 1 + parts(
            cx.ag,
            e,
        ).len(),
    decreases e, 1nat,
{
    let block = program::empty_block(label, cx.rule);
    let reserved = Built { blocks: st.blocks.push(block), ..st };
    lemma_emit_count(e, tail, label, cx, reserved);
}

proof fn lemma_items_count(
    xs: Seq<ExprView>,
    n: nat,
    tail: Set<NameSeq>,
    sym: Seq<char>,
    cx: Within,
    st: Built,
)
    ensures
        program::emit_items(xs, n, tail, sym, cx, st).1.blocks.len() == st.blocks.len()
            + item_parts(cx.ag, xs, n).len(),
    decreases xs, n,
{
    if 0 < n <= xs.len() {
        lemma_items_count(xs, (n - 1) as nat, tail, sym, cx, st);
        let mid = program::emit_items(xs, (n - 1) as nat, tail, sym, cx, st).1;
        let rest = follow_k::rest_then(
            xs,
            n as int,
            tail,
            cx.ag.nullable@,
            first_follow::firsts(cx.ag.first),
            cx.ag.k as nat,
        );
        lemma_emit_count(xs[n - 1], rest, sym, cx, mid);
    }
}

proof fn lemma_arms_count(
    xs: Seq<ExprView>,
    n: nat,
    tail: Set<NameSeq>,
    sym: Seq<char>,
    cx: Within,
    st: Built,
)
    ensures
        program::emit_arms(xs, n, tail, sym, cx, st).1.blocks.len() == st.blocks.len()
            + arm_parts(cx.ag, xs, n).len(),
    decreases xs, n,
{
    if 0 < n <= xs.len() {
        lemma_arms_count(xs, (n - 1) as nat, tail, sym, cx, st);
        let mid = program::emit_arms(xs, (n - 1) as nat, tail, sym, cx, st).1;
        let first = program::first_in(cx.ag, xs[n - 1]);
        if !first.subset_of(first_follow::only_eps()) {
            let predict = first_set::concat_k_of(first, tail, cx.ag.k as nat).remove(Seq::empty());
            let st1 = program::with_first(mid, cx.ag, predict);
            let label = sym + ":alt"@ + text::decimal((n - 1) as nat);
            lemma_sub_count(xs[n - 1], tail, label, cx, st1);
        }
    }
}

/// There are as many blocks as there are senses.
pub proof fn lemma_count(ag: AnalyzedGrammar, n: nat)
    requires
        n <= ag.grammar.rule_list().len(),
    ensures
        program::lowered_rules(ag, n).0.blocks.len() == rule_senses(ag, n).len(),
    decreases n,
{
    let rules = ag.grammar.rule_list();
    if n > 0 {
        lemma_count(ag, (n - 1) as nat);
        let st = program::lowered_rules(ag, (n - 1) as nat).0;
        let rule = rules[n - 1];
        let row = sorting::kind_set(program::sync_of(ag, rule.name));
        let sync = program::place(st.syncs, row) as u32;
        let st1 = Built { syncs: program::joined(st.syncs, row), ..st };
        let cx = Within { ag, sync, rule: rule.name };
        let block = program::empty_block(rule.name, rule.name);
        let reserved = Built { blocks: st1.blocks.push(block), ..st1 };
        let tail = first_follow::set_at(first_follow::firsts(ag.follow_k), rule.name);
        lemma_emit_count(rule.body, tail, rule.name, cx, reserved);
        assert(program::lowered_rules(ag, n).0 == program::lowered_rule(ag, rule, sync, st1));
    }
}

} // verus!
