//! What a parse without an error gives is derived by the grammar.
use vstd::prelude::*;

use crate::analysis::AnalyzedGrammar;
use crate::lowering::closed;
use crate::lowering::derivation::{self, Mark, Terms};
use crate::lowering::dispatch::{self, Entry};
use crate::lowering::layout::{self, Plan};
use crate::lowering::lexer_dfa::DfaOpts;
use crate::lowering::meaning::{self, Senses};
use crate::lowering::nesting;
use crate::lowering::optimize::{self, LoweringOpts};
use crate::lowering::pipeline;
use crate::lowering::program::{self, OpView, Program, Step, TargetView};
use crate::lowering::recovery::{self, InsertionView};
use crate::lowering::remaining;
use crate::lowering::state_first::{self, Firsts};
use crate::lowering::table::{self, LeafView, StateTable, TailView};
use crate::names;
use crate::runtime::events::EventView;
use crate::runtime::laws::{self, RawView};
use crate::runtime::lexer::TableMatcher;
use crate::runtime::optimized;
use crate::runtime::parser::{self, CursorView, ParserView, TurnView, TERMINATED};
use crate::runtime::stamping;
use crate::runtime::tree;

verus! {

/// The mark that an event leaves.
pub open spec fn mark_of(e: RawView) -> Option<Mark> {
    match e {
        EventView::Enter(k, _) => Some(Mark::Enter(k)),
        EventView::Exit(k, _) => Some(Mark::Exit(k)),
        EventView::Token(t) => match t.kind {
            Some(k) => Some(Mark::Token(k, t.label)),
            None => None,
        },
        _ => None,
    }
}

/// The marks of events.
pub open spec fn marks(events: Seq<RawView>) -> Seq<Mark>
    decreases events.len(),
{
    if events.len() == 0 {
        Seq::empty()
    } else {
        let rest = marks(events.skip(1));
        match mark_of(events[0]) {
            Some(m) => seq![m] + rest,
            None => rest,
        }
    }
}

/// What a state gives until it returns.
spec fn state_gives(s: Senses, p: Plan, id: u32, w: Seq<Mark>) -> bool {
    meaning::steps_give(s, remaining::todo(p, id), w)
}

/// What is given when the return states are gone through.
spec fn rest_gives(s: Senses, p: Plan, ret: Seq<(u32, nat)>, w: Seq<Mark>) -> bool
    decreases ret.len(),
{
    if ret.len() == 0 {
        w.len() == 0
    } else {
        exists|m: int|
            0 <= m <= w.len() && state_gives(s, p, ret.last().0, #[trigger] w.take(m))
                && rest_gives(s, p, ret.drop_last(), w.skip(m))
    }
}

/// What is given from a state on until the parse is over.
spec fn on_gives(s: Senses, p: Plan, id: u32, ret: Seq<(u32, nat)>, w: Seq<Mark>) -> bool {
    if id == TERMINATED {
        w.len() == 0
    } else {
        exists|m: int|
            0 <= m <= w.len() && state_gives(s, p, id, #[trigger] w.take(m)) && rest_gives(
                s,
                p,
                ret,
                w.skip(m),
            )
    }
}

/// What is given behind a step of the state.
spec fn after_gives(s: Senses, p: Plan, id: u32, ret: Seq<(u32, nat)>, w: Seq<Mark>) -> bool {
    if remaining::todo(p, id).len() <= 1 {
        rest_gives(s, p, ret, w)
    } else {
        on_gives(s, p, (id + 1) as u32, ret, w)
    }
}

/// The parser is in the plan, or at the end.
spec fn settled(p: Plan, c: CursorView) -> bool {
    &&& forall|i: int| 0 <= i < c.ret.len() ==> remaining::in_plan(p, (#[trigger] c.ret[i]).0)
    &&& remaining::in_plan(p, c.state) || (c.state == TERMINATED && c.ret.len() == 0)
}

/// The blocks give what they stand for, and targets arrive.
spec fn meant(s: Senses, p: Plan) -> bool {
    &&& s.terms.labels == p.labels
    &&& derivation::closed_calls(s.terms, s.calls)
    &&& p.blocks.len() == s.blocks.len()
    &&& forall|j: int|
        0 <= j < p.blocks.len() ==> meaning::block_fits(s, #[trigger] p.blocks[j], s.blocks[j])
    &&& forall|n: Seq<char>| #[trigger]
        p.rules.contains_key(n) ==> meaning::starts(s, p.rules[n].0, n)
    &&& remaining::plan_arrives(p)
    &&& layout::slots_upto(p.blocks, p.order, p.order.len()) < u32::MAX
}

/// What the state of a target gives, the target gives.
proof fn lemma_target(s: Senses, p: Plan, t: TargetView, w: Seq<Mark>)
    requires
        meant(s, p),
        remaining::arrives(p, t),
        state_gives(s, p, layout::state_of(p, t), w),
    ensures
        meaning::target_gives(s, t, w),
{
    let b = remaining::block_at(p, t);
    let block = p.blocks[b as int];
    assert(meaning::block_fits(s, block, s.blocks[b as int]));
    assert(meaning::steps_given(s, block.steps)(w));
    assert(meaning::sense_gives(s, s.blocks[b as int], w));
    if let TargetView::Rule(n) = t {
        assert(meaning::starts(s, p.rules[n].0, n));
        let i = choose|i: int|
            0 <= i < s.terms.rules.len() && (#[trigger] s.terms.rules[i]).name == n
                && s.blocks[b as int] == meaning::Sense::Rule(s.terms.rules[i]);
        assert(derivation::rule_gives(s.terms, s.calls, s.terms.rules[i], w));
    }
}

/// A step of a state and what comes behind it.
proof fn lemma_behind(
    s: Senses,
    p: Plan,
    id: u32,
    ret: Seq<(u32, nat)>,
    u: Seq<Mark>,
    w: Seq<Mark>,
)
    requires
        meant(s, p),
        remaining::in_plan(p, id),
        remaining::todo(p, id).len() > 0,
        meaning::op_gives(s, remaining::todo(p, id)[0].0, u),
        after_gives(s, p, id, ret, w),
    ensures
        on_gives(s, p, id, ret, u + w),
{
    let steps = remaining::todo(p, id);
    let all = u + w;
    remaining::lemma_state_does(p, id);
    if steps.len() == 1 {
        assert(steps.skip(1) =~= Seq::<Step>::empty());
        assert(all.take(u.len() as int) =~= u);
        assert(all.skip(u.len() as int) =~= w);
        assert(u.take(u.len() as int) =~= u);
        assert(meaning::steps_give(s, steps.skip(1), u.skip(u.len() as int)));
        assert(meaning::steps_give(s, steps, u));
    } else {
        let m = choose|m: int|
            0 <= m <= w.len() && state_gives(s, p, (id + 1) as u32, #[trigger] w.take(m))
                && rest_gives(s, p, ret, w.skip(m));
        let x = all.take(u.len() + m);
        assert(x.take(u.len() as int) =~= u);
        assert(x.skip(u.len() as int) =~= w.take(m));
        assert(meaning::steps_give(s, steps, x));
        assert(all.skip(u.len() + m) =~= w.skip(m));
    }
}

/// Going on at the continuation of a state.
pub open spec fn cont_of(p: Plan, id: u32) -> Option<u32> {
    if remaining::todo(p, id).len() <= 1 {
        None
    } else {
        Some((id + 1) as u32)
    }
}

proof fn lemma_go_on(s: Senses, p: Plan, c: CursorView, id: u32)
    requires
        meant(s, p),
        remaining::in_plan(p, id),
        forall|i: int| 0 <= i < c.ret.len() ==> remaining::in_plan(p, (#[trigger] c.ret[i]).0),
    ensures
        ({
            let d = parser::go_on(c, cont_of(p, id));
            &&& settled(p, d)
            &&& forall|w: Seq<Mark>|
                on_gives(s, p, d.state, d.ret, w) ==> #[trigger] after_gives(s, p, id, c.ret, w)
        }),
{
    let d = parser::go_on(c, cont_of(p, id));
    remaining::lemma_state_does(p, id);
    if cont_of(p, id) is None {
        if c.ret.len() > 0 {
            assert(remaining::in_plan(p, c.ret[c.ret.len() - 1].0));
            assert forall|i: int| 0 <= i < d.ret.len() implies remaining::in_plan(
                p,
                (#[trigger] d.ret[i]).0,
            ) by {
                assert(d.ret[i] == c.ret[i]);
            }
        }
    }
}

/// What is given behind a call: the return state is gone on at.
proof fn lemma_calling(s: Senses, p: Plan, c: CursorView, id: u32)
    requires
        meant(s, p),
        remaining::in_plan(p, id),
        forall|i: int| 0 <= i < c.ret.len() ==> remaining::in_plan(p, (#[trigger] c.ret[i]).0),
    ensures
        ({
            let d = parser::calling(c, cont_of(p, id));
            &&& forall|i: int|
                0 <= i < d.ret.len() ==> remaining::in_plan(p, (#[trigger] d.ret[i]).0)
            &&& forall|w: Seq<Mark>|
                rest_gives(s, p, d.ret, w) ==> #[trigger] after_gives(s, p, id, c.ret, w)
        }),
{
    remaining::lemma_state_does(p, id);
    if let Some(f) = cont_of(p, id) {
        lemma_pushed(s, p, c, f);
    }
}

proof fn lemma_pushed(s: Senses, p: Plan, c: CursorView, f: u32)
    requires
        meant(s, p),
        remaining::in_plan(p, f),
        forall|i: int| 0 <= i < c.ret.len() ==> remaining::in_plan(p, (#[trigger] c.ret[i]).0),
    ensures
        ({
            let d = parser::pushed(c, f);
            &&& forall|i: int|
                0 <= i < d.ret.len() ==> remaining::in_plan(p, (#[trigger] d.ret[i]).0)
            &&& forall|w: Seq<Mark>|
                rest_gives(s, p, d.ret, w) ==> #[trigger] on_gives(s, p, f, c.ret, w)
        }),
{
    let d = parser::pushed(c, f);
    assert(d.ret.drop_last() =~= c.ret);
    assert forall|i: int| 0 <= i < d.ret.len() implies remaining::in_plan(
        p,
        (#[trigger] d.ret[i]).0,
    ) by {
        if i < c.ret.len() {
            assert(d.ret[i] == c.ret[i]);
        }
    }
}

/// Going on from `d`, with what was given, is going on from the state.
spec fn leads(s: Senses, p: Plan, c: CursorView, d: CursorView, u: Seq<Mark>) -> bool {
    forall|w: Seq<Mark>|
        on_gives(s, p, d.state, d.ret, w) ==> on_gives(
            s,
            p,
            c.state,
            c.ret,
            #[trigger] (u + w),
        )
}

/// Going to a target with the rest behind it.
proof fn lemma_enter(
    s: Senses,
    p: Plan,
    c: CursorView,
    t: TargetView,
    w: Seq<Mark>,
)
    requires
        meant(s, p),
        remaining::in_plan(p, c.state),
        remaining::todo(p, c.state).len() > 0,
        forall|i: int| 0 <= i < c.ret.len() ==> remaining::in_plan(p, (#[trigger] c.ret[i]).0),
        remaining::arrives(p, t),
        forall|v: Seq<Mark>|
            meaning::target_gives(s, t, v) ==> #[trigger] meaning::op_gives(
                s,
                remaining::todo(p, c.state)[0].0,
                v,
            ),
        ({
            let d = parser::calling(c, cont_of(p, c.state));
            on_gives(s, p, layout::state_of(p, t), d.ret, w)
        }),
    ensures
        on_gives(s, p, c.state, c.ret, w),
{
    let d = parser::calling(c, cont_of(p, c.state));
    let e = layout::state_of(p, t);
    lemma_calling(s, p, c, c.state);
    let m = choose|m: int|
        0 <= m <= w.len() && state_gives(s, p, e, #[trigger] w.take(m)) && rest_gives(
            s,
            p,
            d.ret,
            w.skip(m),
        );
    lemma_target(s, p, t, w.take(m));
    assert(after_gives(s, p, c.state, c.ret, w.skip(m)));
    assert(meaning::op_gives(s, remaining::todo(p, c.state)[0].0, w.take(m)));
    lemma_behind(s, p, c.state, c.ret, w.take(m), w.skip(m));
    assert(w.take(m) + w.skip(m) =~= w);
}

proof fn lemma_one_mark(e: RawView)
    ensures
        marks(seq![e]) == match mark_of(e) {
            Some(m) => seq![m],
            None => Seq::<Mark>::empty(),
        },
{
    reveal_with_fuel(marks, 2);
    let one = seq![e];
    assert(one.skip(1) =~= Seq::<RawView>::empty());
    assert(one[0] == e);
    if let Some(m) = mark_of(e) {
        assert(seq![m] + Seq::<Mark>::empty() =~= seq![m]);
    }
}

pub proof fn lemma_one_instr(st: StateTable, c: CursorView, i: table::InstrView, t: TailView)
    ensures
        ({
            let (d, e) = parser::instr_step(st, c, i);
            let (f, g) = parser::tail_step(st, d, t);
            parser::body_step(st, c, layout::one(i, t)) == (f, parser::later(e, g))
        }),
{
    reveal_with_fuel(parser::instrs_step, 2);
    let b = layout::one(i, t);
    assert(b.instrs.len() == 1 && b.instrs[0] == i);
}

pub proof fn lemma_no_instr(st: StateTable, c: CursorView, t: TailView)
    ensures
        parser::body_step(st, c, layout::only(t)) == parser::tail_step(st, c, t),
{
    let b = layout::only(t);
    assert(parser::instrs_step(st, c, b.instrs, 0) == (c, None::<RawView>));
}

pub proof fn lemma_jumps(st: StateTable, c: CursorView, f: u32)
    ensures
        parser::body_step(st, c, table::jump_body(f)) == (
            parser::at_state(c, f),
            None::<RawView>,
        ),
{
    lemma_no_instr(st, c, TailView::Jump(f));
    assert(table::jump_body(f) == layout::only(TailView::Jump(f)));
}

/// What a dispatch comes to: an arm for one of the entries, or the default.
proof fn lemma_trie(
    st: StateTable,
    c: CursorView,
    entries: Seq<Entry>,
    depth: usize,
    outer: LeafView,
    bound: nat,
    sync: u32,
    cont: Option<u32>,
    l: Seq<InsertionView>,
) -> (leaf: LeafView)
    ensures
        parser::tree_step(st, c, dispatch::trie(entries, depth, outer, bound), sync, cont, l)
            == parser::leaf_step(st, c, leaf, sync, cont, l),
        leaf == outer || exists|i: int|
            0 <= i < entries.len() && leaf == dispatch::arm_leaf((#[trigger] entries[i]).1),
    decreases bound - depth,
{
    let deeper = dispatch::going_on(entries, depth as int);
    let default = dispatch::default_at(entries, depth as int, outer);
    let e = dispatch::end_at(entries, depth as int);
    nesting::lemma_end_at(entries, depth as int);
    assert(default == outer || exists|i: int|
        0 <= i < entries.len() && default == dispatch::arm_leaf((#[trigger] entries[i]).1)) by {
        if e < entries.len() {
            assert(default == dispatch::arm_leaf(entries[e].1));
        }
    }
    let t = dispatch::trie(entries, depth, outer, bound);
    if deeper.len() == 0 || depth >= bound || depth >= usize::MAX {
        default
    } else {
        let kinds = t->Switch_1;
        let subs = t->Switch_2;
        let j = parser::arm_for(kinds, parser::look_kind(c, t->Switch_0 as int));
        if 0 <= j < subs.len() {
            let some = dispatch::with_kind(deeper, depth as int, kinds[j]);
            let leaf = lemma_trie(
                st,
                c,
                some,
                (depth + 1) as usize,
                default,
                bound,
                sync,
                cont,
                l,
            );
            if leaf != default {
                let i = choose|i: int|
                    0 <= i < some.len() && leaf == dispatch::arm_leaf((#[trigger] some[i]).1);
                lemma_kind_entries(deeper, depth as int, kinds[j], i);
                let m = choose|m: int| 0 <= m < deeper.len() && #[trigger] deeper[m] == some[i];
                assert(entries[m] == deeper[m]);
            }
            leaf
        } else {
            default
        }
    }
}

proof fn lemma_kind_entries(entries: Seq<Entry>, depth: int, kind: u16, i: int)
    requires
        0 <= i < dispatch::with_kind(entries, depth, kind).len(),
    ensures
        exists|m: int|
            0 <= m < entries.len() && #[trigger] entries[m] == dispatch::with_kind(
                entries,
                depth,
                kind,
            )[i],
    decreases entries.len(),
{
    if entries.len() > 0 {
        let p = entries.drop_last();
        let before = dispatch::with_kind(p, depth, kind);
        if i < before.len() {
            lemma_kind_entries(p, depth, kind, i);
            let m = choose|m: int| 0 <= m < p.len() && #[trigger] p[m] == before[i];
            assert(entries[m] == p[m]);
        } else {
            assert(entries[entries.len() - 1] == dispatch::with_kind(entries, depth, kind)[i]);
        }
    }
}

/// Each entry of a dispatch goes to the state of an arm.
proof fn lemma_arm_entry(p: Plan, arms: Seq<(u32, TargetView)>, i: int)
    requires
        0 <= i < dispatch::arm_entries(layout::arm_states(p, arms), p.pool).len(),
    ensures
        exists|m: int|
            0 <= m < arms.len() && dispatch::arm_entries(layout::arm_states(p, arms), p.pool)[i].1
                == layout::state_of(p, (#[trigger] arms[m]).1),
    decreases arms.len(),
{
    let all = layout::arm_states(p, arms);
    if arms.len() > 0 {
        let before = arms.drop_last();
        assert(layout::arm_states(p, before) =~= all.drop_last());
        let first = dispatch::arm_entries(all.drop_last(), p.pool);
        let r = dispatch::arm_entries(all, p.pool);
        if i < first.len() {
            lemma_arm_entry(p, before, i);
            let m = choose|m: int|
                0 <= m < before.len() && first[i].1 == layout::state_of(
                    p,
                    (#[trigger] before[m]).1,
                );
            assert(r[i] == first[i]);
            assert(arms[m] == before[m]);
        } else {
            assert(r[i].1 == layout::state_of(p, arms[arms.len() - 1].1));
        }
    }
}

/// A step that gives one event and goes on.
proof fn lemma_event_step(s: Senses, p: Plan, c: CursorView, x: CursorView, e: RawView, m: Mark)
    requires
        meant(s, p),
        remaining::in_plan(p, c.state),
        remaining::todo(p, c.state).len() > 0,
        forall|i: int| 0 <= i < c.ret.len() ==> remaining::in_plan(p, (#[trigger] c.ret[i]).0),
        x.ret == c.ret,
        mark_of(e) == Some(m),
        meaning::op_gives(s, remaining::todo(p, c.state)[0].0, seq![m]),
    ensures
        ({
            let d = parser::go_on(x, cont_of(p, c.state));
            settled(p, d) && leads(s, p, c, d, marks(seq![e]))
        }),
{
    let d = parser::go_on(x, cont_of(p, c.state));
    lemma_go_on(s, p, x, c.state);
    lemma_one_mark(e);
    assert forall|w: Seq<Mark>| on_gives(s, p, d.state, d.ret, w) implies on_gives(
        s,
        p,
        c.state,
        c.ret,
        #[trigger] (marks(seq![e]) + w),
    ) by {
        assert(after_gives(s, p, c.state, c.ret, w));
        lemma_behind(s, p, c.state, c.ret, seq![m], w);
    }
}

/// A step that goes to a target.
proof fn lemma_target_step(s: Senses, p: Plan, c: CursorView, t: TargetView)
    requires
        meant(s, p),
        remaining::in_plan(p, c.state),
        remaining::todo(p, c.state).len() > 0,
        forall|i: int| 0 <= i < c.ret.len() ==> remaining::in_plan(p, (#[trigger] c.ret[i]).0),
        remaining::arrives(p, t),
        forall|v: Seq<Mark>|
            meaning::target_gives(s, t, v) ==> #[trigger] meaning::op_gives(
                s,
                remaining::todo(p, c.state)[0].0,
                v,
            ),
    ensures
        ({
            let d = parser::at_state(
                parser::calling(c, cont_of(p, c.state)),
                layout::state_of(p, t),
            );
            settled(p, d) && leads(s, p, c, d, Seq::empty())
        }),
{
    let d = parser::at_state(parser::calling(c, cont_of(p, c.state)), layout::state_of(p, t));
    lemma_calling(s, p, c, c.state);
    assert forall|w: Seq<Mark>| on_gives(s, p, d.state, d.ret, w) implies on_gives(
        s,
        p,
        c.state,
        c.ret,
        #[trigger] (Seq::<Mark>::empty() + w),
    ) by {
        lemma_enter(s, p, c, t, w);
        assert(Seq::<Mark>::empty() + w =~= w);
    }
}

/// A step that gives nothing and goes on.
proof fn lemma_skip_step(s: Senses, p: Plan, c: CursorView)
    requires
        meant(s, p),
        remaining::in_plan(p, c.state),
        remaining::todo(p, c.state).len() > 0,
        forall|i: int| 0 <= i < c.ret.len() ==> remaining::in_plan(p, (#[trigger] c.ret[i]).0),
        meaning::op_gives(s, remaining::todo(p, c.state)[0].0, Seq::empty()),
    ensures
        ({
            let d = parser::go_on(c, cont_of(p, c.state));
            settled(p, d) && leads(s, p, c, d, Seq::empty())
        }),
{
    let d = parser::go_on(c, cont_of(p, c.state));
    lemma_go_on(s, p, c, c.state);
    assert forall|w: Seq<Mark>| on_gives(s, p, d.state, d.ret, w) implies on_gives(
        s,
        p,
        c.state,
        c.ret,
        #[trigger] (Seq::<Mark>::empty() + w),
    ) by {
        assert(after_gives(s, p, c.state, c.ret, w));
        lemma_behind(s, p, c.state, c.ret, Seq::empty(), w);
    }
}

/// A round of a loop.
proof fn lemma_round_step(s: Senses, p: Plan, c: CursorView, t: TargetView, first: u32)
    requires
        meant(s, p),
        remaining::in_plan(p, c.state),
        remaining::todo(p, c.state).len() > 0,
        remaining::todo(p, c.state)[0].0 == OpView::Star(first, t),
        forall|i: int| 0 <= i < c.ret.len() ==> remaining::in_plan(p, (#[trigger] c.ret[i]).0),
        remaining::arrives(p, t),
    ensures
        ({
            let d = parser::at_state(parser::pushed(c, c.state), layout::state_of(p, t));
            settled(p, d) && leads(s, p, c, d, Seq::empty())
        }),
{
    let d = parser::at_state(parser::pushed(c, c.state), layout::state_of(p, t));
    let lang = meaning::target_given(s, t);
    let steps = remaining::todo(p, c.state);
    lemma_pushed(s, p, c, c.state);
    assert forall|w: Seq<Mark>| on_gives(s, p, d.state, d.ret, w) implies on_gives(
        s,
        p,
        c.state,
        c.ret,
        #[trigger] (Seq::<Mark>::empty() + w),
    ) by {
        assert(Seq::<Mark>::empty() + w =~= w);
        let m = choose|m: int|
            0 <= m <= w.len() && state_gives(s, p, d.state, #[trigger] w.take(m)) && rest_gives(
                s,
                p,
                d.ret,
                w.skip(m),
            );
        let v = w.skip(m);
        lemma_target(s, p, t, w.take(m));
        assert(on_gives(s, p, c.state, c.ret, v));
        let n = choose|n: int|
            0 <= n <= v.len() && state_gives(s, p, c.state, #[trigger] v.take(n)) && rest_gives(
                s,
                p,
                c.ret,
                v.skip(n),
            );
        let x = v.take(n);
        let q = choose|q: int|
            0 <= q <= x.len() && meaning::op_gives(s, steps[0].0, #[trigger] x.take(q))
                && meaning::steps_give(s, steps.skip(1), x.skip(q));
        let y = w.take(m + n);
        let round = w.take(m + q);
        assert(derivation::repeated(lang, round)) by {
            assert(derivation::repeated(lang, x.take(q)));
            if m == 0 {
                assert(round =~= x.take(q));
            } else {
                assert(round.take(m) =~= w.take(m));
                assert(round.skip(m) =~= x.take(q));
                assert(lang(round.take(m)));
            }
        }
        assert(y.take(m + q) =~= round);
        assert(y.skip(m + q) =~= x.skip(q));
        assert(meaning::steps_give(s, steps, y));
        assert(w.skip(m + n) =~= v.skip(n));
    }
}

/// A state body that raises no error gives marks, and goes on to a state,
/// such that what is given from there on is given from here on behind them.
proof fn lemma_step(s: Senses, p: Plan, st: StateTable, c: CursorView)
    requires
        meant(s, p),
        settled(p, c),
        c.state != TERMINATED,
        ({
            let b = remaining::todo_body(p, c.state, remaining::todo(p, c.state));
            let e = parser::body_step(st, c, b).1;
            !(e is Some && e->0 is Error)
        }),
    ensures
        ({
            let b = remaining::todo_body(p, c.state, remaining::todo(p, c.state));
            let (d, e) = parser::body_step(st, c, b);
            &&& settled(p, d)
            &&& d.recovery == c.recovery
            &&& leads(s, p, c, d, marks(laws::listed(e)))
        }),
{
    let steps = remaining::todo(p, c.state);
    let b = remaining::todo_body(p, c.state, steps);
    let (d, e) = parser::body_step(st, c, b);
    let cont = cont_of(p, c.state);
    let fall = (c.state + 1) as u32;
    remaining::lemma_state_does(p, c.state);
    if steps.len() == 0 {
        lemma_no_instr(st, c, TailView::Ret);
        lemma_go_on(s, p, c, c.state);
        assert(d == parser::go_on(c, cont));
        assert(marks(laws::listed(e)) =~= Seq::<Mark>::empty());
        assert forall|w: Seq<Mark>| on_gives(s, p, d.state, d.ret, w) implies on_gives(
            s,
            p,
            c.state,
            c.ret,
            #[trigger] (marks(laws::listed(e)) + w),
        ) by {
            assert(marks(laws::listed(e)) + w =~= w);
            assert(after_gives(s, p, c.state, c.ret, w));
            assert(w.take(0).len() == 0);
            assert(w.skip(0) =~= w);
            assert(state_gives(s, p, c.state, w.take(0)));
        }
    } else {
        let op = steps[0].0;
        let after = if steps.len() == 1 {
            TailView::Ret
        } else {
            TailView::Jump(fall)
        };
        assert(remaining::op_arrives(p, remaining::todo(p, c.state)[0].0));
        match op {
            OpView::Enter(k) => {
                let i = table::InstrView::Enter(k);
                lemma_one_instr(st, c, i, after);
                let (x, ev) = parser::instr_step(st, c, i);
                lemma_event_step(s, p, c, x, ev->0, Mark::Enter(k));
            },
            OpView::Exit(k) => {
                let i = table::InstrView::Exit(k);
                lemma_one_instr(st, c, i, after);
                let (x, ev) = parser::instr_step(st, c, i);
                lemma_event_step(s, p, c, x, ev->0, Mark::Exit(k));
            },
            OpView::Expect(k, name, sync, label) => {
                let id = layout::label_id(p.labels, label);
                let i = table::InstrView::Expect(k, name, sync, id);
                lemma_one_instr(st, c, i, after);
                let (x, ev) = parser::instr_step(st, c, i);
                assert(parser::look_kind(c, 0) == Some(k));
                lemma_event_step(s, p, c, x, ev->0, Mark::Token(k, id));
            },
            OpView::Call(t) => {
                if steps.len() == 1 {
                    lemma_no_instr(st, c, TailView::Jump(layout::state_of(p, t)));
                } else {
                    lemma_one_instr(
                        st,
                        c,
                        table::InstrView::PushRet(fall),
                        TailView::Jump(layout::state_of(p, t)),
                    );
                }
                lemma_target_step(s, p, c, t);
                assert(marks(laws::listed(e)) =~= Seq::<Mark>::empty());
            },
            OpView::Opt(first, t) => {
                let jump = table::jump_body(layout::state_of(p, t));
                lemma_no_instr(st, c, TailView::Opt(first, Box::new(jump), cont));
                lemma_jumps(st, parser::calling(c, cont), layout::state_of(p, t));
                assert(marks(laws::listed(e)) =~= Seq::<Mark>::empty());
                if parser::in_first(c, parser::first_seqs(st, first)) {
                    lemma_target_step(s, p, c, t);
                } else {
                    lemma_skip_step(s, p, c);
                }
            },
            OpView::Star(first, t) => {
                let jump = table::jump_body(layout::state_of(p, t));
                lemma_no_instr(st, c, TailView::Star(first, Box::new(jump), cont, c.state));
                lemma_jumps(st, parser::pushed(c, c.state), layout::state_of(p, t));
                assert(marks(laws::listed(e)) =~= Seq::<Mark>::empty());
                if parser::in_first(c, parser::first_seqs(st, first)) {
                    lemma_round_step(s, p, c, t, first);
                } else {
                    lemma_skip_step(s, p, c);
                }
            },
            OpView::Dispatch(arms, has_eps, sync) => {
                let entries = dispatch::arm_entries(layout::arm_states(p, arms), p.pool);
                let tree = dispatch::dispatch_tree(layout::arm_states(p, arms), p.pool, has_eps);
                lemma_no_instr(st, c, TailView::Dispatch(tree, sync, cont, Seq::empty()));
                let leaf = lemma_trie(
                    st,
                    c,
                    entries,
                    0,
                    dispatch::outer_default(has_eps),
                    dispatch::longest(entries),
                    sync,
                    cont,
                    Seq::empty(),
                );
                match leaf {
                    LeafView::Arm(_) => {
                        let i = choose|i: int|
                            0 <= i < entries.len() && leaf == dispatch::arm_leaf(
                                (#[trigger] entries[i]).1,
                            );
                        lemma_arm_entry(p, arms, i);
                        let m = choose|m: int|
                            0 <= m < arms.len() && entries[i].1 == layout::state_of(
                                p,
                                (#[trigger] arms[m]).1,
                            );
                        let t = arms[m].1;
                        lemma_jumps(st, parser::calling(c, cont), layout::state_of(p, t));
                        assert(marks(laws::listed(e)) =~= Seq::<Mark>::empty());
                        lemma_target_step(s, p, c, t);
                    },
                    LeafView::Fallthrough => {
                        assert(marks(laws::listed(e)) =~= Seq::<Mark>::empty());
                        lemma_skip_step(s, p, c);
                    },
                    LeafView::Error => {},
                }
            },
        }
    }
}

proof fn lemma_marks_joined(a: Seq<RawView>, b: Seq<RawView>)
    ensures
        marks(a + b) == marks(a) + marks(b),
    decreases a.len(),
{
    if a.len() == 0 {
        assert(a + b =~= b);
        assert(marks(a) + marks(b) =~= marks(b));
    } else {
        assert((a + b).skip(1) =~= a.skip(1) + b);
        assert((a + b)[0] == a[0]);
        lemma_marks_joined(a.skip(1), b);
        if let Some(m) = mark_of(a[0]) {
            assert(seq![m] + (marks(a.skip(1)) + marks(b)) =~= (seq![m] + marks(a.skip(1)))
                + marks(b));
        }
    }
}

/// A run without an error to the end gives what the state has to give.
proof fn lemma_run(s: Senses, p: Plan, st: StateTable, m: TableMatcher, v: ParserView, n: nat)
    requires
        meant(s, p),
        st.states@ == layout::states_upto(p, p.order.len()),
        settled(p, v.cursor),
        v.cursor.recovery is None,
        v.garbage is None,
        tree::clean(parser::events_within(st, m, false, v, n)),
        parser::turn(st, m, false, laws::after_turns(st, m, false, v, n)).1 is Done,
    ensures
        on_gives(
            s,
            p,
            v.cursor.state,
            v.cursor.ret,
            marks(parser::events_within(st, m, false, v, n)),
        ),
    decreases n,
{
    let c = v.cursor;
    let (q, t) = parser::turn(st, m, false, v);
    let events = parser::events_within(st, m, false, v, n);
    if n == 0 || t is Done {
        assert(t is Done);
        assert(c.state == TERMINATED);
    } else {
        let rest = parser::events_within(st, m, false, q, (n - 1) as nat);
        let here: Seq<RawView> = match t {
            TurnView::Event(e) => seq![e],
            _ => Seq::empty(),
        };
        assert(events =~= here + rest);
        tree::lemma_clean_parts(here, rest);
        lemma_marks_joined(here, rest);
        if let TurnView::Event(e) = t {
            assert(!(here[0] is Error));
        }
        if c.look.len() < st.k {
            assert(marks(here) + marks(rest) =~= marks(rest));
            lemma_run(s, p, st, m, q, (n - 1) as nat);
        } else {
            assert(c.state != TERMINATED);
            remaining::lemma_state_does(p, c.state);
            let b = remaining::todo_body(p, c.state, remaining::todo(p, c.state));
            let e = parser::body_step(st, c, b).1;
            assert(here =~= laws::listed(e));
            lemma_step(s, p, st, c);
            lemma_run(s, p, st, m, q, (n - 1) as nat);
            assert(on_gives(s, p, c.state, c.ret, marks(here) + marks(rest)));
        }
    }
}

/// What the derivations of a lowered grammar speak of.
pub open spec fn terms_of(ag: AnalyzedGrammar, r: StateTable) -> Terms {
    Terms {
        rules: ag.grammar.rule_list(),
        tokens: ag.grammar.token_list(),
        labels: names::list_view(r.labels@),
    }
}

/// A run of a table as it was laid out.
proof fn lemma_laid(
    st: StateTable,
    prog: Program,
    ag: AnalyzedGrammar,
    dopts: DfaOpts,
    m: TableMatcher,
    src: Seq<char>,
    i: int,
    n: nat,
)
    requires
        ag.wf(),
        pipeline::lowerable(ag),
        program::is_program(prog, ag),
        layout::is_layout(st, prog, ag, dopts),
        0 <= i < st.entry_states@.len(),
        ({
            let v = parser::started(src, st.entry_states@[i].1);
            &&& tree::clean(parser::events_within(st, m, false, v, n))
            &&& parser::turn(st, m, false, laws::after_turns(st, m, false, v, n)).1 is Done
        }),
    ensures
        derivation::derives(
            terms_of(ag, st),
            st.entry_states@[i].0@,
            marks(
                parser::events_within(
                    st,
                    m,
                    false,
                    parser::started(src, st.entry_states@[i].1),
                    n,
                ),
            ),
        ),
{
    let rules = ag.grammar.rule_list();
    let t = terms_of(ag, st);
    let s = Senses {
        terms: t,
        calls: derivation::derivable(t),
        blocks: meaning::rule_senses(ag, rules.len()),
    };
    let p = layout::plan_of(prog);
    closed::law_program_is_closed(prog, ag);
    pipeline::lemma_slots(prog, ag);
    derivation::lemma_derivable_closed(t);
    let built = program::lowered_rules(ag, rules.len());
    meaning::lemma_count(ag, rules.len());
    meaning::lemma_rules_fit(s, ag, rules.len());
    remaining::lemma_plan_arrives(prog);
    assert(p.blocks == built.0.blocks);
    assert(p.rules == built.1);
    assert(meant(s, p));
    let name = st.entry_states@[i].0@;
    let e = st.entry_states@[i].1;
    lemma_entry_name(prog, prog.rule_order@.len(), i);
    assert(layout::entries_view(st.entry_states@)[i] == (name, e));
    let target = TargetView::Rule(name);
    remaining::lemma_rule_arrives(prog, name);
    assert(e == layout::state_of(p, target));
    let v = parser::started(src, e);
    let w = marks(parser::events_within(st, m, false, v, n));
    lemma_run(s, p, st, m, v, n);
    let k = choose|k: int|
        0 <= k <= w.len() && state_gives(s, p, e, #[trigger] w.take(k)) && rest_gives(
            s,
            p,
            Seq::empty(),
            w.skip(k),
        );
    assert(w.take(k) =~= w);
    lemma_target(s, p, target, w);
}

pub proof fn lemma_entry_name(prog: Program, n: nat, i: int)
    requires
        layout::program_ok(prog),
        n <= prog.rule_order@.len(),
        0 <= i < layout::entries_upto(prog, n).len(),
    ensures
        ({
            let (name, e) = layout::entries_upto(prog, n)[i];
            &&& names::list_view(prog.rule_order@).contains(name)
            &&& prog.rule_entry@.contains_key(name)
            &&& e == layout::entry_of(layout::plan_of(prog), prog.rule_entry@[name].0)
        }),
    decreases n,
{
    if n > 0 {
        let l = names::list_view(prog.rule_order@);
        let before = layout::entries_upto(prog, (n - 1) as nat);
        if i < before.len() {
            lemma_entry_name(prog, (n - 1) as nat, i);
            assert(layout::entries_upto(prog, n)[i] == before[i]);
        } else {
            assert(l[n - 1] == prog.rule_order@[n - 1]@);
            assert(l.contains(l[n - 1]));
        }
    }
}

/// A parse of a lowered grammar that comes to its end without an error gives
/// what the grammar derives from the entry rule: every rule between the marks
/// that enter and leave it, and every token with its label.
pub proof fn law_accepted_is_derived(
    r: StateTable,
    ag: AnalyzedGrammar,
    opts: LoweringOpts,
    dopts: DfaOpts,
    m: TableMatcher,
    src: Seq<char>,
    i: int,
    n: nat,
)
    requires
        ag.wf(),
        pipeline::lowerable(ag),
        pipeline::is_lowered(r, ag, opts, dopts),
        0 <= i < r.entry_states@.len(),
        ({
            let v = parser::started(src, r.entry_states@[i].1);
            &&& tree::clean(parser::events_within(r, m, false, v, n))
            &&& parser::turn(r, m, false, laws::after_turns(r, m, false, v, n)).1 is Done
        }),
    ensures
        derivation::derives(
            terms_of(ag, r),
            r.entry_states@[i].0@,
            marks(
                parser::events_within(
                    r,
                    m,
                    false,
                    parser::started(src, r.entry_states@[i].1),
                    n,
                ),
            ),
        ),
{
    let (prog, laid): (Program, StateTable) = choose|prog: Program, laid: StateTable|
        program::is_program(prog, ag) && #[trigger] layout::is_layout(laid, prog, ag, dopts)
            && pipeline::finished(r, laid, opts);
    let last = optimize::rounds(
        laid.states@,
        optimize::entry_set(laid.entry_states@),
        opts,
        usize::MAX as nat,
    );
    let (mid, f): (StateTable, Firsts) = choose|mid: StateTable, f: Firsts|
        {
            &&& mid == (StateTable {
                states: mid.states,
                entry_states: mid.entry_states,
                ..laid
            })
            &&& mid.states@ == optimize::compacted(last)
            &&& layout::entries_view(mid.entry_states@) == optimize::entries_renumbered(
                last,
                layout::entries_view(laid.entry_states@),
            )
            &&& #[trigger] state_first::is_first(mid, f)
            &&& r == (StateTable { states: r.states, first_sets: r.first_sets, ..mid })
            &&& r.states@ == recovery::stamped(mid, f)
            &&& pipeline::marked(r.first_sets@, laid.first_sets@, r)
        };
    closed::law_program_is_closed(prog, ag);
    pipeline::lemma_slots(prog, ag);
    let p = layout::plan_of(prog);
    let o = nesting::plan_owed(p);
    nesting::law_layout_is_level(prog, ag);
    optimized::law_layout_is_sound(prog, ag);
    layout::lemma_state_ids(p, p.order.len());
    let before = layout::entries_view(laid.entry_states@);
    let after = layout::entries_view(r.entry_states@);
    assert(before.len() == laid.entry_states@.len());
    assert(after.len() == r.entry_states@.len());
    assert(before[i] == (laid.entry_states@[i].0@, laid.entry_states@[i].1));
    assert(after[i] == (r.entry_states@[i].0@, r.entry_states@[i].1));
    lemma_entry_name(prog, prog.rule_order@.len(), i);
    let name = before[i].0;
    assert(after[i].0 == name);
    let l = names::list_view(prog.rule_order@);
    let j = choose|j: int| 0 <= j < l.len() && l[j] == name;
    assert(prog.rule_order@[j]@ == name);
    assert(o.contains_key(laid.entry_states@[i].1));
    let v = parser::started(src, r.entry_states@[i].1);
    let u = parser::started(src, laid.entry_states@[i].1);
    assert forall|id: u32| #[trigger] parser::first_seqs(r, id) == parser::first_seqs(mid, id) by {
        if id < r.first_sets@.len() {
            assert(r.first_sets@[id as int].id == laid.first_sets@[id as int].id);
        }
    }
    stamping::law_stamping_keeps_clean_events(mid, r, f, m, false, v, n);
    optimized::law_optimizing_keeps_events(laid, mid, opts, o, m, false, src, i, n);
    let k = choose|k: nat| #[trigger] optimized::gives_as(laid, mid, m, false, u, v, n, k);
    lemma_laid(laid, prog, ag, dopts, m, src, i, k);
}

} // verus!
