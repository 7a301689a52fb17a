//! The states of a lowered grammar are level: rules are left in the order in
//! which they were entered.
use vstd::prelude::*;

use crate::analysis::first_follow;
use crate::analysis::first_set::{self, NameSeq};
use crate::analysis::follow_k;
use crate::analysis::AnalyzedGrammar;
use crate::grammar::ir::ExprView;
use crate::lowering::closed;
use crate::lowering::dispatch::{self, Entry};
use crate::lowering::kept;
use crate::lowering::layout::{self, Plan};
use crate::lowering::levels::{self, Owed};
use crate::lowering::lexer_dfa::DfaOpts;
use crate::lowering::optimize::{self, LoweringOpts};
use crate::lowering::pipeline;
use crate::lowering::program::{self, BlockView, Built, OpView, Program, Step, TargetView, Within};
use crate::lowering::recovery;
use crate::lowering::state_first::{self, Firsts};
use crate::lowering::table::{self, LeafView, StateTable};
use crate::names;
use crate::sorting;
use crate::text;

verus! {

/// The step neither enters nor leaves a rule.
pub open spec fn plain(op: OpView) -> bool {
    !(op is Enter) && !(op is Exit)
}

/// No step enters or leaves a rule.
pub open spec fn all_plain(steps: Seq<Step>) -> bool {
    forall|i: int| 0 <= i < steps.len() ==> plain((#[trigger] steps[i]).0)
}

/// The rule that the first step enters, if it does.
pub open spec fn opened(b: BlockView) -> Seq<u16> {
    if b.steps.len() > 0 {
        match b.steps[0].0 {
            OpView::Enter(k) => seq![k],
            _ => Seq::empty(),
        }
    } else {
        Seq::empty()
    }
}

/// A block enters no rule, or it enters one with its first step and leaves it
/// with its last.
pub open spec fn shaped(b: BlockView) -> bool {
    if b.steps.len() > 0 && b.steps[0].0 is Enter {
        &&& b.steps.len() >= 2
        &&& b.steps.last().0 == OpView::Exit(b.steps[0].0->Enter_0)
        &&& forall|i: int| 0 < i < b.steps.len() - 1 ==> plain((#[trigger] b.steps[i]).0)
    } else {
        all_plain(b.steps)
    }
}

/// Every block is shaped.
pub open spec fn all_shaped(st: Built) -> bool {
    forall|b: int| 0 <= b < st.blocks.len() ==> shaped(#[trigger] st.blocks[b])
}

proof fn lemma_emit_plain(
    e: ExprView,
    tail: Set<NameSeq>,
    sym: Seq<char>,
    cx: Within,
    st: Built,
)
    requires
        all_shaped(st),
    ensures
        all_plain(program::emit(e, tail, sym, cx, st).0),
        all_shaped(program::emit(e, tail, sym, cx, st).1),
        program::emit(e, tail, sym, cx, st).1.blocks.len() >= st.blocks.len(),
    decreases e, 0nat,
{
    match e {
        ExprView::Concat(xs) => lemma_items_plain(xs, xs.len(), tail, sym, cx, st),
        ExprView::Alt(xs) => lemma_arms_plain(xs, xs.len(), tail, sym, cx, st),
        ExprView::Opt(x) => {
            let st1 = program::with_first(st, cx.ag, program::first_in(cx.ag, *x));
            lemma_sub_plain(*x, tail, sym + ":opt-body"@, cx, st1);
        },
        ExprView::Star(x) => {
            let first = program::first_in(cx.ag, *x);
            let st1 = program::with_first(st, cx.ag, first);
            let inner = program::looped(cx.ag, *x, tail);
            lemma_sub_plain(*x, inner, sym + ":star-body"@, cx, st1);
        },
        ExprView::Plus(x) => {
            let first = program::first_in(cx.ag, *x);
            let st1 = program::with_first(st, cx.ag, first);
            let inner = program::looped(cx.ag, *x, tail);
            lemma_sub_plain(*x, inner, sym + ":plus-body"@, cx, st1);
        },
        ExprView::Label(_, x) => {
            if !(*x is Token) {
                lemma_emit_plain(*x, tail, sym, cx, st);
            }
        },
        _ => {},
    }
}

proof fn lemma_sub_plain(
    e: ExprView,
    tail: Set<NameSeq>,
    label: Seq<char>,
    cx: Within,
    st: Built,
)
    requires
        all_shaped(st),
    ensures
        all_shaped(program::emit_sub(e, tail, label, cx, st)),
        program::emit_sub(e, tail, label, cx, st).blocks.len() >= st.blocks.len(),
    decreases e, 1nat,
{
    let block = program::empty_block(label, cx.rule);
    let reserved = Built { blocks: st.blocks.push(block), ..st };
    assert forall|b: int| 0 <= b < reserved.blocks.len() implies shaped(
        #[trigger] reserved.blocks[b],
    ) by {
        if b < st.blocks.len() {
            assert(shaped(st.blocks[b]));
        }
    }
    lemma_emit_plain(e, tail, label, cx, reserved);
    let (steps, after) = program::emit(e, tail, label, cx, reserved);
    let r = program::emit_sub(e, tail, label, cx, st);
    assert forall|b: int| 0 <= b < r.blocks.len() implies shaped(#[trigger] r.blocks[b]) by {
        if b == st.blocks.len() {
            assert(r.blocks[b].steps =~= steps);
        } else {
            assert(shaped(after.blocks[b]));
        }
    }
}

proof fn lemma_items_plain(
    xs: Seq<ExprView>,
    n: nat,
    tail: Set<NameSeq>,
    sym: Seq<char>,
    cx: Within,
    st: Built,
)
    requires
        all_shaped(st),
    ensures
        all_plain(program::emit_items(xs, n, tail, sym, cx, st).0),
        all_shaped(program::emit_items(xs, n, tail, sym, cx, st).1),
        program::emit_items(xs, n, tail, sym, cx, st).1.blocks.len() >= st.blocks.len(),
    decreases xs, n,
{
    if 0 < n <= xs.len() {
        lemma_items_plain(xs, (n - 1) as nat, tail, sym, cx, st);
        let (before, mid) = program::emit_items(xs, (n - 1) as nat, tail, sym, cx, st);
        let rest = follow_k::rest_then(
            xs,
            n as int,
            tail,
            cx.ag.nullable@,
            first_follow::firsts(cx.ag.first),
            cx.ag.k as nat,
        );
        lemma_emit_plain(xs[n - 1], rest, sym, cx, mid);
        let here = program::emit(xs[n - 1], rest, sym, cx, mid).0;
        let steps = program::emit_items(xs, n, tail, sym, cx, st).0;
        assert forall|i: int| 0 <= i < steps.len() implies plain((#[trigger] steps[i]).0) by {
            if i < before.len() {
                assert(steps[i] == before[i]);
            } else {
                assert(steps[i] == here[i - before.len()]);
            }
        }
    }
}

proof fn lemma_arms_plain(
    xs: Seq<ExprView>,
    n: nat,
    tail: Set<NameSeq>,
    sym: Seq<char>,
    cx: Within,
    st: Built,
)
    requires
        all_shaped(st),
    ensures
        all_shaped(program::emit_arms(xs, n, tail, sym, cx, st).1),
        program::emit_arms(xs, n, tail, sym, cx, st).1.blocks.len() >= st.blocks.len(),
    decreases xs, n,
{
    if 0 < n <= xs.len() {
        lemma_arms_plain(xs, (n - 1) as nat, tail, sym, cx, st);
        let mid = program::emit_arms(xs, (n - 1) as nat, tail, sym, cx, st).1;
        let first = program::first_in(cx.ag, xs[n - 1]);
        if !first.subset_of(first_follow::only_eps()) {
            let predict = first_set::concat_k_of(first, tail, cx.ag.k as nat).remove(
                Seq::empty(),
            );
            let st1 = program::with_first(mid, cx.ag, predict);
            let label = sym + ":alt"@ + text::decimal((n - 1) as nat);
            lemma_sub_plain(xs[n - 1], tail, label, cx, st1);
        }
    }
}

proof fn lemma_rules_shaped(ag: AnalyzedGrammar, n: nat)
    requires
        n <= ag.grammar.rule_list().len(),
    ensures
        all_shaped(program::lowered_rules(ag, n).0),
    decreases n,
{
    if n > 0 {
        let rules = ag.grammar.rule_list();
        lemma_rules_shaped(ag, (n - 1) as nat);
        let st = program::lowered_rules(ag, (n - 1) as nat).0;
        let rule = rules[n - 1];
        let row = sorting::kind_set(program::sync_of(ag, rule.name));
        let sync = program::place(st.syncs, row) as u32;
        let st1 = Built { syncs: program::joined(st.syncs, row), ..st };
        let cx = Within { ag, sync, rule: rule.name };
        let block = program::empty_block(rule.name, rule.name);
        let reserved = Built { blocks: st1.blocks.push(block), ..st1 };
        let tail = first_follow::set_at(first_follow::firsts(ag.follow_k), rule.name);
        assert forall|b: int| 0 <= b < reserved.blocks.len() implies shaped(
            #[trigger] reserved.blocks[b],
        ) by {
            if b < st.blocks.len() {
                assert(shaped(st.blocks[b]));
            }
        }
        lemma_emit_plain(rule.body, tail, rule.name, cx, reserved);
        let (body, after) = program::emit(rule.body, tail, rule.name, cx, reserved);
        let r = program::lowered_rules(ag, n).0;
        assert(r == program::lowered_rule(ag, rule, sync, st1));
        assert forall|b: int| 0 <= b < r.blocks.len() implies shaped(#[trigger] r.blocks[b]) by {
            if b == st.blocks.len() {
                let steps = r.blocks[b].steps;
                if rule.is_fragment {
                    assert(steps =~= body);
                } else {
                    assert forall|i: int| 0 < i < steps.len() - 1 implies plain(
                        (#[trigger] steps[i]).0,
                    ) by {
                        assert(steps[i] == body[i - 1]);
                    }
                }
            } else {
                assert(shaped(after.blocks[b]));
            }
        }
    }
}

/// Distinct numbers below `n` are at most `n`.
proof fn lemma_pigeonhole(l: Seq<u32>, n: nat)
    requires
        l.no_duplicates(),
        forall|i: int| 0 <= i < l.len() ==> (#[trigger] l[i]) < n,
    ensures
        l.len() <= n,
    decreases n,
{
    if n > 0 {
        if exists|i: int| 0 <= i < l.len() && l[i] == n - 1 {
            let i = choose|i: int| 0 <= i < l.len() && l[i] == n - 1;
            let r = l.remove(i);
            assert forall|a: int, b: int| 0 <= a < r.len() && 0 <= b < r.len() && a != b implies r[a]
                != r[b] by {
                let p = if a < i { a } else { a + 1 };
                let q = if b < i { b } else { b + 1 };
                assert(r[a] == l[p] && r[b] == l[q]);
            }
            assert forall|a: int| 0 <= a < r.len() implies (#[trigger] r[a]) < n - 1 by {
                let p = if a < i { a } else { a + 1 };
                assert(r[a] == l[p]);
                assert(l[p] != l[i]);
            }
            lemma_pigeonhole(r, (n - 1) as nat);
        } else {
            assert forall|a: int| 0 <= a < l.len() implies (#[trigger] l[a]) < n - 1 by {
                assert(l[a] != n - 1);
            }
            lemma_pigeonhole(l, (n - 1) as nat);
        }
    } else if l.len() > 0 {
        assert(l[0] < 0);
    }
}

/// An order of blocks: none twice, and all are there.
pub open spec fn proper(blocks: Seq<BlockView>, order: Seq<u32>) -> bool {
    &&& order.no_duplicates()
    &&& forall|i: int| 0 <= i < order.len() ==> (#[trigger] order[i]) < blocks.len()
}

/// An order that has as many blocks as there are has them all.
proof fn lemma_full_order(blocks: Seq<BlockView>, order: Seq<u32>, b: u32)
    requires
        proper(blocks, order),
        order.len() >= blocks.len(),
        b < blocks.len(),
    ensures
        order.contains(b),
{
    if !order.contains(b) {
        let more = order.push(b);
        assert forall|i: int| 0 <= i < more.len() implies (#[trigger] more[i]) < blocks.len() by {
            if i < order.len() {
                assert(more[i] == order[i]);
            }
        }
        assert forall|i: int, j: int|
            0 <= i < more.len() && 0 <= j < more.len() && i != j implies more[i] != more[j] by {
            if i < order.len() {
                assert(order.contains(order[i]));
            }
            if j < order.len() {
                assert(order.contains(order[j]));
            }
        }
        lemma_pigeonhole(more, blocks.len());
    }
}

/// What block `b` can go to is in the order.
pub open spec fn followed(blocks: Seq<BlockView>, order: Seq<u32>, b: u32) -> bool {
    forall|t: u32|
        t < blocks.len() && #[trigger] layout::step_blocks(blocks[b as int].steps).contains(t)
            ==> order.contains(t)
}

proof fn lemma_unseen(l: Seq<u32>, seen: Seq<u32>, t: u32)
    requires
        l.contains(t),
    ensures
        seen.contains(t) || layout::unseen(l, seen).contains(t),
    decreases l.len(),
{
    let i = choose|i: int| 0 <= i < l.len() && l[i] == t;
    let u = layout::unseen(l.drop_last(), seen);
    if i < l.len() - 1 {
        assert(l.drop_last()[i] == t);
        lemma_unseen(l.drop_last(), seen, t);
        if !seen.contains(t) {
            let j = choose|j: int| 0 <= j < u.len() && u[j] == t;
            assert(layout::unseen(l, seen)[j] == t);
        }
    } else if !seen.contains(t) {
        assert(layout::unseen(l, seen)[u.len() as int] == t);
    }
}

proof fn lemma_bfs(blocks: Seq<BlockView>, queue: Seq<u32>, order: Seq<u32>)
    requires
        proper(blocks, order),
    ensures
        ({
            let r = layout::bfs_order(blocks, queue, order);
            &&& proper(blocks, r)
            &&& forall|b: u32| #[trigger] order.contains(b) ==> r.contains(b)
            &&& forall|b: u32| #[trigger] queue.contains(b) && b < blocks.len() ==> r.contains(b)
            &&& forall|b: u32| #[trigger]
                r.contains(b) ==> order.contains(b) || followed(blocks, r, b)
        }),
    decreases blocks.len() - order.len(), queue.len(),
{
    let r = layout::bfs_order(blocks, queue, order);
    if queue.len() == 0 || order.len() >= blocks.len() {
        assert forall|b: u32| #[trigger] queue.contains(b) && b < blocks.len() implies r.contains(
            b,
        ) by {
            lemma_full_order(blocks, order, b);
        }
    } else {
        let b = queue[0];
        let rest = queue.skip(1);
        assert forall|x: u32| #[trigger] queue.contains(x) implies x == b || rest.contains(x) by {
            let i = choose|i: int| 0 <= i < queue.len() && queue[i] == x;
            if i > 0 {
                assert(rest[i - 1] == x);
            }
        }
        if order.contains(b) || b >= blocks.len() {
            lemma_bfs(blocks, rest, order);
        } else {
            let next = order.push(b);
            let targets = layout::step_blocks(blocks[b as int].steps);
            let more = layout::unseen(targets, next);
            assert forall|i: int, j: int|
                0 <= i < next.len() && 0 <= j < next.len() && i != j implies next[i] != next[j] by {
                if i < order.len() {
                    assert(order.contains(order[i]));
                }
                if j < order.len() {
                    assert(order.contains(order[j]));
                }
            }
            assert forall|i: int| 0 <= i < next.len() implies (#[trigger] next[i])
                < blocks.len() by {
                if i < order.len() {
                    assert(next[i] == order[i]);
                }
            }
            lemma_bfs(blocks, rest + more, next);
            assert forall|x: u32| #[trigger] order.contains(x) implies r.contains(x) by {
                let i = choose|i: int| 0 <= i < order.len() && order[i] == x;
                assert(next[i] == x);
                assert(next.contains(x));
            }
            assert(next[order.len() as int] == b);
            assert(next.contains(b));
            assert forall|x: u32| #[trigger] queue.contains(x) && x < blocks.len() implies r.contains(
                x,
            ) by {
                if x != b {
                    let i = choose|i: int| 0 <= i < rest.len() && rest[i] == x;
                    assert((rest + more)[i] == x);
                    assert((rest + more).contains(x));
                }
            }
            assert(followed(blocks, r, b)) by {
                assert forall|t: u32|
                    t < blocks.len() && #[trigger] targets.contains(t) implies r.contains(t) by {
                    lemma_unseen(targets, next, t);
                    if more.contains(t) {
                        let i = choose|i: int| 0 <= i < more.len() && more[i] == t;
                        assert((rest + more)[rest.len() + i] == t);
                        assert((rest + more).contains(t));
                    }
                }
            }
            assert forall|x: u32| #[trigger] r.contains(x) implies order.contains(x) || followed(
                blocks,
                r,
                x,
            ) by {
                if next.contains(x) && x != b {
                    let i = choose|i: int| 0 <= i < next.len() && next[i] == x;
                    assert(order[i] == x);
                }
            }
        }
    }
}

/// The order has the roots, and what its blocks can go to.
pub proof fn lemma_order(blocks: Seq<BlockView>, roots: Seq<u32>)
    ensures
        ({
            let r = layout::order_from(blocks, roots);
            &&& proper(blocks, r)
            &&& forall|b: u32| #[trigger] roots.contains(b) && b < blocks.len() ==> r.contains(b)
            &&& forall|b: u32| #[trigger] r.contains(b) ==> followed(blocks, r, b)
        }),
    decreases roots.len(),
{
    if roots.len() > 0 {
        let p = roots.drop_last();
        lemma_order(blocks, p);
        let before = layout::order_from(blocks, p);
        let queue = seq![roots.last()];
        lemma_bfs(blocks, queue, before);
        let r = layout::order_from(blocks, roots);
        assert(queue[0] == roots.last());
        assert(queue.contains(roots.last()));
        assert forall|b: u32| #[trigger] roots.contains(b) && b < blocks.len() implies r.contains(
            b,
        ) by {
            let i = choose|i: int| 0 <= i < roots.len() && roots[i] == b;
            if i < p.len() {
                assert(p[i] == b);
                assert(p.contains(b));
            }
        }
        assert forall|b: u32| #[trigger] r.contains(b) implies followed(blocks, r, b) by {
            if before.contains(b) {
                assert(followed(blocks, before, b));
            }
        }
    }
}

/// What each state of a block has to leave.
pub open spec fn block_owed(b: BlockView) -> Seq<Seq<u16>> {
    Seq::new(
        layout::slots(b),
        |i: int|
            if i == 0 {
                Seq::<u16>::empty()
            } else {
                opened(b)
            },
    )
}

/// What each state of the first `n` blocks of the order has to leave.
pub open spec fn owed_upto(p: Plan, n: nat) -> Seq<Seq<u16>>
    decreases n,
{
    if n == 0 || n > p.order.len() {
        Seq::empty()
    } else {
        owed_upto(p, (n - 1) as nat) + block_owed(p.blocks[p.order[n - 1] as int])
    }
}

/// What each state of a plan has to leave.
pub open spec fn plan_owed(p: Plan) -> Owed {
    let all = owed_upto(p, p.order.len());
    Map::new(|s: u32| 0 < s <= all.len(), |s: u32| all[s - 1])
}

proof fn lemma_owed_len(p: Plan, n: nat)
    requires
        n <= p.order.len(),
    ensures
        owed_upto(p, n).len() == layout::slots_upto(p.blocks, p.order, n),
    decreases n,
{
    if n > 0 {
        lemma_owed_len(p, (n - 1) as nat);
    }
}

proof fn lemma_owed_at(p: Plan, n: nat, j: int, i: int)
    requires
        0 <= j < n <= p.order.len(),
        0 <= i < layout::slots(p.blocks[p.order[j] as int]),
    ensures
        ({
            let at = layout::slots_upto(p.blocks, p.order, j as nat) + i;
            &&& at < owed_upto(p, n).len()
            &&& owed_upto(p, n)[at] == block_owed(p.blocks[p.order[j] as int])[i]
        }),
    decreases n,
{
    lemma_owed_len(p, n);
    lemma_owed_len(p, (n - 1) as nat);
    if j < n - 1 {
        lemma_owed_at(p, (n - 1) as nat, j, i);
    }
}

/// The first state of a block of the order has nothing to leave.
proof fn lemma_entry_owed(p: Plan, b: u32)
    requires
        p.order.contains(b),
        layout::slots_upto(p.blocks, p.order, p.order.len()) < u32::MAX,
    ensures
        plan_owed(p).contains_key(layout::entry_of(p, b)),
        plan_owed(p)[layout::entry_of(p, b)].len() == 0,
{
    program::lemma_place(p.order, b);
    let j = program::place(p.order, b);
    lemma_owed_at(p, p.order.len(), j, 0);
    lemma_owed_len(p, p.order.len());
}

/// The targets are first states of blocks of the order.
spec fn lands(p: Plan, t: TargetView) -> bool {
    plan_owed(p).contains_key(layout::state_of(p, t)) && plan_owed(p)[layout::state_of(
        p,
        t,
    )].len() == 0
}

spec fn op_lands(p: Plan, op: OpView) -> bool {
    match op {
        OpView::Call(t) => lands(p, t),
        OpView::Opt(_, t) => lands(p, t),
        OpView::Star(_, t) => lands(p, t),
        OpView::Dispatch(arms, _, _) => forall|i: int|
            0 <= i < arms.len() ==> lands(p, (#[trigger] arms[i]).1),
        _ => true,
    }
}

/// Every entry goes to a state that has nothing to leave.
spec fn entries_land(o: Owed, entries: Seq<Entry>) -> bool {
    forall|i: int|
        0 <= i < entries.len() ==> o.contains_key((#[trigger] entries[i]).1)
            && o[entries[i].1].len() == 0
}

proof fn lemma_jump_level(o: Owed, s: u32, cur: Seq<u16>)
    requires
        o.contains_key(s),
        o[s].len() == 0,
        cur.len() == 0,
    ensures
        levels::body_level(o, table::jump_body(s), cur),
{
    let b = table::jump_body(s);
    assert(levels::instrs_owed(o, b.instrs, b.instrs.len(), cur) == Some(cur));
    assert(o[s] =~= cur);
}

proof fn lemma_trie_level(
    o: Owed,
    entries: Seq<Entry>,
    depth: usize,
    outer: LeafView,
    bound: nat,
    cur: Seq<u16>,
)
    requires
        entries_land(o, entries),
        levels::leaf_level(o, outer, cur),
        cur.len() == 0,
    ensures
        levels::tree_level(o, dispatch::trie(entries, depth, outer, bound), cur),
    decreases bound - depth,
{
    let deeper = dispatch::going_on(entries, depth as int);
    let default = dispatch::default_at(entries, depth as int, outer);
    let e = dispatch::end_at(entries, depth as int);
    assert(levels::leaf_level(o, default, cur)) by {
        if e < entries.len() {
            lemma_end_at(entries, depth as int);
            lemma_jump_level(o, entries[e].1, cur);
        }
    }
    let t = dispatch::trie(entries, depth, outer, bound);
    if !(deeper.len() == 0 || depth >= bound || depth >= usize::MAX) {
        let subs = t->Switch_2;
        let kinds = t->Switch_1;
        lemma_end_at(entries, depth as int);
        assert(entries_land(o, deeper)) by {
            assert forall|i: int| 0 <= i < deeper.len() implies o.contains_key(
                (#[trigger] deeper[i]).1,
            ) && o[deeper[i].1].len() == 0 by {
                assert(deeper[i] == entries[i]);
            }
        }
        assert forall|i: int| 0 <= i < subs.len() implies levels::tree_level(
            o,
            #[trigger] subs[i],
            cur,
        ) by {
            lemma_with_kind(o, deeper, depth as int, kinds[i]);
            lemma_trie_level(
                o,
                dispatch::with_kind(deeper, depth as int, kinds[i]),
                (depth + 1) as usize,
                default,
                bound,
                cur,
            );
        }
    }
}

pub proof fn lemma_end_at(entries: Seq<Entry>, depth: int)
    ensures
        0 <= dispatch::end_at(entries, depth) <= entries.len(),
    decreases entries.len(),
{
    if entries.len() > 0 {
        lemma_end_at(entries.drop_last(), depth);
    }
}

proof fn lemma_with_kind(o: Owed, entries: Seq<Entry>, depth: int, kind: u16)
    requires
        entries_land(o, entries),
    ensures
        entries_land(o, dispatch::with_kind(entries, depth, kind)),
    decreases entries.len(),
{
    if entries.len() > 0 {
        let p = entries.drop_last();
        assert forall|i: int| 0 <= i < p.len() implies o.contains_key((#[trigger] p[i]).1)
            && o[p[i].1].len() == 0 by {
            assert(p[i] == entries[i]);
        }
        lemma_with_kind(o, p, depth, kind);
        assert(o.contains_key(entries[entries.len() - 1].1));
    }
}

proof fn lemma_arm_entries(p: Plan, arms: Seq<(u32, TargetView)>)
    requires
        forall|i: int| 0 <= i < arms.len() ==> lands(p, (#[trigger] arms[i]).1),
    ensures
        entries_land(
            plan_owed(p),
            dispatch::arm_entries(layout::arm_states(p, arms), p.pool),
        ),
    decreases arms.len(),
{
    let all = layout::arm_states(p, arms);
    if arms.len() > 0 {
        let before = arms.drop_last();
        assert(layout::arm_states(p, before) =~= all.drop_last());
        assert forall|i: int| 0 <= i < before.len() implies lands(p, (#[trigger] before[i]).1) by {
            assert(before[i] == arms[i]);
        }
        lemma_arm_entries(p, before);
        let n = arms.len() - 1;
        assert(lands(p, arms[n].1));
        assert(all.last().1 == layout::state_of(p, arms[n].1));
        let first = dispatch::arm_entries(all.drop_last(), p.pool);
        let r = dispatch::arm_entries(all, p.pool);
        assert forall|i: int| 0 <= i < r.len() implies plan_owed(p).contains_key(
            (#[trigger] r[i]).1,
        ) && plan_owed(p)[r[i].1].len() == 0 by {
            if i < first.len() {
                assert(r[i] == first[i]);
            }
        }
    }
}

/// The state of one step of a block is level.
proof fn lemma_op_level(p: Plan, j: int, i: int)
    requires
        0 <= j < p.order.len(),
        ({
            let b = p.blocks[p.order[j] as int];
            shaped(b) && 0 <= i < b.steps.len() && op_lands(p, b.steps[i].0)
        }),
        layout::slots_upto(p.blocks, p.order, p.order.len()) < u32::MAX,
    ensures
        ({
            let b = p.blocks[p.order[j] as int];
            let id = (1 + layout::slots_upto(p.blocks, p.order, j as nat) + i) as u32;
            &&& plan_owed(p).contains_key(id)
            &&& levels::body_level(
                plan_owed(p),
                layout::op_body(p, b.steps[i].0, id, i + 1 == b.steps.len()),
                plan_owed(p)[id],
            )
        }),
{
    let o = plan_owed(p);
    let b = p.blocks[p.order[j] as int];
    let op = b.steps[i].0;
    let id = (1 + layout::slots_upto(p.blocks, p.order, j as nat) + i) as u32;
    let is_tail = i + 1 == b.steps.len();
    let fall = (id + 1) as u32;
    lemma_owed_len(p, p.order.len());
    lemma_owed_at(p, p.order.len(), j, i);
    let cur = o[id];
    if !is_tail {
        lemma_owed_at(p, p.order.len(), j, i + 1);
        assert(o.contains_key(fall) && o[fall] == opened(b));
    }
    let body = layout::op_body(p, op, id, is_tail);
    let none = Seq::<u16>::empty();
    assert(plain(op) ==> cur == (if is_tail {
        none
    } else {
        opened(b)
    })) by {
        if plain(op) {
            if b.steps[0].0 is Enter {
                assert(i > 0 && !is_tail);
            } else {
                assert(opened(b) =~= none);
                assert(cur =~= none);
            }
        }
    }
    if body.instrs.len() == 1 {
        assert(levels::instrs_owed(o, body.instrs, 0, cur) == Some(cur));
        assert(levels::instrs_owed(o, body.instrs, 1, cur) == levels::instr_owed(
            o,
            body.instrs[0],
            cur,
        ));
    }
    assert(cur.skip(cur.len() as int) =~= none);
    assert(cur.skip(0) =~= cur);
    match op {
        OpView::Enter(k) => {
            assert(i == 0) by {
                if b.steps[0].0 is Enter {
                    if 0 < i < b.steps.len() - 1 {
                        assert(plain(b.steps[i].0));
                    }
                } else {
                    assert(plain(b.steps[i].0));
                }
            }
            assert(cur.push(k) =~= opened(b));
        },
        OpView::Exit(k) => {
            assert(b.steps[0].0 is Enter && is_tail) by {
                if !(b.steps[0].0 is Enter) {
                    assert(plain(b.steps[i].0));
                } else if 0 < i < b.steps.len() - 1 {
                    assert(plain(b.steps[i].0));
                }
            }
            assert(cur =~= seq![k]);
            assert(cur.drop_last() =~= none);
        },
        OpView::Expect(_, _, _, _) => {},
        OpView::Call(t) => {
            assert(o[layout::state_of(p, t)] =~= none);
            if !is_tail {
                assert(levels::above(o, fall, cur) == Some(none));
            }
        },
        OpView::Opt(_, t) => {
            lemma_jump_level(o, layout::state_of(p, t), none);
            assert(levels::instrs_owed(o, body.instrs, 0, cur) == Some(cur));
        },
        OpView::Star(_, t) => {
            lemma_jump_level(o, layout::state_of(p, t), none);
            assert(levels::instrs_owed(o, body.instrs, 0, cur) == Some(cur));
        },
        OpView::Dispatch(arms, has_eps, _) => {
            let entries = dispatch::arm_entries(layout::arm_states(p, arms), p.pool);
            let outer = dispatch::outer_default(has_eps);
            lemma_arm_entries(p, arms);
            lemma_trie_level(o, entries, 0, outer, dispatch::longest(entries), none);
            assert(levels::instrs_owed(o, body.instrs, 0, cur) == Some(cur));
        },
    }
}

/// Each block of the order is shaped and goes to blocks of the order.
spec fn plan_lands(p: Plan) -> bool {
    forall|j: int, i: int|
        0 <= j < p.order.len() && 0 <= i < p.blocks[p.order[j] as int].steps.len() ==> op_lands(
            p,
            #[trigger] p.blocks[p.order[j] as int].steps[i].0,
        )
}

proof fn lemma_states_level(p: Plan, n: nat)
    requires
        n <= p.order.len(),
        layout::slots_upto(p.blocks, p.order, p.order.len()) < u32::MAX,
        forall|j: int| 0 <= j < p.order.len() ==> shaped(
            p.blocks[#[trigger] p.order[j] as int],
        ),
        plan_lands(p),
    ensures
        forall|m: int|
            0 <= m < layout::states_upto(p, n).len() ==> plan_owed(p).contains_key(
                (#[trigger] layout::states_upto(p, n)[m]).id,
            ) && levels::body_level(
                plan_owed(p),
                layout::states_upto(p, n)[m].body,
                plan_owed(p)[layout::states_upto(p, n)[m].id],
            ),
    decreases n,
{
    let states = layout::states_upto(p, n);
    let o = plan_owed(p);
    if n > 0 {
        lemma_states_level(p, (n - 1) as nat);
        let before = layout::states_upto(p, (n - 1) as nat);
        let b = p.blocks[p.order[n - 1] as int];
        let base = 1 + layout::slots_upto(p.blocks, p.order, (n - 1) as nat);
        let here = layout::block_states(p, b, base);
        assert forall|m: int| 0 <= m < states.len() implies o.contains_key(
            (#[trigger] states[m]).id,
        ) && levels::body_level(o, states[m].body, o[states[m].id]) by {
            if m < before.len() {
                assert(states[m] == before[m]);
            } else {
                let i = m - before.len();
                assert(states[m] == here[i]);
                assert(shaped(p.blocks[p.order[n - 1] as int]));
                if b.steps.len() == 0 {
                    lemma_owed_len(p, p.order.len());
                    lemma_owed_at(p, p.order.len(), n - 1, 0);
                    let body = here[i].body;
                    let cur = o[here[i].id];
                    assert(levels::instrs_owed(o, body.instrs, body.instrs.len(), cur) == Some(
                        cur,
                    ));
                } else {
                    assert(op_lands(p, p.blocks[p.order[n - 1] as int].steps[i].0));
                    lemma_op_level(p, n - 1, i);
                }
            }
        }
    }
}

pub proof fn lemma_step_block(steps: Seq<Step>, i: int, t: u32)
    requires
        0 <= i < steps.len(),
        layout::op_blocks(steps[i].0).contains(t),
    ensures
        layout::step_blocks(steps).contains(t),
    decreases steps.len(),
{
    let p = steps.drop_last();
    let a = layout::step_blocks(p);
    let b = layout::op_blocks(steps.last().0);
    if i < p.len() {
        assert(p[i] == steps[i]);
        lemma_step_block(p, i, t);
        let j = choose|j: int| 0 <= j < a.len() && a[j] == t;
        assert((a + b)[j] == t);
    } else {
        let j = choose|j: int| 0 <= j < b.len() && b[j] == t;
        assert((a + b)[a.len() + j] == t);
    }
}

pub proof fn lemma_arm_block(arms: Seq<(u32, TargetView)>, i: int, t: u32)
    requires
        0 <= i < arms.len(),
        layout::target_block(arms[i].1).contains(t),
    ensures
        layout::arm_blocks(arms).contains(t),
    decreases arms.len(),
{
    let p = arms.drop_last();
    let a = layout::arm_blocks(p);
    let b = layout::target_block(arms.last().1);
    if i < p.len() {
        assert(p[i] == arms[i]);
        lemma_arm_block(p, i, t);
        let j = choose|j: int| 0 <= j < a.len() && a[j] == t;
        assert((a + b)[j] == t);
    } else {
        let j = choose|j: int| 0 <= j < b.len() && b[j] == t;
        assert((a + b)[a.len() + j] == t);
    }
}

proof fn lemma_target_lands(prog: Program, j: int, t: TargetView)
    requires
        layout::program_ok(prog),
        layout::program_slots(prog) < u32::MAX,
        layout::target_ok(prog, t),
        ({
            let p = layout::plan_of(prog);
            &&& 0 <= j < p.order.len()
            &&& forall|b: u32| #[trigger]
                layout::target_block(t).contains(b) ==> layout::step_blocks(
                    p.blocks[p.order[j] as int].steps,
                ).contains(b)
        }),
    ensures
        lands(layout::plan_of(prog), t),
{
    let p = layout::plan_of(prog);
    let roots = layout::roots(prog);
    lemma_order(p.blocks, roots);
    match t {
        TargetView::Block(b) => {
            assert(layout::target_block(t)[0] == b);
            assert(layout::target_block(t).contains(b));
            assert(p.order.contains(p.order[j]));
            assert(followed(p.blocks, p.order, p.order[j]));
            assert(p.order.contains(b));
            lemma_entry_owed(p, b);
        },
        TargetView::Rule(n) => {
            let l = names::list_view(prog.rule_order@);
            let i = choose|i: int| 0 <= i < l.len() && l[i] == n;
            assert(prog.rule_order@[i]@ == n);
            assert(roots[i] == prog.rule_entry@[n].0);
            assert(roots.contains(roots[i]));
            lemma_entry_owed(p, prog.rule_entry@[n].0);
        },
    }
}

/// What a program is laid out to is level, and every rule starts with nothing
/// to leave.
pub proof fn law_layout_is_level(prog: Program, ag: AnalyzedGrammar)
    requires
        program::is_program(prog, ag),
        layout::program_ok(prog),
        layout::program_slots(prog) < u32::MAX,
    ensures
        ({
            let p = layout::plan_of(prog);
            &&& levels::all_level(plan_owed(p), layout::states_upto(p, p.order.len()))
            &&& forall|i: int|
                0 <= i < prog.rule_order@.len() ==> plan_owed(p).contains_key(
                    layout::entry_of(p, prog.rule_entry@[(#[trigger] prog.rule_order@[i])@].0),
                ) && plan_owed(p)[layout::entry_of(
                    p,
                    prog.rule_entry@[prog.rule_order@[i]@].0,
                )].len() == 0
        }),
{
    let p = layout::plan_of(prog);
    let o = plan_owed(p);
    let roots = layout::roots(prog);
    lemma_order(p.blocks, roots);
    lemma_rules_shaped(ag, ag.grammar.rule_list().len());
    let st = program::lowered_rules(ag, ag.grammar.rule_list().len()).0;
    assert(p.blocks == st.blocks);
    assert forall|i: int| 0 <= i < prog.rule_order@.len() implies p.order.contains(
        prog.rule_entry@[(#[trigger] prog.rule_order@[i])@].0,
    ) by {
        assert(roots[i] == prog.rule_entry@[prog.rule_order@[i]@].0);
        assert(roots.contains(roots[i]));
    }
    assert forall|j: int| 0 <= j < p.order.len() implies shaped(
        p.blocks[#[trigger] p.order[j] as int],
    ) by {
        assert(shaped(st.blocks[p.order[j] as int]));
    }
    assert forall|j: int, i: int|
        0 <= j < p.order.len() && 0 <= i < p.blocks[p.order[j] as int].steps.len() implies op_lands(
        p,
        #[trigger] p.blocks[p.order[j] as int].steps[i].0,
    ) by {
        let at = p.order[j] as int;
        let steps = p.blocks[at].steps;
        let op = steps[i].0;
        assert(op == prog.blocks@[at].ops@[i]@);
        assert(layout::op_ok(prog, op));
        assert forall|t: u32| #[trigger] layout::op_blocks(op).contains(t) implies
            layout::step_blocks(steps).contains(t) by {
            lemma_step_block(steps, i, t);
        }
        match op {
            OpView::Call(t) => {
                assert(layout::op_blocks(op) == layout::target_block(t));
                lemma_target_lands(prog, j, t);
            },
            OpView::Opt(_, t) => {
                assert(layout::op_blocks(op) == layout::target_block(t));
                lemma_target_lands(prog, j, t);
            },
            OpView::Star(_, t) => {
                assert(layout::op_blocks(op) == layout::target_block(t));
                lemma_target_lands(prog, j, t);
            },
            OpView::Dispatch(arms, _, _) => {
                assert forall|m: int| 0 <= m < arms.len() implies lands(
                    p,
                    (#[trigger] arms[m]).1,
                ) by {
                    let t = arms[m].1;
                    assert(layout::target_ok(prog, t));
                    assert forall|b: u32| #[trigger] layout::target_block(t).contains(b) implies
                        layout::step_blocks(steps).contains(b) by {
                        lemma_arm_block(arms, m, b);
                        assert(layout::op_blocks(op).contains(b));
                    }
                    lemma_target_lands(prog, j, t);
                }
            },
            _ => {},
        }
    }
    assert forall|i: int| 0 <= i < prog.rule_order@.len() implies o.contains_key(
        layout::entry_of(p, prog.rule_entry@[(#[trigger] prog.rule_order@[i])@].0),
    ) && o[layout::entry_of(p, prog.rule_entry@[prog.rule_order@[i]@].0)].len() == 0 by {
        lemma_entry_owed(p, prog.rule_entry@[prog.rule_order@[i]@].0);
    }
    lemma_states_level(p, p.order.len());
    layout::lemma_state_ids(p, p.order.len());
    lemma_owed_len(p, p.order.len());
    let states = layout::states_upto(p, p.order.len());
    assert forall|s: u32| #[trigger] o.contains_key(s) implies table::has_state(states, s) by {
        assert(states[s - 1].id == s);
    }
}

/// The states of the table are level, none of them is numbered 0, and every
/// entry point starts with nothing to leave.
pub open spec fn level_table(o: Owed, st: StateTable) -> bool {
    &&& levels::all_level(o, st.states@)
    &&& !o.contains_key(0)
    &&& forall|i: int|
        0 <= i < st.entry_states@.len() ==> o.contains_key((#[trigger] st.entry_states@[i]).1)
            && o[st.entry_states@[i].1].len() == 0
}

proof fn lemma_entry_rule(prog: Program, n: nat, i: int)
    requires
        n <= prog.rule_order@.len(),
        0 <= i < layout::entries_upto(prog, n).len(),
    ensures
        exists|m: int|
            0 <= m < prog.rule_order@.len() && layout::entries_upto(prog, n)[i].1
                == layout::entry_of(
                layout::plan_of(prog),
                prog.rule_entry@[(#[trigger] prog.rule_order@[m])@].0,
            ),
    decreases n,
{
    if n > 0 {
        let before = layout::entries_upto(prog, (n - 1) as nat);
        if i < before.len() {
            lemma_entry_rule(prog, (n - 1) as nat, i);
            assert(layout::entries_upto(prog, n)[i] == before[i]);
        } else {
            assert(names::list_view(prog.rule_order@)[n - 1] == prog.rule_order@[n - 1]@);
        }
    }
}

/// The table of a lowered grammar is level: whatever path it takes, the rules
/// are left in the order in which they were entered. So is the table that its
/// recovery sites were stamped on.
pub proof fn law_lowered_is_level(
    r: StateTable,
    ag: AnalyzedGrammar,
    opts: LoweringOpts,
    dopts: DfaOpts,
) -> (w: (Owed, StateTable, Firsts))
    requires
        pipeline::lowerable(ag),
        pipeline::is_lowered(r, ag, opts, dopts),
    ensures
        level_table(w.0, r),
        levels::all_level(w.0, w.1.states@),
        r.states@ == recovery::stamped(w.1, w.2),
{
    let (prog, laid): (Program, StateTable) = choose|prog: Program, laid: StateTable|
        program::is_program(prog, ag) && #[trigger] layout::is_layout(laid, prog, ag, dopts)
            && pipeline::finished(r, laid, opts);
    closed::law_program_is_closed(prog, ag);
    pipeline::lemma_slots(prog, ag);
    law_layout_is_level(prog, ag);
    let p = layout::plan_of(prog);
    let a = plan_owed(p);
    let ev = optimize::entry_set(laid.entry_states@);
    let n = usize::MAX as nat;
    let last = optimize::rounds(laid.states@, ev, opts, n);
    layout::lemma_state_ids(p, p.order.len());
    closed::law_layout_is_valid(p, p.order.len());
    kept::law_rounds_keep_valid(laid.states@, ev, opts, n);
    levels::law_rounds_keep_level(a, laid.states@, ev, opts, n);
    let b = levels::among(a, last);
    levels::law_compacting_keeps_level(b, last);
    let c = levels::renumbered(b, last);
    let (mid, f): (StateTable, Firsts) = choose|mid: StateTable, f: Firsts|
        {
            &&& mid == (StateTable {
                states: mid.states,
                entry_states: mid.entry_states,
                ..laid
            })
            &&& mid.states@ == optimize::compacted(last)
            &&& layout::entries_view(mid.entry_states@) == optimize::entries_renumbered(
                last,
                layout::entries_view(laid.entry_states@),
            )
            &&& #[trigger] state_first::is_first(mid, f)
            &&& r == (StateTable { states: r.states, first_sets: r.first_sets, ..mid })
            &&& r.states@ == recovery::stamped(mid, f)
            &&& pipeline::marked(r.first_sets@, laid.first_sets@, r)
        };
    levels::law_stamping_keeps_level(c, mid, f);
    let laid_entries = layout::entries_view(laid.entry_states@);
    let new_entries = layout::entries_view(r.entry_states@);
    assert(r.entry_states@.len() == new_entries.len());
    assert(laid.entry_states@.len() == laid_entries.len());
    assert forall|i: int| 0 <= i < r.entry_states@.len() implies c.contains_key(
        (#[trigger] r.entry_states@[i]).1,
    ) && c[r.entry_states@[i].1].len() == 0 by {
        let e = laid_entries[i].1;
        assert(r.entry_states@[i].1 == new_entries[i].1);
        assert(laid.entry_states@[i].1 == e);
        lemma_entry_rule(prog, prog.rule_order@.len(), i);
        assert(a.contains_key(e) && a[e].len() == 0);
        assert(table::has_state(laid.states@, e));
        assert(ev[i] == e);
        assert(ev.contains(e));
        kept::law_rounds_keep_entries(laid.states@, ev, opts, n, e);
        levels::lemma_renumbered_at(b, last, e);
    }
    (c, mid, f)
}

} // verus!
