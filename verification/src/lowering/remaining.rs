//! What each state of a laid out program still has to do.
use vstd::prelude::*;

use crate::lowering::layout::{self, Plan};
use crate::lowering::nesting;
use crate::lowering::program::{self, BlockView, OpView, Program, Step, TargetView};
use crate::lowering::table::{self, StateView, TailView};
use crate::names;

verus! {

/// The steps from each slot of a block on.
pub open spec fn block_todo(b: BlockView) -> Seq<Seq<Step>> {
    Seq::new(layout::slots(b), |i: int| b.steps.skip(i))
}

/// What the states of the first `n` blocks of the order have to do.
pub open spec fn todo_upto(p: Plan, n: nat) -> Seq<Seq<Step>>
    decreases n,
{
    if n == 0 || n > p.order.len() {
        Seq::empty()
    } else {
        todo_upto(p, (n - 1) as nat) + block_todo(p.blocks[p.order[n - 1] as int])
    }
}

/// The steps that the state has to do.
pub open spec fn todo(p: Plan, id: u32) -> Seq<Step> {
    todo_upto(p, p.order.len())[id - 1]
}

/// The id is that of a state of the plan.
pub open spec fn in_plan(p: Plan, id: u32) -> bool {
    0 < id <= layout::slots_upto(p.blocks, p.order, p.order.len())
}

/// The body of a state that has the steps to do.
pub open spec fn todo_body(p: Plan, id: u32, steps: Seq<Step>) -> table::BodyView {
    if steps.len() == 0 {
        layout::only(TailView::Ret)
    } else {
        layout::op_body(p, steps[0].0, id, steps.len() == 1)
    }
}

proof fn lemma_todo_len(p: Plan, n: nat)
    requires
        n <= p.order.len(),
    ensures
        todo_upto(p, n).len() == layout::slots_upto(p.blocks, p.order, n),
    decreases n,
{
    if n > 0 {
        lemma_todo_len(p, (n - 1) as nat);
    }
}

proof fn lemma_todo_at(p: Plan, n: nat, j: int, i: int)
    requires
        0 <= j < n <= p.order.len(),
        0 <= i < layout::slots(p.blocks[p.order[j] as int]),
    ensures
        ({
            let at = layout::slots_upto(p.blocks, p.order, j as nat) + i;
            &&& at < todo_upto(p, n).len()
            &&& todo_upto(p, n)[at] == p.blocks[p.order[j] as int].steps.skip(i)
        }),
    decreases n,
{
    lemma_todo_len(p, n);
    lemma_todo_len(p, (n - 1) as nat);
    if j < n - 1 {
        lemma_todo_at(p, (n - 1) as nat, j, i);
    }
}

/// The states of the first `n` blocks do what they have to.
/// Every state of a plan has the body that its steps ask for.
pub proof fn lemma_states_do(p: Plan, n: nat)
    requires
        n <= p.order.len(),
        layout::slots_upto(p.blocks, p.order, p.order.len()) < u32::MAX,
    ensures
        forall|m: int|
            0 <= m < layout::states_upto(p, n).len() ==> does(
                p,
                #[trigger] layout::states_upto(p, n)[m],
            ),
    decreases n,
{
    if n > 0 {
        lemma_states_do(p, (n - 1) as nat);
        let states = layout::states_upto(p, n);
        let before = layout::states_upto(p, (n - 1) as nat);
        let b = p.blocks[p.order[n - 1] as int];
        let done = layout::slots_upto(p.blocks, p.order, (n - 1) as nat);
        let here = layout::block_states(p, b, 1 + done);
        lemma_todo_len(p, p.order.len());
        assert forall|m: int| 0 <= m < states.len() implies does(p, #[trigger] states[m]) by {
            if m < before.len() {
                assert(states[m] == before[m]);
            } else {
                let i = m - before.len();
                assert(states[m] == here[i]);
                lemma_todo_at(p, p.order.len(), n - 1, i);
                if i + 1 < b.steps.len() {
                    lemma_todo_at(p, p.order.len(), n - 1, i + 1);
                    assert(b.steps.skip(i).skip(1) =~= b.steps.skip(i + 1));
                }
            }
        }
    }
}

/// The state does the first of the steps that it has to do, and the state
/// behind it has to do the others.
pub open spec fn does(p: Plan, s: StateView) -> bool {
    &&& in_plan(p, s.id)
    &&& s.body == todo_body(p, s.id, todo(p, s.id))
    &&& todo(p, s.id).len() > 1 ==> in_plan(p, (s.id + 1) as u32) && todo(p, (s.id + 1) as u32)
        == todo(p, s.id).skip(1)
}

/// The body of a state of a plan is the one that its steps ask for.
pub proof fn lemma_state_does(p: Plan, id: u32)
    requires
        layout::slots_upto(p.blocks, p.order, p.order.len()) < u32::MAX,
        in_plan(p, id),
    ensures
        table::body_of(layout::states_upto(p, p.order.len()), id) == Some(
            todo_body(p, id, todo(p, id)),
        ),
        todo(p, id).len() > 1 ==> in_plan(p, (id + 1) as u32) && todo(p, (id + 1) as u32) == todo(
            p,
            id,
        ).skip(1),
{
    let states = layout::states_upto(p, p.order.len());
    layout::lemma_state_ids(p, p.order.len());
    lemma_states_do(p, p.order.len());
    assert(does(p, states[id - 1]));
    lemma_found(states, id, id - 1);
}

proof fn lemma_found(states: Seq<StateView>, id: u32, at: int)
    requires
        0 <= at < states.len(),
        forall|j: int| 0 <= j < states.len() ==> (#[trigger] states[j]).id == j + 1,
        states[at].id == id,
    ensures
        table::body_of(states, id) == Some(states[at].body),
    decreases states.len(),
{
    if at < states.len() - 1 {
        let p = states.drop_last();
        assert forall|j: int| 0 <= j < p.len() implies (#[trigger] p[j]).id == j + 1 by {
            assert(p[j] == states[j]);
        }
        assert(p[at] == states[at]);
        lemma_found(p, id, at);
    }
}

/// The block that a target is.
pub open spec fn block_at(p: Plan, t: TargetView) -> u32 {
    match t {
        TargetView::Block(b) => b,
        TargetView::Rule(n) => p.rules[n].0,
    }
}

/// The target is a state that has to do the whole block.
pub open spec fn arrives(p: Plan, t: TargetView) -> bool {
    &&& in_plan(p, layout::state_of(p, t))
    &&& block_at(p, t) < p.blocks.len()
    &&& todo(p, layout::state_of(p, t)) == p.blocks[block_at(p, t) as int].steps
    &&& t is Rule ==> p.rules.contains_key(t->Rule_0)
}

/// The targets of the step arrive.
pub open spec fn op_arrives(p: Plan, op: OpView) -> bool {
    match op {
        OpView::Call(t) => arrives(p, t),
        OpView::Opt(_, t) => arrives(p, t),
        OpView::Star(_, t) => arrives(p, t),
        OpView::Dispatch(arms, _, _) => forall|i: int|
            0 <= i < arms.len() ==> arrives(p, (#[trigger] arms[i]).1),
        _ => true,
    }
}

/// Every step of a block of the order arrives.
pub open spec fn plan_arrives(p: Plan) -> bool {
    forall|id: u32, i: int|
        in_plan(p, id) && 0 <= i < todo(p, id).len() ==> op_arrives(
            p,
            (#[trigger] todo(p, id)[i]).0,
        )
}

proof fn lemma_entry_todo(p: Plan, b: u32)
    requires
        p.order.contains(b),
        layout::slots_upto(p.blocks, p.order, p.order.len()) < u32::MAX,
    ensures
        in_plan(p, layout::entry_of(p, b)),
        todo(p, layout::entry_of(p, b)) == p.blocks[b as int].steps,
{
    program::lemma_place(p.order, b);
    let j = program::place(p.order, b);
    lemma_todo_at(p, p.order.len(), j, 0);
    lemma_todo_len(p, p.order.len());
    assert(p.blocks[b as int].steps.skip(0) =~= p.blocks[b as int].steps);
}

proof fn lemma_target_arrives(prog: Program, j: int, t: TargetView)
    requires
        layout::program_ok(prog),
        layout::program_slots(prog) < u32::MAX,
        layout::target_ok(prog, t),
        ({
            let p = layout::plan_of(prog);
            &&& 0 <= j < p.order.len()
            &&& forall|b: u32| #[trigger]
                layout::target_block(t).contains(b) ==> layout::step_blocks(
                    p.blocks[p.order[j] as int].steps,
                ).contains(b)
        }),
    ensures
        arrives(layout::plan_of(prog), t),
{
    let p = layout::plan_of(prog);
    let roots = layout::roots(prog);
    nesting::lemma_order(p.blocks, roots);
    match t {
        TargetView::Block(b) => {
            assert(layout::target_block(t)[0] == b);
            assert(layout::target_block(t).contains(b));
            assert(p.order.contains(p.order[j]));
            assert(nesting::followed(p.blocks, p.order, p.order[j]));
            assert(p.order.contains(b));
            lemma_entry_todo(p, b);
        },
        TargetView::Rule(n) => lemma_rule_arrives(prog, n),
    }
}

/// The state at which a rule starts has to do the whole rule.
pub proof fn lemma_rule_arrives(prog: Program, n: Seq<char>)
    requires
        layout::program_ok(prog),
        layout::program_slots(prog) < u32::MAX,
        prog.rule_entry@.contains_key(n),
        names::list_view(prog.rule_order@).contains(n),
    ensures
        arrives(layout::plan_of(prog), TargetView::Rule(n)),
{
    let p = layout::plan_of(prog);
    let roots = layout::roots(prog);
    nesting::lemma_order(p.blocks, roots);
    let l = names::list_view(prog.rule_order@);
    let i = choose|i: int| 0 <= i < l.len() && l[i] == n;
    assert(prog.rule_order@[i]@ == n);
    assert(roots[i] == prog.rule_entry@[n].0);
    assert(roots.contains(roots[i]));
    lemma_entry_todo(p, prog.rule_entry@[n].0);
}

proof fn lemma_step_arrives(prog: Program, j: int, i: int)
    requires
        layout::program_ok(prog),
        layout::program_slots(prog) < u32::MAX,
        ({
            let p = layout::plan_of(prog);
            0 <= j < p.order.len() && p.order[j] < p.blocks.len() && 0 <= i
                < p.blocks[p.order[j] as int].steps.len()
        }),
    ensures
        ({
            let p = layout::plan_of(prog);
            op_arrives(p, p.blocks[p.order[j] as int].steps[i].0)
        }),
{
    let p = layout::plan_of(prog);
    let at = p.order[j] as int;
    let steps = p.blocks[at].steps;
    let op = steps[i].0;
    assert(op == prog.blocks@[at].ops@[i]@);
    assert(layout::op_ok(prog, op));
    assert forall|t: u32| #[trigger] layout::op_blocks(op).contains(t) implies layout::step_blocks(
        steps,
    ).contains(t) by {
        nesting::lemma_step_block(steps, i, t);
    }
    match op {
        OpView::Call(t) => {
            assert(layout::op_blocks(op) == layout::target_block(t));
            lemma_target_arrives(prog, j, t);
        },
        OpView::Opt(_, t) => {
            assert(layout::op_blocks(op) == layout::target_block(t));
            lemma_target_arrives(prog, j, t);
        },
        OpView::Star(_, t) => {
            assert(layout::op_blocks(op) == layout::target_block(t));
            lemma_target_arrives(prog, j, t);
        },
        OpView::Dispatch(arms, _, _) => {
            assert forall|m: int| 0 <= m < arms.len() implies arrives(p, (#[trigger] arms[m]).1) by {
                let t = arms[m].1;
                assert(layout::target_ok(prog, t));
                assert forall|b: u32| #[trigger] layout::target_block(t).contains(b) implies
                    layout::step_blocks(steps).contains(b) by {
                    nesting::lemma_arm_block(arms, m, b);
                    assert(layout::op_blocks(op).contains(b));
                }
                lemma_target_arrives(prog, j, t);
            }
        },
        _ => {},
    }
}

proof fn lemma_todo_arrives(prog: Program, n: nat)
    requires
        layout::program_ok(prog),
        layout::program_slots(prog) < u32::MAX,
        n <= layout::plan_of(prog).order.len(),
    ensures
        ({
            let p = layout::plan_of(prog);
            forall|m: int, i: int|
                0 <= m < todo_upto(p, n).len() && 0 <= i < todo_upto(p, n)[m].len() ==> op_arrives(
                    p,
                    (#[trigger] todo_upto(p, n)[m][i]).0,
                )
        }),
    decreases n,
{
    let p = layout::plan_of(prog);
    if n > 0 {
        lemma_todo_arrives(prog, (n - 1) as nat);
        let before = todo_upto(p, (n - 1) as nat);
        let all = todo_upto(p, n);
        let b = p.blocks[p.order[n - 1] as int];
        nesting::lemma_order(p.blocks, layout::roots(prog));
        assert(p.order[n - 1] < p.blocks.len());
        assert forall|m: int, i: int|
            0 <= m < all.len() && 0 <= i < all[m].len() implies op_arrives(
            p,
            (#[trigger] all[m][i]).0,
        ) by {
            if m < before.len() {
                assert(all[m] == before[m]);
                assert(op_arrives(p, before[m][i].0));
            } else {
                let k = m - before.len();
                assert(all[m] == b.steps.skip(k));
                assert(all[m][i] == b.steps[k + i]);
                lemma_step_arrives(prog, n - 1, k + i);
            }
        }
    }
}

/// The steps of a program go to states that have to do whole blocks.
pub proof fn lemma_plan_arrives(prog: Program)
    requires
        layout::program_ok(prog),
        layout::program_slots(prog) < u32::MAX,
    ensures
        plan_arrives(layout::plan_of(prog)),
{
    let p = layout::plan_of(prog);
    lemma_todo_arrives(prog, p.order.len());
    lemma_todo_len(p, p.order.len());
    assert forall|id: u32, i: int|
        in_plan(p, id) && 0 <= i < todo(p, id).len() implies op_arrives(
        p,
        (#[trigger] todo(p, id)[i]).0,
    ) by {
        assert(op_arrives(p, todo_upto(p, p.order.len())[id - 1][i].0));
    }
}

} // verus!
