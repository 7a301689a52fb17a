//! Second lowering phase: blocks to numbered states.
//!
//! Each block becomes a run of states, one for each step, and targets become
//! state ids. The last step of a block takes its tail form, so that no state
//! only returns, except that of a block without steps.
use vstd::prelude::*;

use crate::analysis::AnalyzedGrammar;
use crate::lowering::dispatch;
use crate::lowering::language;
use crate::lowering::lexer_dfa::{self, DfaOpts};
use crate::lowering::nfa;
use crate::lowering::program::{
    self, Block, BlockId, BlockView, Op, OpView, Program, Step, Target, TargetView,
};
use crate::lowering::recovery;
use crate::lowering::table::{
    self, Body, BodyView, FirstSet, Instr, InstrView, ModeInfo, State, StateId, StateMap,
    StateTable, StateView, Tail, TailView, TokenInfo,
};
use crate::name_map::NameMap;
use crate::names;

verus! {

/// The blocks among the targets of arms.
pub open spec fn arm_blocks(arms: Seq<(u32, TargetView)>) -> Seq<u32>
    decreases arms.len(),
{
    if arms.len() == 0 {
        Seq::empty()
    } else {
        arm_blocks(arms.drop_last()) + target_block(arms.last().1)
    }
}

/// The block of a target, if it is one.
pub open spec fn target_block(t: TargetView) -> Seq<u32> {
    match t {
        TargetView::Rule(_) => Seq::empty(),
        TargetView::Block(b) => seq![b],
    }
}

/// The blocks that a step can go to. Calls of rules are left out.
pub open spec fn op_blocks(op: OpView) -> Seq<u32> {
    match op {
        OpView::Enter(_) => Seq::empty(),
        OpView::Exit(_) => Seq::empty(),
        OpView::Expect(_, _, _, _) => Seq::empty(),
        OpView::Call(t) => target_block(t),
        OpView::Opt(_, t) => target_block(t),
        OpView::Star(_, t) => target_block(t),
        OpView::Dispatch(arms, _, _) => arm_blocks(arms),
    }
}

/// The blocks that the steps can go to, in order.
pub open spec fn step_blocks(steps: Seq<Step>) -> Seq<u32>
    decreases steps.len(),
{
    if steps.len() == 0 {
        Seq::empty()
    } else {
        step_blocks(steps.drop_last()) + op_blocks(steps.last().0)
    }
}

/// The elements of `l` that are not in `seen`.
pub open spec fn unseen(l: Seq<u32>, seen: Seq<u32>) -> Seq<u32>
    decreases l.len(),
{
    if l.len() == 0 {
        l
    } else if seen.contains(l.last()) {
        unseen(l.drop_last(), seen)
    } else {
        unseen(l.drop_last(), seen).push(l.last())
    }
}

/// The blocks in breadth-first order from a queue of blocks, behind those
/// visited before.
pub open spec fn bfs_order(
    blocks: Seq<BlockView>,
    queue: Seq<u32>,
    order: Seq<u32>,
) -> Seq<u32>
    decreases blocks.len() - order.len(), queue.len(),
{
    if queue.len() == 0 || order.len() >= blocks.len() {
        order
    } else {
        let b = queue[0];
        let rest = queue.skip(1);
        if order.contains(b) || b >= blocks.len() {
            bfs_order(blocks, rest, order)
        } else {
            let next = order.push(b);
            bfs_order(blocks, rest + unseen(step_blocks(blocks[b as int].steps), next), next)
        }
    }
}

/// The blocks in breadth-first order from each root in turn.
pub open spec fn order_from(blocks: Seq<BlockView>, roots: Seq<u32>) -> Seq<u32>
    decreases roots.len(),
{
    if roots.len() == 0 {
        Seq::empty()
    } else {
        bfs_order(blocks, seq![roots.last()], order_from(blocks, roots.drop_last()))
    }
}

/// The number of states of a block.
pub open spec fn slots(b: BlockView) -> nat {
    if b.steps.len() == 0 {
        1
    } else {
        b.steps.len()
    }
}

/// The number of states of the first `n` blocks of the order.
pub open spec fn slots_upto(blocks: Seq<BlockView>, order: Seq<u32>, n: nat) -> nat
    decreases n,
{
    if n == 0 || n > order.len() {
        0
    } else {
        slots_upto(blocks, order, (n - 1) as nat) + slots(blocks[order[n - 1] as int])
    }
}

/// What the states are made from.
pub ghost struct Plan {
    pub blocks: Seq<BlockView>,
    pub order: Seq<u32>,
    pub rules: Map<Seq<char>, BlockId>,
    pub pool: Seq<FirstSet>,
    pub labels: Seq<Seq<char>>,
}

/// The first state of a block.
pub open spec fn entry_of(p: Plan, b: u32) -> u32 {
    (1 + slots_upto(p.blocks, p.order, program::place(p.order, b) as nat)) as u32
}

/// The state that a target stands for.
pub open spec fn state_of(p: Plan, t: TargetView) -> u32 {
    match t {
        TargetView::Block(b) => entry_of(p, b),
        TargetView::Rule(n) => entry_of(p, p.rules[n].0),
    }
}

/// The id of a label, counted from one.
pub open spec fn label_id(labels: Seq<Seq<char>>, label: Option<Seq<char>>) -> Option<u16> {
    match label {
        Some(l) => Some((program::place(labels, l) + 1) as u16),
        None => None,
    }
}

/// The arms with the states of their targets.
pub open spec fn arm_states(p: Plan, arms: Seq<(u32, TargetView)>) -> Seq<(u32, u32)> {
    Seq::new(arms.len(), |i: int| (arms[i].0, state_of(p, arms[i].1)))
}

/// A body of one instruction.
pub open spec fn one(i: InstrView, tail: TailView) -> BodyView {
    BodyView { instrs: seq![i], tail }
}

/// A body without instructions.
pub open spec fn only(tail: TailView) -> BodyView {
    BodyView { instrs: Seq::empty(), tail }
}

/// The body of the state for a step. The last step of a block returns where
/// another goes on to the next state.
pub open spec fn op_body(p: Plan, op: OpView, here: u32, is_tail: bool) -> BodyView {
    let fall = (here + 1) as u32;
    let after = if is_tail {
        TailView::Ret
    } else {
        TailView::Jump(fall)
    };
    let cont = if is_tail {
        None
    } else {
        Some(fall)
    };
    match op {
        OpView::Enter(k) => one(InstrView::Enter(k), after),
        OpView::Exit(k) => one(InstrView::Exit(k), after),
        OpView::Expect(kind, name, sync, label) => one(
            InstrView::Expect(kind, name, sync, label_id(p.labels, label)),
            after,
        ),
        OpView::Call(t) => if is_tail {
            only(TailView::Jump(state_of(p, t)))
        } else {
            one(InstrView::PushRet(fall), TailView::Jump(state_of(p, t)))
        },
        OpView::Opt(first, t) => only(
            TailView::Opt(first, Box::new(table::jump_body(state_of(p, t))), cont),
        ),
        OpView::Star(first, t) => only(
            TailView::Star(first, Box::new(table::jump_body(state_of(p, t))), cont, here),
        ),
        OpView::Dispatch(arms, has_eps, sync) => only(
            TailView::Dispatch(
                dispatch::dispatch_tree(arm_states(p, arms), p.pool, has_eps),
                sync,
                cont,
                Seq::empty(),
            ),
        ),
    }
}

/// The states of a block whose first has the id `base`.
pub open spec fn block_states(p: Plan, b: BlockView, base: nat) -> Seq<StateView> {
    if b.steps.len() == 0 {
        seq![
            StateView {
                id: base as u32,
                label: b.prefix + ":empty"@,
                rule: b.rule,
                body: only(TailView::Ret),
            },
        ]
    } else {
        Seq::new(
            b.steps.len(),
            |i: int|
                StateView {
                    id: (base + i) as u32,
                    label: b.steps[i].1,
                    rule: b.rule,
                    body: op_body(
                        p,
                        b.steps[i].0,
                        (base + i) as u32,
                        i + 1 == b.steps.len(),
                    ),
                },
        )
    }
}

/// The states of the first `n` blocks of the order.
pub open spec fn states_upto(p: Plan, n: nat) -> Seq<StateView>
    decreases n,
{
    if n == 0 || n > p.order.len() {
        Seq::empty()
    } else {
        states_upto(p, (n - 1) as nat) + block_states(
            p,
            p.blocks[p.order[n - 1] as int],
            1 + slots_upto(p.blocks, p.order, (n - 1) as nat),
        )
    }
}

/// The labels of the steps, in order, each once, behind those known.
pub open spec fn step_labels(known: Seq<Seq<char>>, steps: Seq<Step>) -> Seq<Seq<char>>
    decreases steps.len(),
{
    if steps.len() == 0 {
        known
    } else {
        let before = step_labels(known, steps.drop_last());
        match steps.last().0 {
            OpView::Expect(_, _, _, Some(l)) => program::joined(before, l),
            _ => before,
        }
    }
}

/// The labels of the first `n` blocks of the order.
pub open spec fn labels_upto(blocks: Seq<BlockView>, order: Seq<u32>, n: nat) -> Seq<Seq<char>>
    decreases n,
{
    if n == 0 || n > order.len() {
        Seq::empty()
    } else {
        step_labels(
            labels_upto(blocks, order, (n - 1) as nat),
            blocks[order[n - 1] as int].steps,
        )
    }
}

/// The entry blocks of the rules, in declaration order.
pub open spec fn roots(prog: Program) -> Seq<u32> {
    let names = names::list_view(prog.rule_order@);
    Seq::new(names.len(), |i: int| prog.rule_entry@[names[i]].0)
}

/// The order of the blocks of a program.
pub open spec fn program_order(prog: Program) -> Seq<u32> {
    order_from(program::blocks_view(prog.blocks@), roots(prog))
}

/// What the states of a program are made from.
pub open spec fn plan_of(prog: Program) -> Plan {
    let blocks = program::blocks_view(prog.blocks@);
    let order = program_order(prog);
    Plan {
        blocks,
        order,
        rules: prog.rule_entry@,
        pool: prog.first_sets@,
        labels: labels_upto(blocks, order, order.len()),
    }
}

/// The number of states that the program needs.
pub open spec fn program_slots(prog: Program) -> nat {
    let order = program_order(prog);
    slots_upto(program::blocks_view(prog.blocks@), order, order.len())
}

/// The target is a block of the program or a rule of it.
pub open spec fn target_ok(prog: Program, t: TargetView) -> bool {
    match t {
        TargetView::Block(b) => b < prog.blocks@.len(),
        TargetView::Rule(n) => prog.rule_entry@.contains_key(n) && names::list_view(
            prog.rule_order@,
        ).contains(n),
    }
}

/// What the step refers to is there.
pub open spec fn op_ok(prog: Program, op: OpView) -> bool {
    match op {
        OpView::Call(t) => target_ok(prog, t),
        OpView::Opt(_, t) => target_ok(prog, t),
        OpView::Star(_, t) => target_ok(prog, t),
        OpView::Dispatch(arms, _, _) => forall|i: int|
            0 <= i < arms.len() ==> target_ok(prog, (#[trigger] arms[i]).1) && arms[i].0
                < prog.first_sets@.len(),
        _ => true,
    }
}

/// What the blocks refer to is there.
pub open spec fn program_ok(prog: Program) -> bool {
    &&& program::blocks_wf(prog.blocks@)
    &&& prog.rule_entry.wf()
    &&& forall|i: int|
        0 <= i < prog.rule_order@.len() ==> prog.rule_entry@.contains_key(
            (#[trigger] prog.rule_order@[i])@,
        ) && prog.rule_entry@[prog.rule_order@[i]@].0 < prog.blocks@.len()
    &&& forall|b: int, i: int|
        0 <= b < prog.blocks@.len() && 0 <= i < prog.blocks@[b].ops@.len() ==> op_ok(
            prog,
            (#[trigger] prog.blocks@[b].ops@[i])@,
        )
}

/// The entry points: each rule that is not a fragment with its first state,
/// for the first `n` rules.
pub open spec fn entries_upto(prog: Program, n: nat) -> Seq<(Seq<char>, u32)>
    decreases n,
{
    let names = names::list_view(prog.rule_order@);
    if n == 0 || n > names.len() {
        Seq::empty()
    } else {
        let before = entries_upto(prog, (n - 1) as nat);
        let name = names[n - 1];
        if prog.public_rule_names@.contains(name) {
            before.push((name, entry_of(plan_of(prog), prog.rule_entry@[name].0)))
        } else {
            before
        }
    }
}

/// What entry points say.
pub open spec fn entries_view(v: Seq<(String, StateId)>) -> Seq<(Seq<char>, u32)> {
    Seq::new(v.len(), |i: int| (v[i].0@, v[i].1))
}

/// The tokens that are live in the mode.
pub open spec fn live(tokens: Seq<TokenInfo>, mode: u32) -> Seq<TokenInfo>
    decreases tokens.len(),
{
    if tokens.len() == 0 {
        tokens
    } else if tokens.last().mode_ids@.contains(mode) {
        live(tokens.drop_last(), mode).push(tokens.last())
    } else {
        live(tokens.drop_last(), mode)
    }
}

/// The mode has the automaton of the tokens that are live in it; if there can
/// be none (see [`lexer_dfa::crowded`]), it has one that accepts no more than
/// the tokens match.
pub open spec fn mode_lexes(m: ModeInfo, tokens: Seq<TokenInfo>, minimize: bool) -> bool {
    &&& lexer_dfa::well_formed(m.dfa@)
    &&& forall|w: Seq<u8>, k: u16|
        #[trigger] lexer_dfa::accepted(m.dfa@, w) == Some(k) ==> #[trigger] nfa::token_matches(
            live(tokens, m.id),
            w,
            k,
        )
    &&& !lexer_dfa::crowded(live(tokens, m.id)) ==> lexer_dfa::lexes_all(
        m.dfa@,
        live(tokens, m.id),
        minimize,
    )
}

/// The modes are those named, each with its automaton.
pub open spec fn modes_lex(
    modes: Seq<ModeInfo>,
    names: Seq<Seq<char>>,
    tokens: Seq<TokenInfo>,
    minimize: bool,
) -> bool {
    &&& modes.len() == names.len()
    &&& forall|i: int|
        0 <= i < modes.len() ==> (#[trigger] modes[i]).id == i as u32 && modes[i].name@ == names[i]
            && mode_lexes(modes[i], tokens, minimize)
}

/// The table is what the program is laid out to.
pub open spec fn is_layout(st: StateTable, prog: Program, ag: AnalyzedGrammar, opts: DfaOpts) -> bool {
    let p = plan_of(prog);
    &&& st.grammar_name@ == ag.grammar.name@
    &&& st.tokens == prog.tokens
    &&& st.rule_kinds == prog.rules
    &&& names::list_view(st.labels@) == p.labels
    &&& st.first_sets == prog.first_sets
    &&& st.sync_sets == prog.sync_sets
    &&& st.rule_sync == prog.rule_sync
    &&& st.states.wf()
    &&& st.states@ == states_upto(p, p.order.len())
    &&& entries_view(st.entry_states@) == entries_upto(prog, prog.rule_order@.len())
    &&& st.k == ag.k
    &&& modes_lex(st.modes@, names::list_view(prog.mode_names@), prog.tokens@, opts.minimize)
}

/// Adds the block of a target, if it is one.
fn push_block(t: &Target, out: &mut Vec<u32>)
    ensures
        final(out)@ == old(out)@ + target_block(t@),
{
    match t {
        Target::Rule(_) => {
            assert(out@ =~= old(out)@ + target_block(t@));
        },
        Target::Block(b) => {
            out.push(b.0);
            assert(out@ =~= old(out)@ + target_block(t@));
        },
    }
}

/// Adds every block that the step can go to.
fn visit_block_targets(op: &Op, out: &mut Vec<u32>)
    ensures
        final(out)@ == old(out)@ + op_blocks(op@),
{
    let ghost before = out@;
    match op {
        Op::Call { target } => push_block(target, out),
        Op::Opt { first: _, body } => push_block(body, out),
        Op::Star { first: _, body } => push_block(body, out),
        Op::Dispatch { arms, has_eps: _, sync: _ } => {
            let ghost av = program::arms_view(arms@);
            let mut i: usize = 0;
            assert(av.take(0) =~= Seq::<(u32, TargetView)>::empty());
            assert(out@ =~= before + arm_blocks(av.take(0)));
            while i < arms.len()
                invariant
                    i <= arms@.len(),
                    av == program::arms_view(arms@),
                    out@ == before + arm_blocks(av.take(i as int)),
                decreases arms@.len() - i,
            {
                push_block(&arms[i].1, out);
                proof {
                    assert(av.take(i + 1).drop_last() =~= av.take(i as int));
                    assert(av.take(i + 1).last() == (arms@[i as int].0, arms@[i as int].1@));
                    assert(out@ =~= before + arm_blocks(av.take(i + 1)));
                }
                i += 1;
            }
            assert(av.take(i as int) =~= av);
        },
        _ => {
            assert(out@ =~= before + op_blocks(op@));
        },
    }
}

/// Every block that the steps of a block can go to.
fn block_targets(b: &Block) -> (r: Vec<u32>)
    requires
        b.wf(),
    ensures
        r@ == step_blocks(b@.steps),
{
    let ghost steps = b@.steps;
    let mut r: Vec<u32> = Vec::new();
    let mut i: usize = 0;
    assert(steps.take(0) =~= Seq::<Step>::empty());
    while i < b.ops.len()
        invariant
            i <= b.ops@.len(),
            b.wf(),
            steps == b@.steps,
            r@ == step_blocks(steps.take(i as int)),
        decreases b.ops@.len() - i,
    {
        visit_block_targets(&b.ops[i], &mut r);
        proof {
            assert(steps.take(i + 1).drop_last() =~= steps.take(i as int));
            assert(steps.take(i + 1).last().0 == b.ops@[i as int]@);
        }
        i += 1;
    }
    assert(steps.take(i as int) =~= steps);
    r
}

/// The blocks are marked that have been visited; none was visited twice.
spec fn marks(seen: Seq<bool>, order: Seq<u32>) -> bool {
    &&& forall|b: u32| b < seen.len() ==> (#[trigger] seen[b as int] <==> order.contains(b))
    &&& forall|i: int| 0 <= i < order.len() ==> (#[trigger] order[i]) < seen.len()
    &&& order.no_duplicates()
}

/// Adds the blocks reachable from `start` in breadth-first order.
fn bfs(start: u32, blocks: &Vec<Block>, order: &mut Vec<u32>, seen: &mut Vec<bool>)
    requires
        program::blocks_wf(blocks@),
        old(seen)@.len() == blocks@.len(),
        marks(old(seen)@, old(order)@),
    ensures
        final(seen)@.len() == blocks@.len(),
        marks(final(seen)@, final(order)@),
        final(order)@ == bfs_order(program::blocks_view(blocks@), seq![start], old(order)@),
{
    let ghost bl = program::blocks_view(blocks@);
    let ghost want = bfs_order(bl, seq![start], order@);
    let mut queue: Vec<u32> = Vec::new();
    queue.push(start);
    let mut head: usize = 0;
    assert(queue@.skip(0) =~= seq![start]);
    while head < queue.len() && order.len() < blocks.len()
        invariant
            head <= queue@.len(),
            program::blocks_wf(blocks@),
            bl == program::blocks_view(blocks@),
            seen@.len() == blocks@.len(),
            marks(seen@, order@),
            bfs_order(bl, queue@.skip(head as int), order@) == want,
        decreases blocks@.len() - order@.len(), queue@.len() - head,
    {
        let b = queue[head];
        let ghost q = queue@.skip(head as int);
        let ghost rest = queue@.skip(head + 1);
        assert(q[0] == b);
        assert(q.skip(1) =~= rest);
        head += 1;
        if (b as usize) < blocks.len() && !seen[b as usize] {
            let ghost before = order@;
            let ghost seen0 = seen@;
            order.push(b);
            seen.set(b as usize, true);
            proof {
                let after = order@;
                assert forall|c: u32| c < seen@.len() implies (#[trigger] seen@[c as int]
                    <==> after.contains(c)) by {
                    assert(after[before.len() as int] == b);
                    if before.contains(c) {
                        let m = choose|m: int| 0 <= m < before.len() && before[m] == c;
                        assert(after[m] == c);
                    }
                    if after.contains(c) {
                        let m = choose|m: int| 0 <= m < after.len() && after[m] == c;
                        if m < before.len() {
                            assert(before[m] == c);
                        }
                    }
                    assert(seen0[c as int] <==> before.contains(c));
                }
                assert(after.no_duplicates()) by {
                    assert forall|i: int, j: int|
                        0 <= i < after.len() && 0 <= j < after.len() && i != j implies after[i]
                        != after[j] by {
                        if i == before.len() {
                            assert(before.contains(before[j]));
                        } else if j == before.len() {
                            assert(before.contains(before[i]));
                        }
                    }
                }
            }
            let targets = block_targets(&blocks[b as usize]);
            let ghost tv = targets@;
            let ghost q0 = queue@;
            let mut i: usize = 0;
            assert(tv.take(0) =~= Seq::<u32>::empty());
            assert(queue@ =~= q0 + unseen(tv.take(0), order@));
            while i < targets.len()
                invariant
                    i <= targets@.len(),
                    tv == targets@,
                    seen@.len() == blocks@.len(),
                    marks(seen@, order@),
                    queue@ == q0 + unseen(tv.take(i as int), order@),
                decreases targets@.len() - i,
            {
                let t = targets[i];
                assert(tv.take(i + 1).drop_last() =~= tv.take(i as int));
                assert(tv.take(i + 1).last() == t);
                let known = (t as usize) < seen.len() && seen[t as usize];
                proof {
                    if order@.contains(t) {
                        let m = choose|m: int| 0 <= m < order@.len() && order@[m] == t;
                        assert(order@[m] < seen@.len());
                    }
                    assert(known == order@.contains(t));
                }
                if !known {
                    queue.push(t);
                }
                assert(queue@ =~= q0 + unseen(tv.take(i + 1), order@));
                i += 1;
            }
            proof {
                assert(tv.take(i as int) =~= tv);
                assert(bl[b as int] == blocks@[b as int]@);
                assert(queue@.skip(head as int) =~= rest + unseen(tv, order@));
            }
        } else {
            proof {
                if (b as int) < blocks@.len() {
                    assert(seen@[b as int]);
                }
                if order@.contains(b) {
                    let m = choose|m: int| 0 <= m < order@.len() && order@[m] == b;
                    assert(order@[m] < seen@.len());
                }
            }
        }
    }
}

/// The blocks of a program in the order of their states.
fn order_blocks(prog: &Program) -> (r: Vec<u32>)
    requires
        program_ok(*prog),
    ensures
        r@ == program_order(*prog),
        r@.no_duplicates(),
        forall|i: int| 0 <= i < r@.len() ==> (#[trigger] r@[i]) < prog.blocks@.len(),
{
    let ghost bl = program::blocks_view(prog.blocks@);
    let ghost rs = roots(*prog);
    let mut order: Vec<u32> = Vec::new();
    let mut seen: Vec<bool> = Vec::new();
    let mut n: usize = 0;
    while n < prog.blocks.len()
        invariant
            n <= prog.blocks@.len(),
            seen@.len() == n,
            forall|i: int| 0 <= i < n ==> !#[trigger] seen@[i],
        decreases prog.blocks@.len() - n,
    {
        seen.push(false);
        n += 1;
    }
    let mut i: usize = 0;
    assert(rs.take(0) =~= Seq::<u32>::empty());
    while i < prog.rule_order.len()
        invariant
            i <= prog.rule_order@.len(),
            program_ok(*prog),
            bl == program::blocks_view(prog.blocks@),
            rs == roots(*prog),
            seen@.len() == prog.blocks@.len(),
            marks(seen@, order@),
            order@ == order_from(bl, rs.take(i as int)),
        decreases prog.rule_order@.len() - i,
    {
        let name = prog.rule_order[i].as_str();
        let root = match prog.rule_entry.get(name) {
            Some(b) => b.0,
            None => 0,
        };
        proof {
            assert(prog.rule_entry@.contains_key(prog.rule_order@[i as int]@));
            assert(rs[i as int] == root);
            assert(rs.take(i + 1).drop_last() =~= rs.take(i as int));
        }
        bfs(root, &prog.blocks, &mut order, &mut seen);
        i += 1;
    }
    assert(rs.take(i as int) =~= rs);
    order
}

proof fn lemma_slots_grow(blocks: Seq<BlockView>, order: Seq<u32>, m: nat, n: nat)
    requires
        m <= n <= order.len(),
    ensures
        slots_upto(blocks, order, m) <= slots_upto(blocks, order, n),
        m < n ==> slots_upto(blocks, order, m) < slots_upto(blocks, order, n),
    decreases n,
{
    if m < n {
        lemma_slots_grow(blocks, order, m, (n - 1) as nat);
    }
}

/// State ids count up from one without a gap.
pub proof fn lemma_state_ids(p: Plan, n: nat)
    requires
        n <= p.order.len(),
        slots_upto(p.blocks, p.order, p.order.len()) < u32::MAX,
    ensures
        states_upto(p, n).len() == slots_upto(p.blocks, p.order, n),
        forall|j: int|
            0 <= j < states_upto(p, n).len() ==> (#[trigger] states_upto(p, n)[j]).id == j + 1,
    decreases n,
{
    if n > 0 {
        lemma_state_ids(p, (n - 1) as nat);
        lemma_slots_grow(p.blocks, p.order, n, p.order.len());
        let before = states_upto(p, (n - 1) as nat);
        let base = 1 + slots_upto(p.blocks, p.order, (n - 1) as nat);
        let here = block_states(p, p.blocks[p.order[n - 1] as int], base);
        assert forall|j: int| 0 <= j < states_upto(p, n).len() implies (#[trigger] states_upto(
            p,
            n,
        )[j]).id == j + 1 by {
            if j >= before.len() {
                assert(states_upto(p, n)[j] == here[j - before.len()]);
            } else {
                assert(states_upto(p, n)[j] == before[j]);
            }
        }
    }
}

/// The first state of each block, by block.
fn entry_ids(prog: &Program, order: &Vec<u32>) -> (r: Vec<u32>)
    requires
        order@ == program_order(*prog),
        order@.no_duplicates(),
        forall|i: int| 0 <= i < order@.len() ==> (#[trigger] order@[i]) < prog.blocks@.len(),
        program_slots(*prog) < u32::MAX,
    ensures
        r@.len() == prog.blocks@.len(),
        forall|b: u32| b < r@.len() ==> #[trigger] r@[b as int] == entry_of(plan_of(*prog), b),
{
    let ghost p = plan_of(*prog);
    let ghost total = program_slots(*prog);
    let mut cursor: u32 = 1;
    let mut starts: Vec<u32> = Vec::new();
    let mut n: usize = 0;
    while n < order.len()
        invariant
            n <= order@.len(),
            p == plan_of(*prog),
            order@ == p.order,
            forall|i: int| 0 <= i < order@.len() ==> (#[trigger] order@[i]) < prog.blocks@.len(),
            total == slots_upto(p.blocks, p.order, p.order.len()),
            total < u32::MAX,
            cursor == 1 + slots_upto(p.blocks, p.order, n as nat),
            starts@.len() == n,
            forall|i: int|
                0 <= i < n ==> #[trigger] starts@[i] == 1 + slots_upto(
                    p.blocks,
                    p.order,
                    i as nat,
                ),
        decreases order@.len() - n,
    {
        starts.push(cursor);
        let b = order[n] as usize;
        let ops = prog.blocks[b].ops.len();
        proof {
            lemma_slots_grow(p.blocks, p.order, (n + 1) as nat, p.order.len());
            assert(p.blocks[b as int] == prog.blocks@[b as int]@);
            assert(slots_upto(p.blocks, p.order, (n + 1) as nat) == slots_upto(
                p.blocks,
                p.order,
                n as nat,
            ) + slots(p.blocks[b as int]));
        }
        let size = if ops == 0 {
            1
        } else {
            ops
        };
        cursor = cursor + size as u32;
        n += 1;
    }
    let mut r: Vec<u32> = Vec::new();
    let mut m: usize = 0;
    while m < prog.blocks.len()
        invariant
            m <= prog.blocks@.len(),
            r@.len() == m,
            forall|i: int| 0 <= i < m ==> #[trigger] r@[i] == cursor,
        decreases prog.blocks@.len() - m,
    {
        r.push(cursor);
        m += 1;
    }
    let mut i: usize = 0;
    while i < order.len()
        invariant
            i <= order@.len(),
            order@ == p.order,
            order@.no_duplicates(),
            forall|j: int| 0 <= j < order@.len() ==> (#[trigger] order@[j]) < prog.blocks@.len(),
            r@.len() == prog.blocks@.len(),
            starts@.len() == order@.len(),
            forall|j: int|
                0 <= j < i ==> r@[(#[trigger] order@[j]) as int] == starts@[j],
            forall|b: u32|
                b < r@.len() && !order@.contains(b) ==> #[trigger] r@[b as int] == cursor,
        decreases order@.len() - i,
    {
        let b = order[i];
        let ghost before = r@;
        r.set(b as usize, starts[i]);
        proof {
            assert(order@.contains(order@[i as int]));
            assert forall|j: int| 0 <= j < i + 1 implies r@[(#[trigger] order@[j]) as int]
                == starts@[j] by {
                if j < i {
                    assert(order@[j] != order@[i as int]);
                    assert(before[order@[j] as int] == starts@[j]);
                }
            }
        }
        i += 1;
    }
    proof {
        assert forall|b: u32| b < r@.len() implies #[trigger] r@[b as int] == entry_of(p, b) by {
            program::lemma_place(p.order, b);
            let at = program::place(p.order, b);
            lemma_slots_grow(p.blocks, p.order, at as nat, p.order.len());
            if at < p.order.len() {
                assert(r@[order@[at] as int] == starts@[at]);
            }
        }
    }
    r
}

/// The labels of a program, in the order of its states.
fn collect_labels(prog: &Program, order: &Vec<u32>) -> (r: Vec<String>)
    requires
        program::blocks_wf(prog.blocks@),
        forall|i: int| 0 <= i < order@.len() ==> (#[trigger] order@[i]) < prog.blocks@.len(),
    ensures
        names::list_view(r@) == labels_upto(
            program::blocks_view(prog.blocks@),
            order@,
            order@.len(),
        ),
{
    let ghost bl = program::blocks_view(prog.blocks@);
    let mut r: Vec<String> = Vec::new();
    let mut n: usize = 0;
    assert(names::list_view(r@) =~= Seq::<Seq<char>>::empty());
    while n < order.len()
        invariant
            n <= order@.len(),
            program::blocks_wf(prog.blocks@),
            bl == program::blocks_view(prog.blocks@),
            forall|i: int| 0 <= i < order@.len() ==> (#[trigger] order@[i]) < prog.blocks@.len(),
            names::list_view(r@) == labels_upto(bl, order@, n as nat),
        decreases order@.len() - n,
    {
        let b = &prog.blocks[order[n] as usize];
        let ghost steps = bl[order@[n as int] as int].steps;
        let ghost known = names::list_view(r@);
        assert(steps == b@.steps);
        assert(b.wf());
        let mut i: usize = 0;
        assert(steps.take(0) =~= Seq::<Step>::empty());
        while i < b.ops.len()
            invariant
                i <= b.ops@.len(),
                b.wf(),
                steps == b@.steps,
                names::list_view(r@) == step_labels(known, steps.take(i as int)),
            decreases b.ops@.len() - i,
        {
            proof {
                assert(steps.take(i + 1).drop_last() =~= steps.take(i as int));
                assert(steps.take(i + 1).last().0 == b.ops@[i as int]@);
            }
            if let Op::Expect { kind: _, token_name: _, sync: _, label } = &b.ops[i] {
                if let Some(l) = label {
                    program::join_name(&mut r, l.as_str());
                }
            }
            i += 1;
        }
        assert(steps.take(i as int) =~= steps);
        n += 1;
    }
    r
}

/// What lowering a step needs to know of the whole.
struct Resolver<'a> {
    entries: &'a Vec<u32>,
    rules: &'a NameMap<BlockId>,
    first_sets: &'a Vec<FirstSet>,
    labels: &'a Vec<String>,
}

impl<'a> Resolver<'a> {
    spec fn resolves(self, prog: Program) -> bool {
        let p = plan_of(prog);
        &&& program_ok(prog)
        &&& *self.rules == prog.rule_entry
        &&& *self.first_sets == prog.first_sets
        &&& names::list_view(self.labels@) == p.labels
        &&& self.entries@.len() == prog.blocks@.len()
        &&& forall|b: u32|
            b < self.entries@.len() ==> #[trigger] self.entries@[b as int] == entry_of(p, b)
    }

    /// The state that a target stands for.
    fn resolve(&self, t: &Target, Ghost(prog): Ghost<Program>) -> (r: StateId)
        requires
            self.resolves(prog),
            target_ok(prog, t@),
        ensures
            r == state_of(plan_of(prog), t@),
    {
        match t {
            Target::Block(b) => self.entries[b.0 as usize],
            Target::Rule(n) => {
                proof {
                    let l = names::list_view(prog.rule_order@);
                    let i = choose|i: int| 0 <= i < l.len() && l[i] == n@;
                    assert(prog.rule_order@[i]@ == n@);
                }
                match self.rules.get(n.as_str()) {
                    Some(b) => self.entries[b.0 as usize],
                    None => 0,
                }
            },
        }
    }

    /// The body of the state for one step.
    fn lower_op(&self, op: &Op, here: StateId, is_tail: bool, Ghost(prog): Ghost<Program>) -> (r:
        Body)
        requires
            self.resolves(prog),
            op_ok(prog, op@),
            here < u32::MAX,
        ensures
            r@ == op_body(plan_of(prog), op@, here, is_tail),
    {
        let ghost p = plan_of(prog);
        let fall = here + 1;
        let after = if is_tail {
            Tail::Ret
        } else {
            Tail::Jump(fall)
        };
        let cont = if is_tail {
            None
        } else {
            Some(fall)
        };
        match op {
            Op::Enter { kind } => body_of(Instr::Enter(*kind), after),
            Op::Exit { kind } => body_of(Instr::Exit(*kind), after),
            Op::Expect { kind, token_name, sync, label } => {
                let id = match label {
                    Some(l) => Some(self.label(l.as_str(), Ghost(prog))),
                    None => None,
                };
                body_of(
                    Instr::Expect {
                        kind: *kind,
                        token_name: token_name.clone(),
                        sync: *sync,
                        label: id,
                    },
                    after,
                )
            },
            Op::Call { target } => {
                let t = self.resolve(target, Ghost(prog));
                if is_tail {
                    bare(Tail::Jump(t))
                } else {
                    body_of(Instr::PushRet(fall), Tail::Jump(t))
                }
            },
            Op::Opt { first, body } => {
                let t = self.resolve(body, Ghost(prog));
                bare(Tail::Opt { first: *first, body: Box::new(Body::jump(t)), cont })
            },
            Op::Star { first, body } => {
                let t = self.resolve(body, Ghost(prog));
                bare(Tail::Star { first: *first, body: Box::new(Body::jump(t)), cont, head: here })
            },
            Op::Dispatch { arms, has_eps, sync } => {
                let ghost av = program::arms_view(arms@);
                assert(op@->Dispatch_0 == av);
                let mut resolved: Vec<(u32, StateId)> = Vec::new();
                let mut i: usize = 0;
                while i < arms.len()
                    invariant
                        i <= arms@.len(),
                        self.resolves(prog),
                        forall|j: int|
                            0 <= j < av.len() ==> target_ok(prog, (#[trigger] av[j]).1),
                        av == program::arms_view(arms@),
                        p == plan_of(prog),
                        resolved@ == arm_states(p, av).take(i as int),
                    decreases arms@.len() - i,
                {
                    assert(av[i as int] == (arms@[i as int].0, arms@[i as int].1@));
                    let t = self.resolve(&arms[i].1, Ghost(prog));
                    resolved.push((arms[i].0, t));
                    assert(arm_states(p, av).take(i + 1) =~= arm_states(p, av).take(
                        i as int,
                    ).push(arm_states(p, av)[i as int]));
                    i += 1;
                }
                assert(resolved@ =~= arm_states(p, av));
                assert forall|j: int| 0 <= j < resolved@.len() implies (#[trigger] resolved@[j]).0
                    < self.first_sets@.len() by {
                    assert(av[j].0 < prog.first_sets@.len());
                }
                let tree = dispatch::build_dispatch_tree(&resolved, self.first_sets, *has_eps);
                let tail = Tail::Dispatch { tree, sync: *sync, cont, insertions: Vec::new() };
                assert(recovery::insertions_view(tail->insertions@) =~= Seq::empty());
                bare(tail)
            },
        }
    }

    fn label(&self, l: &str, Ghost(prog): Ghost<Program>) -> (r: u16)
        requires
            self.resolves(prog),
        ensures
            Some(r) == label_id(plan_of(prog).labels, Some(l@)),
    {
        assert(self.labels.len() <= usize::MAX);
        match program::find_name(self.labels, l) {
            Some(i) => #[verifier::truncate] ((i as u128 + 1) as u16),
            None => #[verifier::truncate] ((self.labels.len() as u128 + 1) as u16),
        }
    }
}

/// A body of one instruction.
fn body_of(i: Instr, tail: Tail) -> (r: Body)
    ensures
        r@ == one(i@, tail@),
{
    let ghost iv = i@;
    let mut instrs: Vec<Instr> = Vec::new();
    instrs.push(i);
    assert(table::instrs_view(instrs@) =~= seq![iv]);
    Body { instrs, tail }
}

/// A body without instructions.
fn bare(tail: Tail) -> (r: Body)
    ensures
        r@ == only(tail@),
{
    let r = Body { instrs: Vec::new(), tail };
    assert(table::instrs_view(r.instrs@) =~= Seq::<InstrView>::empty());
    r
}

/// The states of a program, in order of id.
fn lay_states(prog: &Program, order: &Vec<u32>, res: &Resolver) -> (r: StateMap)
    requires
        res.resolves(*prog),
        order@ == program_order(*prog),
        forall|i: int| 0 <= i < order@.len() ==> (#[trigger] order@[i]) < prog.blocks@.len(),
        program_slots(*prog) < u32::MAX,
    ensures
        r.wf(),
        r@ == states_upto(plan_of(*prog), order@.len()),
{
    let ghost p = plan_of(*prog);
    let ghost total = program_slots(*prog);
    let mut states: Vec<State> = Vec::new();
    let mut next: u32 = 1;
    let mut n: usize = 0;
    assert(table::states_view(states@) =~= Seq::<StateView>::empty());
    while n < order.len()
        invariant
            n <= order@.len(),
            res.resolves(*prog),
            p == plan_of(*prog),
            order@ == p.order,
            forall|i: int| 0 <= i < order@.len() ==> (#[trigger] order@[i]) < prog.blocks@.len(),
            total == slots_upto(p.blocks, p.order, p.order.len()),
            total < u32::MAX,
            next == 1 + slots_upto(p.blocks, p.order, n as nat),
            table::states_view(states@) == states_upto(p, n as nat),
        decreases order@.len() - n,
    {
        let at = order[n] as usize;
        let block = &prog.blocks[at];
        let ghost bv = p.blocks[at as int];
        let ghost base = next;
        let ghost before = table::states_view(states@);
        let ghost here = block_states(p, bv, base as nat);
        proof {
            assert(bv == block@);
            assert(block.wf());
            lemma_slots_grow(p.blocks, p.order, (n + 1) as nat, p.order.len());
            assert(slots_upto(p.blocks, p.order, (n + 1) as nat) == slots_upto(
                p.blocks,
                p.order,
                n as nat,
            ) + slots(bv));
        }
        if block.ops.len() == 0 {
            let mut label = block.label_prefix.clone();
            label.append(":empty");
            let s = State { id: next, label, rule: block.rule.clone(), body: bare(Tail::Ret) };
            let ghost sv = s@;
            states.push(s);
            proof {
                assert(here =~= seq![sv]);
                assert(table::states_view(states@) =~= before + here);
            }
            next = next + 1;
        } else {
            let total_ops = block.ops.len();
            let mut i: usize = 0;
            assert(table::states_view(states@) =~= before + here.take(0));
            while i < total_ops
                invariant
                    i <= total_ops,
                    total_ops == block.ops@.len(),
                    total_ops > 0,
                    res.resolves(*prog),
                    *block == prog.blocks@[at as int],
                    0 <= at < prog.blocks@.len(),
                    block.wf(),
                    bv == block@,
                    p == plan_of(*prog),
                    base + total_ops <= u32::MAX,
                    base + total_ops <= 1 + total,
                    total < u32::MAX,
                    next == base + i,
                    here == block_states(p, bv, base as nat),
                    table::states_view(states@) == before + here.take(i as int),
                decreases total_ops - i,
            {
                assert(op_ok(*prog, prog.blocks@[at as int].ops@[i as int]@));
                let body = res.lower_op(&block.ops[i], next, i + 1 == total_ops, Ghost(*prog));
                let s = State {
                    id: next,
                    label: block.op_labels[i].clone(),
                    rule: block.rule.clone(),
                    body,
                };
                let ghost sv = s@;
                let ghost v0 = states@;
                states.push(s);
                proof {
                    assert(here[i as int] == sv);
                    assert(here.take(i + 1) =~= here.take(i as int).push(sv));
                    assert(table::states_view(states@) =~= table::states_view(v0).push(sv));
                    assert(table::states_view(states@) =~= before + here.take(i + 1));
                }
                next = next + 1;
                i += 1;
            }
            assert(here.take(i as int) =~= here);
        }
        n += 1;
    }
    proof {
        lemma_state_ids(p, p.order.len());
    }
    let r = StateMap::from_states(states);
    assert(table::ascending(r@));
    r
}

/// The entry points of a program.
fn lay_entries(prog: &Program, res: &Resolver) -> (r: Vec<(String, StateId)>)
    requires
        res.resolves(*prog),
    ensures
        entries_view(r@) == entries_upto(*prog, prog.rule_order@.len()),
{
    let ghost p = plan_of(*prog);
    let mut r: Vec<(String, StateId)> = Vec::new();
    let mut i: usize = 0;
    assert(entries_view(r@) =~= Seq::<(Seq<char>, u32)>::empty());
    while i < prog.rule_order.len()
        invariant
            i <= prog.rule_order@.len(),
            res.resolves(*prog),
            p == plan_of(*prog),
            entries_view(r@) == entries_upto(*prog, i as nat),
        decreases prog.rule_order@.len() - i,
    {
        let name = prog.rule_order[i].as_str();
        proof {
            assert(prog.rule_entry@.contains_key(prog.rule_order@[i as int]@));
            assert(names::list_view(prog.rule_order@)[i as int] == name@);
        }
        if prog.public_rule_names.contains(name) {
            let id = match prog.rule_entry.get(name) {
                Some(b) => res.entries[b.0 as usize],
                None => 0,
            };
            let ghost before = r@;
            r.push((name.to_owned(), id));
            assert(entries_view(r@) =~= entries_view(before).push((name@, id)));
        }
        i += 1;
    }
    r
}

/// A copy of what the lexer needs of a token.
fn clone_token(t: &TokenInfo) -> (r: TokenInfo)
    ensures
        r.pattern@ == t.pattern@,
        r.kind == t.kind,
        r.name@ == t.name@,
        r.display_name@ == t.display_name@,
        r.skip == t.skip,
        r.mode_ids@ == t.mode_ids@,
        r.mode_actions@ == t.mode_actions@,
{
    let mut mode_ids: Vec<u32> = Vec::new();
    let mut i: usize = 0;
    while i < t.mode_ids.len()
        invariant
            i <= t.mode_ids@.len(),
            mode_ids@ == t.mode_ids@.take(i as int),
        decreases t.mode_ids@.len() - i,
    {
        mode_ids.push(t.mode_ids[i]);
        assert(t.mode_ids@.take(i + 1) =~= t.mode_ids@.take(i as int).push(t.mode_ids@[i as int]));
        i += 1;
    }
    assert(t.mode_ids@.take(i as int) =~= t.mode_ids@);
    let mut mode_actions: Vec<table::ModeActionInfo> = Vec::new();
    let mut j: usize = 0;
    while j < t.mode_actions.len()
        invariant
            j <= t.mode_actions@.len(),
            mode_actions@ == t.mode_actions@.take(j as int),
        decreases t.mode_actions@.len() - j,
    {
        mode_actions.push(t.mode_actions[j]);
        assert(t.mode_actions@.take(j + 1) =~= t.mode_actions@.take(j as int).push(
            t.mode_actions@[j as int],
        ));
        j += 1;
    }
    assert(t.mode_actions@.take(j as int) =~= t.mode_actions@);
    TokenInfo {
        name: t.name.clone(),
        display_name: t.display_name.clone(),
        pattern: t.pattern.clone(),
        skip: t.skip,
        kind: t.kind,
        mode_ids,
        mode_actions,
    }
}

impl Clone for TokenInfo {
    fn clone(&self) -> (r: Self)
        ensures
            r.pattern@ == self.pattern@,
            r.kind == self.kind,
            r.name@ == self.name@,
            r.display_name@ == self.display_name@,
            r.skip == self.skip,
            r.mode_ids@ == self.mode_ids@,
            r.mode_actions@ == self.mode_actions@,
    {
        clone_token(self)
    }
}

/// The two lists give the same lexer.
spec fn lex_alike(a: Seq<TokenInfo>, b: Seq<TokenInfo>) -> bool {
    &&& a.len() == b.len()
    &&& forall|i: int|
        0 <= i < a.len() ==> (#[trigger] a[i]).pattern@ == b[i].pattern@ && a[i].kind == b[i].kind
}

proof fn lemma_lex_alike(a: Seq<TokenInfo>, b: Seq<TokenInfo>, w: Seq<u8>, k: u16)
    requires
        lex_alike(a, b),
    ensures
        nfa::token_matches(a, w, k) == nfa::token_matches(b, w, k),
{
    if nfa::token_matches(a, w, k) {
        let i = choose|i: int|
            0 <= i < a.len() && (#[trigger] a[i]).kind == k
                && language::lang(a[i].pattern@, w);
        assert(b[i].kind == k);
    }
    if nfa::token_matches(b, w, k) {
        let i = choose|i: int|
            0 <= i < b.len() && (#[trigger] b[i]).kind == k
                && language::lang(b[i].pattern@, w);
        assert(a[i].kind == k);
    }
}

fn has_mode(ids: &Vec<u32>, mode: u32) -> (r: bool)
    ensures
        r == ids@.contains(mode),
{
    let mut i: usize = 0;
    while i < ids.len()
        invariant
            i <= ids@.len(),
            forall|m: int| 0 <= m < i ==> #[trigger] ids@[m] != mode,
        decreases ids@.len() - i,
    {
        if ids[i] == mode {
            return true;
        }
        i += 1;
    }
    false
}

/// The tokens that are live in a mode.
fn live_tokens(tokens: &Vec<TokenInfo>, mode: u32) -> (r: Vec<TokenInfo>)
    requires
        nfa::tokens_compilable(tokens@),
    ensures
        lex_alike(r@, live(tokens@, mode)),
        nfa::tokens_compilable(r@),
{
    let mut r: Vec<TokenInfo> = Vec::new();
    let mut i: usize = 0;
    assert(tokens@.take(0) =~= Seq::<TokenInfo>::empty());
    while i < tokens.len()
        invariant
            i <= tokens@.len(),
            nfa::tokens_compilable(tokens@),
            lex_alike(r@, live(tokens@.take(i as int), mode)),
            nfa::tokens_compilable(r@),
        decreases tokens@.len() - i,
    {
        proof {
            assert(tokens@.take(i + 1).drop_last() =~= tokens@.take(i as int));
            assert(tokens@.take(i + 1).last() == tokens@[i as int]);
        }
        if has_mode(&tokens[i].mode_ids, mode) {
            let ghost before = r@;
            let ghost l0 = live(tokens@.take(i as int), mode);
            r.push(clone_token(&tokens[i]));
            proof {
                assert forall|m: int| 0 <= m < r@.len() implies (#[trigger] r@[m]).pattern@
                    == l0.push(tokens@[i as int])[m].pattern@ && r@[m].kind == l0.push(
                    tokens@[i as int],
                )[m].kind by {
                    if m < before.len() {
                        assert(before[m].pattern@ == l0[m].pattern@);
                    }
                }
                assert forall|m: int| 0 <= m < r@.len() implies language::compilable(
                    (#[trigger] r@[m]).pattern@,
                ) by {
                    if m < before.len() {
                        assert(language::compilable(before[m].pattern@));
                    } else {
                        assert(language::compilable(
                            tokens@[i as int].pattern@,
                        ));
                    }
                }
            }
        }
        i += 1;
    }
    assert(tokens@.take(i as int) =~= tokens@);
    r
}

/// Tokens that match alike lex alike.
proof fn lemma_lexes_alike(a: Seq<TokenInfo>, b: Seq<TokenInfo>, w: Seq<u8>, k: Option<u16>)
    requires
        forall|w: Seq<u8>, k: u16| #[trigger]
            nfa::token_matches(b, w, k) == nfa::token_matches(a, w, k),
    ensures
        lexer_dfa::lexes(a, w, k) == lexer_dfa::lexes(b, w, k),
{
    assert forall|j: u16| #[trigger] nfa::token_matches(a, w, j) == nfa::token_matches(b, w, j) by {
        assert(nfa::token_matches(b, w, j) == nfa::token_matches(a, w, j));
    }
}

/// Tokens that match alike are crowded alike.
proof fn lemma_all_alike(a: Seq<TokenInfo>, b: Seq<TokenInfo>)
    requires
        forall|w: Seq<u8>, k: u16| #[trigger]
            nfa::token_matches(b, w, k) == nfa::token_matches(a, w, k),
    ensures
        lexer_dfa::crowded(a) ==> lexer_dfa::crowded(b),
{
    if lexer_dfa::crowded(a) {
        let ws = choose|ws: Seq<Seq<u8>>| #[trigger]
            lexer_dfa::all_apart(a, ws) && ws.len() > lexer_dfa::MAX_STATES;
        assert forall|i: int, j: int|
            #![trigger ws[i], ws[j]]
            0 <= i < j < ws.len() implies lexer_dfa::apart(b, ws[i], ws[j]) by {
            let (u, v) = (ws[i], ws[j]);
            assert(lexer_dfa::apart(a, u, v));
            let (z, p, q) = choose|z: Seq<u8>, p: Option<u16>, q: Option<u16>|
                #![trigger lexer_dfa::lexes(a, u + z, p), lexer_dfa::lexes(a, v + z, q)]
                lexer_dfa::lexes(a, u + z, p) && lexer_dfa::lexes(a, v + z, q) && p != q;
            lemma_lexes_alike(a, b, u + z, p);
            lemma_lexes_alike(a, b, v + z, q);
            assert(lexer_dfa::lexes(b, u + z, p) && lexer_dfa::lexes(b, v + z, q));
        }
        assert(lexer_dfa::all_apart(b, ws));
    }
}

/// One automaton for each lexer mode.
fn lay_modes(names: &Vec<String>, tokens: &Vec<TokenInfo>, opts: DfaOpts) -> (r: Vec<ModeInfo>)
    requires
        nfa::tokens_compilable(tokens@),
    ensures
        modes_lex(r@, names::list_view(names@), tokens@, opts.minimize),
{
    let ghost nv = names::list_view(names@);
    let mut r: Vec<ModeInfo> = Vec::new();
    let mut i: usize = 0;
    while i < names.len()
        invariant
            i <= names@.len(),
            nfa::tokens_compilable(tokens@),
            nv == names::list_view(names@),
            r@.len() == i,
            forall|m: int|
                0 <= m < r@.len() ==> (#[trigger] r@[m]).id == m as u32 && r@[m].name@ == nv[m]
                    && mode_lexes(r@[m], tokens@, opts.minimize),
        decreases names@.len() - i,
    {
        let id = #[verifier::truncate] (i as u32);
        let mode_tokens = live_tokens(tokens, id);
        let dfa = lexer_dfa::compile_with_opts(&mode_tokens, opts);
        let m = ModeInfo { id, name: names[i].clone(), dfa };
        proof {
            let l = live(tokens@, id);
            assert forall|w: Seq<u8>, k: u16| #[trigger] nfa::token_matches(l, w, k)
                == nfa::token_matches(mode_tokens@, w, k) by {
                lemma_lex_alike(mode_tokens@, l, w, k);
            }
            lemma_all_alike(mode_tokens@, l);
            assert forall|w: Seq<u8>, k: u16|
                #[trigger] lexer_dfa::accepted(m.dfa@, w) == Some(k) implies
                #[trigger] nfa::token_matches(l, w, k) by {
                assert(nfa::token_matches(mode_tokens@, w, k));
            }
            if !lexer_dfa::crowded(l) {
                assert(lexer_dfa::lexes_all(m.dfa@, mode_tokens@, opts.minimize));
                assert forall|w: Seq<u8>| #[trigger] lexer_dfa::lexes(
                    l,
                    w,
                    lexer_dfa::accepted(m.dfa@, w),
                ) by {
                    let a = lexer_dfa::accepted(m.dfa@, w);
                    assert(lexer_dfa::lexes(mode_tokens@, w, a));
                    lemma_lexes_alike(mode_tokens@, l, w, a);
                }
            }
        }
        r.push(m);
        i += 1;
    }
    r
}

/// The number of states that the program needs, counted up to the largest
/// number.
pub fn count_states(prog: &Program) -> (r: u64)
    requires
        program_ok(*prog),
    ensures
        r == if program_slots(*prog) <= u64::MAX { program_slots(*prog) as int } else {
            u64::MAX as int
        },
{
    let order = order_blocks(prog);
    let ghost bl = program::blocks_view(prog.blocks@);
    let mut total: u64 = 0;
    let mut n: usize = 0;
    while n < order.len()
        invariant
            n <= order@.len(),
            bl == program::blocks_view(prog.blocks@),
            forall|i: int| 0 <= i < order@.len() ==> (#[trigger] order@[i]) < prog.blocks@.len(),
            total == if slots_upto(bl, order@, n as nat) <= u64::MAX {
                slots_upto(bl, order@, n as nat) as int
            } else {
                u64::MAX as int
            },
        decreases order@.len() - n,
    {
        let b = order[n] as usize;
        let ops = prog.blocks[b].ops.len();
        assert(bl[b as int] == prog.blocks@[b as int]@);
        let size: u64 = if ops == 0 {
            1
        } else {
            ops as u64
        };
        total = total.saturating_add(size);
        n += 1;
    }
    total
}

/// Assign state ids to every step of every block, resolve the targets and
/// compile the lexer automata.
pub fn layout(prog: Program, ag: &AnalyzedGrammar, dopts: DfaOpts) -> (r: StateTable)
    requires
        program_ok(prog),
        program_slots(prog) < u32::MAX,
        nfa::tokens_compilable(prog.tokens@),
    ensures
        is_layout(r, prog, *ag, dopts),
{
    let order = order_blocks(&prog);
    let entries = entry_ids(&prog, &order);
    let labels = collect_labels(&prog, &order);
    let res = Resolver {
        entries: &entries,
        rules: &prog.rule_entry,
        first_sets: &prog.first_sets,
        labels: &labels,
    };
    let states = lay_states(&prog, &order, &res);
    let entry_states = lay_entries(&prog, &res);
    let modes = lay_modes(&prog.mode_names, &prog.tokens, dopts);
    StateTable {
        grammar_name: ag.grammar.name.clone(),
        tokens: prog.tokens,
        rule_kinds: prog.rules,
        labels,
        first_sets: prog.first_sets,
        sync_sets: prog.sync_sets,
        rule_sync: prog.rule_sync,
        states,
        entry_states,
        k: ag.k,
        modes,
    }
}

} // verus!
