//! Splicing of jump chains in flat state programs.
//!
//! A flat state is a straight-line list of [`Op`]s. Where a list ends in a
//! jump, what it jumps to can stand in place of the jump.
//!
//! * A target with one reference is moved: nothing else needs it where it was.
//! * Another target is copied, at most [`DUPLICATION_BUDGET`] times in a row,
//!   and not if it begins with a branch.
//!
//! Entry points always stay. References of a state to itself do not count: they
//! travel with the list.
use vstd::prelude::*;

use crate::lowering::optimize;
use crate::lowering::pipeline;
use crate::lowering::reach;
use crate::lowering::table::{FirstSetId, StateId, SyncSetId};

verus! {

/// How many targets in a row may be copied.
pub const DUPLICATION_BUDGET: usize = 6;

/// What to do at the end of a [`Tree`].
#[derive(Clone, Copy, Debug, PartialEq, Eq, Structural)]
pub enum Leaf {
    /// Go to the state.
    Arm(StateId),
    /// Go on behind the dispatch.
    Fallthrough,
    /// Report an error and recover.
    Error,
}

/// A decision tree over the lookahead.
#[derive(Debug, PartialEq, Eq)]
pub enum Tree {
    /// Done.
    Leaf(Leaf),
    /// Branch on the lookahead at `depth`.
    Switch {
        /// Which lookahead slot to inspect.
        depth: u8,
        /// Sub-tree for each kind.
        arms: Vec<(u16, Tree)>,
        /// What to do when no kind matches.
        default: Leaf,
    },
}

/// One instruction of a flat state.
#[derive(Debug, PartialEq, Eq)]
pub enum Op {
    /// Emit an `Enter` event.
    Enter(u16),
    /// Emit an `Exit` event.
    Exit(u16),
    /// Consume a token.
    Expect {
        /// Required token kind.
        kind: u16,
        /// Token name, for the message.
        token_name: String,
        /// SYNC set to recover to.
        sync: SyncSetId,
    },
    /// Push a return state.
    PushRet(StateId),
    /// Go to another state.
    Jump(StateId),
    /// Go to the state on top of the return stack.
    Ret,
    /// `*` loop.
    Star {
        /// FIRST set of the body.
        first: FirstSetId,
        /// Body of one round.
        body: StateId,
        /// Where to go when the loop ends.
        next: StateId,
        /// Where a round returns to.
        head: StateId,
    },
    /// `?` branch.
    Opt {
        /// FIRST set of the body.
        first: FirstSetId,
        /// Body.
        body: StateId,
        /// Where to go afterwards.
        next: StateId,
    },
    /// Choice by the lookahead.
    Dispatch {
        /// Decision tree.
        tree: Tree,
        /// SYNC set to recover to.
        sync: SyncSetId,
        /// Where to go afterwards.
        next: StateId,
    },
}

/// What a [`Tree`] says.
pub ghost enum TreeView {
    Leaf(Leaf),
    Switch(u8, Seq<u16>, Seq<TreeView>, Leaf),
}

/// What an [`Op`] says.
pub ghost enum OpView {
    Enter(u16),
    Exit(u16),
    Expect(u16, Seq<char>, u32),
    PushRet(u32),
    Jump(u32),
    Ret,
    Star(u32, u32, u32, u32),
    Opt(u32, u32, u32),
    Dispatch(TreeView, u32, u32),
}

/// The kinds of the arms.
pub open spec fn arm_kinds(arms: Seq<(u16, Tree)>) -> Seq<u16> {
    Seq::new(arms.len(), |i: int| arms[i].0)
}

/// The sub-trees of the arms.
pub open spec fn arm_trees(arms: Seq<(u16, Tree)>) -> Seq<TreeView>
    decreases arms,
{
    Seq::new(
        arms.len(),
        |i: int|
            if 0 <= i < arms.len() {
                arms[i].1.view()
            } else {
                TreeView::Leaf(Leaf::Error)
            },
    )
}

impl Tree {
    /// What the tree says.
    pub open spec fn view(self) -> TreeView
        decreases self,
    {
        match self {
            Tree::Leaf(l) => TreeView::Leaf(l),
            Tree::Switch { depth, arms, default } => TreeView::Switch(
                depth,
                arm_kinds(arms@),
                arm_trees(arms@),
                default,
            ),
        }
    }
}

impl Op {
    /// What the instruction says.
    pub open spec fn view(self) -> OpView {
        match self {
            Op::Enter(k) => OpView::Enter(k),
            Op::Exit(k) => OpView::Exit(k),
            Op::Expect { kind, token_name, sync } => OpView::Expect(kind, token_name@, sync),
            Op::PushRet(s) => OpView::PushRet(s),
            Op::Jump(s) => OpView::Jump(s),
            Op::Ret => OpView::Ret,
            Op::Star { first, body, next, head } => OpView::Star(first, body, next, head),
            Op::Opt { first, body, next } => OpView::Opt(first, body, next),
            Op::Dispatch { tree, sync, next } => OpView::Dispatch(tree@, sync, next),
        }
    }
}

fn clone_tree(t: &Tree) -> (r: Tree)
    ensures
        r@ == t@,
    decreases t,
{
    match t {
        Tree::Leaf(l) => Tree::Leaf(*l),
        Tree::Switch { depth, arms, default } => Tree::Switch {
            depth: *depth,
            arms: clone_arms(arms),
            default: *default,
        },
    }
}

fn clone_arms(arms: &Vec<(u16, Tree)>) -> (r: Vec<(u16, Tree)>)
    ensures
        arm_kinds(r@) == arm_kinds(arms@),
        arm_trees(r@) == arm_trees(arms@),
    decreases arms,
{
    let mut r: Vec<(u16, Tree)> = Vec::new();
    let mut i: usize = 0;
    while i < arms.len()
        invariant
            i <= arms@.len(),
            r@.len() == i,
            forall|k: int|
                0 <= k < i ==> (#[trigger] r@[k]).0 == arms@[k].0 && r@[k].1@ == arms@[k].1@,
        decreases arms@.len() - i,
    {
        r.push((arms[i].0, clone_tree(&arms[i].1)));
        i += 1;
    }
    assert(arm_kinds(r@) =~= arm_kinds(arms@));
    assert(arm_trees(r@) =~= arm_trees(arms@));
    r
}

impl Clone for Tree {
    fn clone(&self) -> (r: Self)
        ensures
            r@ == self@,
    {
        clone_tree(self)
    }
}

impl Clone for Op {
    fn clone(&self) -> (r: Self)
        ensures
            r@ == self@,
    {
        match self {
            Op::Enter(k) => Op::Enter(*k),
            Op::Exit(k) => Op::Exit(*k),
            Op::Expect { kind, token_name, sync } => Op::Expect {
                kind: *kind,
                token_name: token_name.clone(),
                sync: *sync,
            },
            Op::PushRet(s) => Op::PushRet(*s),
            Op::Jump(s) => Op::Jump(*s),
            Op::Ret => Op::Ret,
            Op::Star { first, body, next, head } => Op::Star {
                first: *first,
                body: *body,
                next: *next,
                head: *head,
            },
            Op::Opt { first, body, next } => Op::Opt { first: *first, body: *body, next: *next },
            Op::Dispatch { tree, sync, next } => Op::Dispatch {
                tree: clone_tree(tree),
                sync: *sync,
                next: *next,
            },
        }
    }
}

/// What the instructions say.
pub open spec fn ops_view(v: Seq<Op>) -> Seq<OpView> {
    Seq::new(v.len(), |i: int| v[i]@)
}

/// A numbered flat state.
#[derive(Debug)]
pub struct FlatState {
    /// The state's id.
    pub id: StateId,
    /// Human-readable tag.
    pub label: String,
    /// Instructions in order.
    pub ops: Vec<Op>,
}

/// What a [`FlatState`] says.
pub ghost struct FlatView {
    pub id: u32,
    pub label: Seq<char>,
    pub ops: Seq<OpView>,
}

impl FlatState {
    /// What the state says.
    pub open spec fn view(self) -> FlatView {
        FlatView { id: self.id, label: self.label@, ops: ops_view(self.ops@) }
    }
}

/// What the states say.
pub open spec fn flats_view(v: Seq<FlatState>) -> Seq<FlatView> {
    Seq::new(v.len(), |i: int| v[i]@)
}

/// The states are in strictly ascending order of id.
pub open spec fn ascending(states: Seq<FlatView>) -> bool {
    forall|i: int, j: int|
        0 <= i < j < states.len() ==> (#[trigger] states[i]).id < (#[trigger] states[j]).id
}

/// Flat states and their entry points.
#[derive(Debug)]
pub struct FlatTable {
    /// The states in ascending order of id.
    pub states: Vec<FlatState>,
    /// Rule name and start state of each entry point.
    pub entry_states: Vec<(String, StateId)>,
}

/// The instructions of the state with the id, if there is one.
pub open spec fn ops_of(states: Seq<FlatView>, id: u32) -> Option<Seq<OpView>>
    decreases states.len(),
{
    if states.len() == 0 {
        None
    } else if states.last().id == id {
        Some(states.last().ops)
    } else {
        ops_of(states.drop_last(), id)
    }
}

impl FlatTable {
    /// What the states say.
    pub open spec fn view(self) -> Seq<FlatView> {
        flats_view(self.states@)
    }

    /// The states are in order.
    pub open spec fn wf(self) -> bool {
        ascending(self@)
    }

    /// The state with the id.
    pub fn get(&self, id: StateId) -> (r: Option<&FlatState>)
        requires
            self.wf(),
        ensures
            match r {
                Some(s) => s.id == id && ops_of(self@, id) == Some(s@.ops),
                None => ops_of(self@, id) is None,
            },
    {
        let mut i: usize = 0;
        while i < self.states.len()
            invariant
                i <= self.states@.len(),
                self.wf(),
                forall|k: int| 0 <= k < i ==> (#[trigger] self@[k]).id != id,
            decreases self.states@.len() - i,
        {
            assert(self@[i as int] == self.states@[i as int]@);
            if self.states[i].id == id {
                proof {
                    lemma_ops_at(self@, i as int);
                }
                return Some(&self.states[i]);
            }
            i += 1;
        }
        proof {
            lemma_no_ops(self@, id);
        }
        None
    }
}

proof fn lemma_ops_at(states: Seq<FlatView>, i: int)
    requires
        ascending(states),
        0 <= i < states.len(),
    ensures
        ops_of(states, states[i].id) == Some(states[i].ops),
    decreases states.len(),
{
    if i < states.len() - 1 {
        let p = states.drop_last();
        assert(states[i].id < states[states.len() - 1].id);
        assert(p[i] == states[i]);
        assert forall|a: int, b: int| 0 <= a < b < p.len() implies (#[trigger] p[a]).id < (
        #[trigger] p[b]).id by {
            assert(states[a].id < states[b].id);
        }
        lemma_ops_at(p, i);
    }
}

proof fn lemma_no_ops(states: Seq<FlatView>, id: u32)
    requires
        forall|k: int| 0 <= k < states.len() ==> (#[trigger] states[k]).id != id,
    ensures
        ops_of(states, id) is None,
    decreases states.len(),
{
    if states.len() > 0 {
        assert(states[states.len() - 1].id != id);
        assert forall|k: int| 0 <= k < states.drop_last().len() implies (
        #[trigger] states.drop_last()[k]).id != id by {
            assert(states[k].id != id);
        }
        lemma_no_ops(states.drop_last(), id);
    }
}

/// The state of a leaf.
pub open spec fn leaf_targets(l: Leaf) -> Seq<u32> {
    match l {
        Leaf::Arm(s) => seq![s],
        _ => Seq::empty(),
    }
}

/// The states that a tree goes to.
pub open spec fn tree_targets(t: TreeView) -> Seq<u32>
    decreases t, 0nat,
{
    match t {
        TreeView::Leaf(l) => leaf_targets(l),
        TreeView::Switch(_, _, subs, default) => leaf_targets(default) + trees_targets(
            subs,
            subs.len(),
        ),
    }
}

/// The states that the first `n` trees go to.
pub open spec fn trees_targets(subs: Seq<TreeView>, n: nat) -> Seq<u32>
    decreases subs, n,
{
    if n == 0 || n > subs.len() {
        Seq::empty()
    } else {
        trees_targets(subs, (n - 1) as nat) + tree_targets(subs[n - 1])
    }
}

/// The states that an instruction refers to.
pub open spec fn targets(op: OpView) -> Seq<u32> {
    match op {
        OpView::PushRet(s) => seq![s],
        OpView::Jump(s) => seq![s],
        OpView::Star(_, body, next, head) => seq![body, next, head],
        OpView::Opt(_, body, next) => seq![body, next],
        OpView::Dispatch(tree, _, next) => seq![next] + tree_targets(tree),
        _ => Seq::empty(),
    }
}

/// The states that the instructions refer to.
pub open spec fn all_targets(ops: Seq<OpView>) -> Seq<u32>
    decreases ops.len(),
{
    if ops.len() == 0 {
        Seq::empty()
    } else {
        all_targets(ops.drop_last()) + targets(ops.last())
    }
}

/// How often the list has the element.
pub open spec fn occurrences(l: Seq<u32>, x: u32) -> nat
    decreases l.len(),
{
    if l.len() == 0 {
        0
    } else {
        occurrences(l.drop_last(), x) + if l.last() == x {
            1nat
        } else {
            0nat
        }
    }
}

/// How often other states among the first `n` refer to the state.
pub open spec fn outside_refs(states: Seq<FlatView>, s: u32, n: nat) -> nat
    decreases n,
{
    if n == 0 || n > states.len() {
        0
    } else {
        outside_refs(states, s, (n - 1) as nat) + if states[n - 1].id == s {
            0nat
        } else {
            occurrences(all_targets(states[n - 1].ops), s)
        }
    }
}

/// The instruction branches.
pub open spec fn branches(op: OpView) -> bool {
    op is Star || op is Opt || op is Dispatch
}

/// The instructions with the jumps at their end replaced by what they lead to,
/// where `used` copies have been made and no state comes twice.
pub open spec fn fused(
    states: Seq<FlatView>,
    entries: Seq<u32>,
    ops: Seq<OpView>,
    visited: Seq<u32>,
    used: nat,
) -> Seq<OpView>
    decreases states.len() - visited.len(),
{
    if ops.len() == 0 {
        ops
    } else {
        match ops.last() {
            OpView::Jump(t) => if visited.contains(t) || visited.len() >= states.len() {
                ops
            } else {
                match ops_of(states, t) {
                    None => ops,
                    Some(next) => if next.len() == 0 {
                        ops
                    } else if outside_refs(states, t, states.len()) <= 1 && !entries.contains(t) {
                        fused(states, entries, ops.drop_last() + next, visited.push(t), used)
                    } else if branches(next[0]) || used >= DUPLICATION_BUDGET {
                        ops
                    } else {
                        fused(
                            states,
                            entries,
                            ops.drop_last() + next,
                            visited.push(t),
                            used + 1,
                        )
                    },
                }
            },
            _ => ops,
        }
    }
}

/// Each state with its jumps spliced.
pub open spec fn spliced(states: Seq<FlatView>, entries: Seq<u32>) -> Seq<FlatView> {
    Seq::new(
        states.len(),
        |i: int|
            FlatView {
                id: states[i].id,
                label: states[i].label,
                ops: fused(states, entries, states[i].ops, seq![states[i].id], 0),
            },
    )
}

/// The states, each with those that it refers to.
pub open spec fn edges_of(states: Seq<FlatView>) -> reach::Edges {
    Seq::new(states.len(), |i: int| (states[i].id, all_targets(states[i].ops)))
}

/// The states of `l` that some entry point reaches.
pub open spec fn kept(
    states: Seq<FlatView>,
    entries: Seq<u32>,
    l: Seq<FlatView>,
) -> Seq<FlatView>
    decreases l.len(),
{
    if l.len() == 0 {
        l
    } else if reach::reached(edges_of(states), entries, l.last().id) {
        kept(states, entries, l.drop_last()).push(l.last())
    } else {
        kept(states, entries, l.drop_last())
    }
}

fn push_leaf(l: &Leaf, out: &mut Vec<StateId>)
    ensures
        final(out)@ == old(out)@ + leaf_targets(*l),
{
    if let Leaf::Arm(s) = l {
        out.push(*s);
    }
    assert(out@ =~= old(out)@ + leaf_targets(*l));
}

fn collect_tree_targets(t: &Tree, out: &mut Vec<StateId>)
    ensures
        final(out)@ == old(out)@ + tree_targets(t@),
    decreases t,
{
    let ghost before = out@;
    match t {
        Tree::Leaf(l) => push_leaf(l, out),
        Tree::Switch { depth: _, arms, default } => {
            assert(t@->Switch_2 == arm_trees(arms@));
            push_leaf(default, out);
            collect_arm_targets(arms, out);
            assert(out@ =~= before + tree_targets(t@));
        },
    }
}

fn collect_arm_targets(arms: &Vec<(u16, Tree)>, out: &mut Vec<StateId>)
    ensures
        final(out)@ == old(out)@ + trees_targets(arm_trees(arms@), arms@.len()),
    decreases arms,
{
    let ghost before = out@;
    let ghost subs = arm_trees(arms@);
    let mut i: usize = 0;
    assert(out@ =~= before + trees_targets(subs, 0));
    while i < arms.len()
        invariant
            i <= arms@.len(),
            subs == arm_trees(arms@),
            out@ == before + trees_targets(subs, i as nat),
        decreases arms@.len() - i,
    {
        assert(subs[i as int] == arms@[i as int].1@);
        collect_tree_targets(&arms[i].1, out);
        assert(out@ =~= before + trees_targets(subs, (i + 1) as nat));
        i += 1;
    }
}

/// The states that an instruction refers to.
fn op_targets(op: &Op) -> (r: Vec<StateId>)
    ensures
        r@ == targets(op@),
{
    let mut r: Vec<StateId> = Vec::new();
    match op {
        Op::PushRet(s) => r.push(*s),
        Op::Jump(s) => r.push(*s),
        Op::Star { first: _, body, next, head } => {
            r.push(*body);
            r.push(*next);
            r.push(*head);
        },
        Op::Opt { first: _, body, next } => {
            r.push(*body);
            r.push(*next);
        },
        Op::Dispatch { tree, sync: _, next } => {
            r.push(*next);
            collect_tree_targets(tree, &mut r);
        },
        _ => {},
    }
    assert(r@ =~= targets(op@));
    r
}

/// The states that the instructions refer to.
fn ops_targets(ops: &Vec<Op>) -> (r: Vec<StateId>)
    ensures
        r@ == all_targets(ops_view(ops@)),
{
    let ghost ov = ops_view(ops@);
    let mut r: Vec<StateId> = Vec::new();
    let mut i: usize = 0;
    assert(ov.take(0) =~= Seq::<OpView>::empty());
    while i < ops.len()
        invariant
            i <= ops@.len(),
            ov == ops_view(ops@),
            r@ == all_targets(ov.take(i as int)),
        decreases ops@.len() - i,
    {
        let more = op_targets(&ops[i]);
        let ghost before = r@;
        let mut j: usize = 0;
        assert(r@ =~= before + more@.take(0));
        while j < more.len()
            invariant
                j <= more@.len(),
                r@ == before + more@.take(j as int),
            decreases more@.len() - j,
        {
            r.push(more[j]);
            assert(r@ =~= before + more@.take(j + 1));
            j += 1;
        }
        proof {
            assert(more@.take(j as int) =~= more@);
            assert(ov.take(i + 1).drop_last() =~= ov.take(i as int));
            assert(ov.take(i + 1).last() == ops@[i as int]@);
        }
        i += 1;
    }
    assert(ov.take(i as int) =~= ov);
    r
}

fn count_in(l: &Vec<u32>, x: u32) -> (r: usize)
    ensures
        r == occurrences(l@, x),
{
    let mut n: usize = 0;
    let mut i: usize = 0;
    assert(l@.take(0) =~= Seq::<u32>::empty());
    while i < l.len()
        invariant
            i <= l@.len(),
            n <= i,
            n == occurrences(l@.take(i as int), x),
        decreases l@.len() - i,
    {
        assert(l@.take(i + 1).drop_last() =~= l@.take(i as int));
        if l[i] == x {
            n += 1;
        }
        i += 1;
    }
    assert(l@.take(i as int) =~= l@);
    n
}

/// How often other states refer to the state, as far as a `usize` counts.
fn count_external_refs(states: &Vec<FlatState>, s: StateId) -> (r: usize)
    ensures
        r == pipeline::as_usize(outside_refs(flats_view(states@), s, states@.len())),
{
    let ghost sv = flats_view(states@);
    let mut n: usize = 0;
    let mut i: usize = 0;
    while i < states.len()
        invariant
            i <= states@.len(),
            sv == flats_view(states@),
            n == pipeline::as_usize(outside_refs(sv, s, i as nat)),
        decreases states@.len() - i,
    {
        assert(sv[i as int] == states@[i as int]@);
        if states[i].id != s {
            let l = ops_targets(&states[i].ops);
            let here = count_in(&l, s);
            n = n.saturating_add(here);
        }
        i += 1;
    }
    n
}

fn is_branch(op: &Op) -> (r: bool)
    ensures
        r == branches(op@),
{
    match op {
        Op::Star { first: _, body: _, next: _, head: _ } => true,
        Op::Opt { first: _, body: _, next: _ } => true,
        Op::Dispatch { tree: _, sync: _, next: _ } => true,
        _ => false,
    }
}

/// The instructions without the last, then copies of the others.
fn replace_last(ops: &Vec<Op>, next: &Vec<Op>) -> (r: Vec<Op>)
    requires
        ops@.len() > 0,
    ensures
        ops_view(r@) == ops_view(ops@).drop_last() + ops_view(next@),
{
    let ghost a = ops_view(ops@).drop_last();
    let ghost b = ops_view(next@);
    let mut r: Vec<Op> = Vec::new();
    let mut i: usize = 0;
    while i < ops.len() - 1
        invariant
            i <= ops@.len() - 1,
            ops@.len() > 0,
            a == ops_view(ops@).drop_last(),
            r@.len() == i,
            forall|m: int| 0 <= m < i ==> (#[trigger] r@[m])@ == a[m],
        decreases ops@.len() - i,
    {
        r.push(ops[i].clone());
        i += 1;
    }
    assert(ops_view(r@) =~= a);
    let mut j: usize = 0;
    assert(ops_view(r@) =~= a + b.take(0));
    while j < next.len()
        invariant
            j <= next@.len(),
            b == ops_view(next@),
            ops_view(r@) == a + b.take(j as int),
        decreases next@.len() - j,
    {
        let ghost before = r@;
        r.push(next[j].clone());
        proof {
            assert(b[j as int] == next@[j as int]@);
            assert(ops_view(r@) =~= ops_view(before).push(b[j as int]));
            assert(ops_view(r@) =~= a + b.take(j + 1));
        }
        j += 1;
    }
    assert(b.take(j as int) =~= b);
    r
}

fn clone_ops(ops: &Vec<Op>) -> (r: Vec<Op>)
    ensures
        ops_view(r@) == ops_view(ops@),
{
    let mut r: Vec<Op> = Vec::new();
    let mut i: usize = 0;
    while i < ops.len()
        invariant
            i <= ops@.len(),
            r@.len() == i,
            forall|m: int| 0 <= m < i ==> (#[trigger] r@[m])@ == ops@[m]@,
        decreases ops@.len() - i,
    {
        r.push(ops[i].clone());
        i += 1;
    }
    assert(ops_view(r@) =~= ops_view(ops@));
    r
}

/// The instructions of a state with its jumps spliced.
fn fuse_ops(table: &FlatTable, entries: &Vec<u32>, start: &FlatState) -> (r: Vec<Op>)
    requires
        table.wf(),
    ensures
        ops_view(r@) == fused(table@, entries@, start@.ops, seq![start.id], 0),
{
    let ghost sv = table@;
    let ghost ev = entries@;
    let ghost want = fused(sv, ev, start@.ops, seq![start.id], 0);
    let mut ops = clone_ops(&start.ops);
    let mut visited: Vec<u32> = Vec::new();
    visited.push(start.id);
    assert(visited@ =~= seq![start.id]);
    let mut used: usize = 0;
    let mut go = true;
    while go
        invariant
            table.wf(),
            sv == table@,
            ev == entries@,
            used <= DUPLICATION_BUDGET,
            go ==> fused(sv, ev, ops_view(ops@), visited@, used as nat) == want,
            !go ==> ops_view(ops@) == want,
        decreases
                sv.len() - visited@.len() + 1,
                (if go {
                    1int
                } else {
                    0int
                }),
    {
        go = false;
        let n = ops.len();
        let ghost ov = ops_view(ops@);
        if n > 0 {
            assert(ov.last() == ops@[n - 1]@);
            if let Op::Jump(t) = &ops[n - 1] {
                let t = *t;
                assert(sv.len() == table.states@.len());
                if !reach::has_id(&visited, t) && visited.len() < table.states.len() {
                    if let Some(next) = table.get(t) {
                        assert(next@.ops.len() == next.ops@.len());
                        if next.ops.len() > 0 {
                            let refs = count_external_refs(&table.states, t);
                            let single = refs <= 1 && !reach::has_id(entries, t);
                            assert(next@.ops[0] == next.ops@[0]@);
                            if single {
                                ops = replace_last(&ops, &next.ops);
                                visited.push(t);
                                go = true;
                            } else if !is_branch(&next.ops[0]) && used < DUPLICATION_BUDGET {
                                ops = replace_last(&ops, &next.ops);
                                visited.push(t);
                                used += 1;
                                go = true;
                            }
                        }
                    }
                }
            }
        }
    }
    ops
}

fn entry_ids(entries: &Vec<(String, StateId)>) -> (r: Vec<u32>)
    ensures
        r@ == optimize::entry_set(entries@),
{
    let mut r: Vec<u32> = Vec::new();
    let mut i: usize = 0;
    while i < entries.len()
        invariant
            i <= entries@.len(),
            r@ == optimize::entry_set(entries@).take(i as int),
        decreases entries@.len() - i,
    {
        r.push(entries[i].1);
        assert(optimize::entry_set(entries@).take(i + 1) =~= optimize::entry_set(entries@).take(
            i as int,
        ).push(entries@[i as int].1));
        i += 1;
    }
    assert(r@ =~= optimize::entry_set(entries@));
    r
}

/// Replace the jumps at the end of each state by what they lead to.
pub fn splice_chains(table: &mut FlatTable)
    requires
        old(table).wf(),
    ensures
        final(table).wf(),
        final(table).entry_states == old(table).entry_states,
        final(table)@ == spliced(old(table)@, optimize::entry_set(old(table).entry_states@)),
{
    let ghost sv = table@;
    let entries = entry_ids(&table.entry_states);
    let ghost want = spliced(sv, entries@);
    let mut out: Vec<FlatState> = Vec::new();
    let mut i: usize = 0;
    while i < table.states.len()
        invariant
            i <= table.states@.len(),
            table.wf(),
            sv == table@,
            want == spliced(sv, entries@),
            out@.len() == i,
            forall|m: int| 0 <= m < i ==> (#[trigger] out@[m])@ == want[m],
        decreases table.states@.len() - i,
    {
        let s = &table.states[i];
        assert(sv[i as int] == s@);
        let ops = fuse_ops(table, &entries, s);
        out.push(FlatState { id: s.id, label: s.label.clone(), ops });
        i += 1;
    }
    table.states = out;
    proof {
        assert(table@ =~= want);
        assert forall|a: int, b: int| 0 <= a < b < table@.len() implies (#[trigger] table@[a]).id
            < (#[trigger] table@[b]).id by {
            assert(sv[a].id < sv[b].id);
        }
    }
}

/// Drop every state that no entry point reaches.
pub fn eliminate_dead(table: &mut FlatTable)
    requires
        old(table).wf(),
    ensures
        final(table).wf(),
        final(table).entry_states == old(table).entry_states,
        final(table)@ == kept(
            old(table)@,
            optimize::entry_set(old(table).entry_states@),
            old(table)@,
        ),
{
    let ghost sv = table@;
    let entries = entry_ids(&table.entry_states);
    let ghost ev = entries@;
    let mut edges: Vec<(u32, Vec<u32>)> = Vec::new();
    let mut i: usize = 0;
    while i < table.states.len()
        invariant
            i <= table.states@.len(),
            sv == table@,
            edges@.len() == i,
            forall|m: int|
                0 <= m < i ==> (#[trigger] edges@[m]).0 == sv[m].id && edges@[m].1@ == all_targets(
                    sv[m].ops,
                ),
        decreases table.states@.len() - i,
    {
        assert(sv[i as int] == table.states@[i as int]@);
        edges.push((table.states[i].id, ops_targets(&table.states[i].ops)));
        i += 1;
    }
    assert(reach::edges_view(edges@) =~= edges_of(sv));
    let live = reach::reach_all(&edges, &entries);
    let mut out: Vec<FlatState> = Vec::new();
    let mut n: usize = 0;
    assert(sv.take(0) =~= Seq::<FlatView>::empty());
    assert(flats_view(out@) =~= kept(sv, ev, sv.take(0)));
    while n < table.states.len()
        invariant
            n <= table.states@.len(),
            sv == table@,
            forall|s: u32| #[trigger] live@.contains(s) <==> reach::reached(edges_of(sv), ev, s),
            flats_view(out@) == kept(sv, ev, sv.take(n as int)),
        decreases table.states@.len() - n,
    {
        let s = &table.states[n];
        proof {
            assert(sv.take(n + 1).drop_last() =~= sv.take(n as int));
            assert(sv.take(n + 1).last() == s@);
        }
        if reach::has_id(&live, s.id) {
            let ghost before = out@;
            let copy = FlatState { id: s.id, label: s.label.clone(), ops: clone_ops(&s.ops) };
            assert(copy@ == s@);
            out.push(copy);
            assert(flats_view(out@) =~= flats_view(before).push(s@));
        }
        n += 1;
    }
    assert(sv.take(n as int) =~= sv);
    table.states = out;
    proof {
        lemma_kept(sv, ev, sv);
    }
}

/// What is kept is in order, and all of it was there.
proof fn lemma_kept(states: Seq<FlatView>, entries: Seq<u32>, l: Seq<FlatView>)
    requires
        ascending(l),
    ensures
        ascending(kept(states, entries, l)),
        forall|s: FlatView| #[trigger]
            kept(states, entries, l).contains(s) <==> l.contains(s) && reach::reached(
                edges_of(states),
                entries,
                s.id,
            ),
    decreases l.len(),
{
    if l.len() > 0 {
        let p = l.drop_last();
        assert forall|a: int, b: int| 0 <= a < b < p.len() implies (#[trigger] p[a]).id < (
        #[trigger] p[b]).id by {
            assert(l[a].id < l[b].id);
        }
        lemma_kept(states, entries, p);
        let k = kept(states, entries, p);
        let r = kept(states, entries, l);
        assert forall|s: FlatView| #[trigger] r.contains(s) <==> l.contains(s) && reach::reached(
            edges_of(states),
            entries,
            s.id,
        ) by {
            assert(l[l.len() - 1] == l.last());
            if p.contains(s) {
                let j = choose|j: int| 0 <= j < p.len() && p[j] == s;
                assert(l[j] == s);
            }
            if l.contains(s) {
                let j = choose|j: int| 0 <= j < l.len() && l[j] == s;
                if j < p.len() {
                    assert(p[j] == s);
                }
            }
            if reach::reached(edges_of(states), entries, l.last().id) {
                assert(r[k.len() as int] == l.last());
                if k.contains(s) {
                    let j = choose|j: int| 0 <= j < k.len() && k[j] == s;
                    assert(r[j] == s);
                }
                if r.contains(s) {
                    let j = choose|j: int| 0 <= j < r.len() && r[j] == s;
                    if j < k.len() {
                        assert(k[j] == s);
                    }
                }
            }
        }
        assert forall|a: int, b: int| 0 <= a < b < r.len() implies (#[trigger] r[a]).id < (
        #[trigger] r[b]).id by {
            if b < k.len() {
                assert(k[a].id < k[b].id);
            } else {
                assert(k.contains(k[a]));
                let j = choose|j: int| 0 <= j < p.len() && p[j] == k[a];
                assert(l[j].id < l[l.len() - 1].id);
            }
        }
    }
}

/// Splice straight-line jump chains and drop states that are not reached.
pub fn fuse(table: &mut FlatTable)
    requires
        old(table).wf(),
    ensures
        final(table).wf(),
        final(table).entry_states == old(table).entry_states,
        ({
            let entries = optimize::entry_set(old(table).entry_states@);
            let next = spliced(old(table)@, entries);
            final(table)@ == kept(next, entries, next)
        }),
{
    splice_chains(table);
    eliminate_dead(table);
}

/// Fusing keeps the state of every entry point.
pub proof fn law_fuse_keeps_entries(states: Seq<FlatView>, entries: Seq<u32>, i: int)
    requires
        ascending(states),
        0 <= i < states.len(),
        entries.contains(states[i].id),
    ensures
        ({
            let next = spliced(states, entries);
            exists|j: int|
                0 <= j < kept(next, entries, next).len() && (#[trigger] kept(
                    next,
                    entries,
                    next,
                )[j]).id == states[i].id
        }),
{
    let next = spliced(states, entries);
    assert forall|a: int, b: int| 0 <= a < b < next.len() implies (#[trigger] next[a]).id < (
    #[trigger] next[b]).id by {
        assert(states[a].id < states[b].id);
    }
    lemma_kept(next, entries, next);
    reach::lemma_entry_reached(edges_of(next), entries, next[i].id);
    assert(next.contains(next[i]));
    let k = kept(next, entries, next);
    assert(k.contains(next[i]));
    let j = choose|j: int| 0 <= j < k.len() && k[j] == next[i];
    assert(k[j].id == states[i].id);
}

} // verus!
