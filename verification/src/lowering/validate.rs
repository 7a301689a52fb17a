//! What the runtime asks of a state body.
//!
//! 1. At most one event on each path through the body: one step of the driver
//!    runs one body and hands back the event of the path taken.
//! 2. Nothing reads the lookahead after an `Expect` in the same body: the slot
//!    that it emptied is filled only between steps.
//!
//! A path without any event is fine; the driver goes on to the next state.
use vstd::prelude::*;

use crate::lowering::table::{
    self, Body, BodyView, DispatchLeaf, DispatchTree, Instr, InstrView, LeafView, StateMap,
    StateTable, Tail, TailView, TreeView,
};

verus! {

/// The number of events that an instruction emits.
pub open spec fn instr_events(i: InstrView) -> nat {
    match i {
        InstrView::PushRet(_) => 0,
        _ => 1,
    }
}

/// The number of events that the instructions emit.
pub open spec fn instrs_events(l: Seq<InstrView>) -> nat
    decreases l.len(),
{
    if l.len() == 0 {
        0
    } else {
        instrs_events(l.drop_last()) + instr_events(l.last())
    }
}

/// The larger number.
pub open spec fn larger(a: nat, b: nat) -> nat {
    if a > b {
        a
    } else {
        b
    }
}

/// The largest number of events on a path through the body.
pub open spec fn body_events(b: BodyView) -> nat
    decreases b, 1nat,
{
    instrs_events(b.instrs) + tail_events(b.tail)
}

/// The largest number of events on a path through the end of a body.
pub open spec fn tail_events(t: TailView) -> nat
    decreases t, 0nat,
{
    match t {
        TailView::Jump(_) => 0,
        TailView::Ret => 0,
        TailView::Star(_, b, _, _) => body_events(*b),
        TailView::Opt(_, b, _) => body_events(*b),
        TailView::Dispatch(tree, _, _, _) => tree_events(tree),
    }
}

/// The largest number of events at a leaf. A miss raises one error.
pub open spec fn leaf_events(l: LeafView) -> nat
    decreases l, 0nat,
{
    match l {
        LeafView::Arm(b) => body_events(*b),
        LeafView::Fallthrough => 0,
        LeafView::Error => 1,
    }
}

/// The largest number of events on a path through the tree.
pub open spec fn tree_events(t: TreeView) -> nat
    decreases t, 0nat,
{
    match t {
        TreeView::Leaf(l) => leaf_events(l),
        TreeView::Switch(_, _, subs, default) => larger(
            leaf_events(default),
            trees_events(subs, subs.len()),
        ),
    }
}

/// The largest number of events on a path through the first `n` trees.
pub open spec fn trees_events(subs: Seq<TreeView>, n: nat) -> nat
    decreases subs, n,
{
    if n == 0 || n > subs.len() {
        0
    } else {
        larger(trees_events(subs, (n - 1) as nat), tree_events(subs[n - 1]))
    }
}

/// Some instruction takes a token.
pub open spec fn has_expect(l: Seq<InstrView>) -> bool {
    exists|i: int| 0 <= i < l.len() && (#[trigger] l[i]) is Expect
}

/// The end of a body decides by the lookahead.
pub open spec fn reads_ahead(t: TailView) -> bool {
    !(t is Jump) && !(t is Ret)
}

/// Nothing in the body reads the lookahead after it took a token.
pub open spec fn no_peek_after_expect(b: BodyView) -> bool
    decreases b, 1nat,
{
    (has_expect(b.instrs) ==> !reads_ahead(b.tail)) && tail_no_peek(b.tail)
}

pub open spec fn tail_no_peek(t: TailView) -> bool
    decreases t, 0nat,
{
    match t {
        TailView::Jump(_) => true,
        TailView::Ret => true,
        TailView::Star(_, b, _, _) => no_peek_after_expect(*b),
        TailView::Opt(_, b, _) => no_peek_after_expect(*b),
        TailView::Dispatch(tree, _, _, _) => tree_no_peek(tree),
    }
}

pub open spec fn leaf_no_peek(l: LeafView) -> bool
    decreases l, 0nat,
{
    match l {
        LeafView::Arm(b) => no_peek_after_expect(*b),
        _ => true,
    }
}

pub open spec fn tree_no_peek(t: TreeView) -> bool
    decreases t, 0nat,
{
    match t {
        TreeView::Leaf(l) => leaf_no_peek(l),
        TreeView::Switch(_, _, subs, default) => leaf_no_peek(default) && forall|i: int|
            0 <= i < subs.len() ==> tree_no_peek(#[trigger] subs[i]),
    }
}

/// The body keeps to both rules.
pub open spec fn valid_body(b: BodyView) -> bool {
    body_events(b) <= 1 && no_peek_after_expect(b)
}

/// Every state has a body that keeps to both rules.
pub open spec fn all_valid(states: Seq<table::StateView>) -> bool {
    forall|i: int| 0 <= i < states.len() ==> valid_body((#[trigger] states[i]).body)
}

/// The smaller of the number and two: all that the rules ask for.
pub open spec fn capped(n: nat) -> int {
    if n > 2 {
        2
    } else {
        n as int
    }
}

fn cap_sum(a: u8, b: u8) -> (r: u8)
    requires
        a <= 2,
        b <= 2,
    ensures
        r == capped((a + b) as nat),
{
    if a + b > 2 {
        2
    } else {
        a + b
    }
}

fn count_instrs(l: &Vec<Instr>) -> (r: u8)
    ensures
        r == capped(instrs_events(table::instrs_view(l@))),
{
    let ghost lv = table::instrs_view(l@);
    let mut n: u8 = 0;
    let mut i: usize = 0;
    assert(lv.take(0) =~= Seq::<InstrView>::empty());
    while i < l.len()
        invariant
            i <= l@.len(),
            lv == table::instrs_view(l@),
            n == capped(instrs_events(lv.take(i as int))),
        decreases l@.len() - i,
    {
        assert(lv.take(i + 1).drop_last() =~= lv.take(i as int));
        assert(lv.take(i + 1).last() == l@[i as int]@);
        let here: u8 = match &l[i] {
            Instr::PushRet(_) => 0,
            _ => 1,
        };
        n = cap_sum(n, here);
        i += 1;
    }
    assert(lv.take(i as int) =~= lv);
    n
}

/// The largest number of events on a path, counted up to two.
fn max_events_per_path(b: &Body) -> (r: u8)
    ensures
        r == capped(body_events(b@)),
    decreases b, 1nat,
{
    let head = count_instrs(&b.instrs);
    let tail = events_in_tail(&b.tail);
    cap_sum(head, tail)
}

fn events_in_tail(t: &Tail) -> (r: u8)
    ensures
        r == capped(tail_events(t@)),
    decreases t, 0nat,
{
    match t {
        Tail::Jump(_) => 0,
        Tail::Ret => 0,
        Tail::Star { first: _, body, cont: _, head: _ } => max_events_per_path(body),
        Tail::Opt { first: _, body, cont: _ } => max_events_per_path(body),
        Tail::Dispatch { tree, sync: _, cont: _, insertions: _ } => max_arm_events(tree),
    }
}

fn events_in_leaf(l: &DispatchLeaf) -> (r: u8)
    ensures
        r == capped(leaf_events(l@)),
    decreases l, 0nat,
{
    match l {
        DispatchLeaf::Arm(b) => max_events_per_path(b),
        DispatchLeaf::Fallthrough => 0,
        DispatchLeaf::Error => 1,
    }
}

fn max_arm_events(t: &DispatchTree) -> (r: u8)
    ensures
        r == capped(tree_events(t@)),
    decreases t, 0nat,
{
    match t {
        DispatchTree::Leaf(l) => events_in_leaf(l),
        DispatchTree::Switch { depth: _, arms, default } => {
            let a = events_in_leaf(default);
            let b = max_sub_events(arms);
            if a > b {
                a
            } else {
                b
            }
        },
    }
}

fn max_sub_events(arms: &Vec<(u16, DispatchTree)>) -> (r: u8)
    ensures
        r == capped(trees_events(table::arm_trees(arms@), arms@.len())),
    decreases arms, 0nat,
{
    let ghost subs = table::arm_trees(arms@);
    let mut n: u8 = 0;
    let mut i: usize = 0;
    while i < arms.len()
        invariant
            i <= arms@.len(),
            subs == table::arm_trees(arms@),
            n == capped(trees_events(subs, i as nat)),
        decreases arms@.len() - i,
    {
        let here = max_arm_events(&arms[i].1);
        assert(subs[i as int] == arms@[i as int].1@);
        if here > n {
            n = here;
        }
        i += 1;
    }
    n
}

fn instrs_have_expect(l: &Vec<Instr>) -> (r: bool)
    ensures
        r == has_expect(table::instrs_view(l@)),
{
    let ghost lv = table::instrs_view(l@);
    let mut i: usize = 0;
    while i < l.len()
        invariant
            i <= l@.len(),
            lv == table::instrs_view(l@),
            forall|m: int| 0 <= m < i ==> !((#[trigger] lv[m]) is Expect),
        decreases l@.len() - i,
    {
        assert(lv[i as int] == l@[i as int]@);
        if let Instr::Expect { kind: _, token_name: _, sync: _, label: _ } = &l[i] {
            return true;
        }
        i += 1;
    }
    false
}

fn no_lookahead_after_expect(b: &Body) -> (r: bool)
    ensures
        r == no_peek_after_expect(b@),
    decreases b, 1nat,
{
    if instrs_have_expect(&b.instrs) {
        match &b.tail {
            Tail::Jump(_) => {},
            Tail::Ret => {},
            _ => {
                return false;
            },
        }
    }
    tail_post_expect_ok(&b.tail)
}

fn tail_post_expect_ok(t: &Tail) -> (r: bool)
    ensures
        r == tail_no_peek(t@),
    decreases t, 0nat,
{
    match t {
        Tail::Jump(_) => true,
        Tail::Ret => true,
        Tail::Star { first: _, body, cont: _, head: _ } => no_lookahead_after_expect(body),
        Tail::Opt { first: _, body, cont: _ } => no_lookahead_after_expect(body),
        Tail::Dispatch { tree, sync: _, cont: _, insertions: _ } => dispatch_tree_post_expect_ok(
            tree,
        ),
    }
}

fn leaf_post_expect_ok(l: &DispatchLeaf) -> (r: bool)
    ensures
        r == leaf_no_peek(l@),
    decreases l, 0nat,
{
    match l {
        DispatchLeaf::Arm(b) => no_lookahead_after_expect(b),
        _ => true,
    }
}

fn dispatch_tree_post_expect_ok(t: &DispatchTree) -> (r: bool)
    ensures
        r == tree_no_peek(t@),
    decreases t, 0nat,
{
    match t {
        DispatchTree::Leaf(l) => leaf_post_expect_ok(l),
        DispatchTree::Switch { depth: _, arms, default } => {
            assert(t@->Switch_2 == table::arm_trees(arms@));
            leaf_post_expect_ok(default) && arms_post_expect_ok(arms)
        },
    }
}

fn arms_post_expect_ok(arms: &Vec<(u16, DispatchTree)>) -> (r: bool)
    ensures
        r == forall|i: int|
            0 <= i < arms@.len() ==> tree_no_peek(#[trigger] table::arm_trees(arms@)[i]),
    decreases arms, 0nat,
{
    let ghost subs = table::arm_trees(arms@);
    let mut i: usize = 0;
    while i < arms.len()
        invariant
            i <= arms@.len(),
            subs == table::arm_trees(arms@),
            forall|m: int| 0 <= m < i ==> tree_no_peek(#[trigger] subs[m]),
        decreases arms@.len() - i,
    {
        assert(subs[i as int] == arms@[i as int].1@);
        if !dispatch_tree_post_expect_ok(&arms[i].1) {
            return false;
        }
        i += 1;
    }
    true
}

/// True iff `body` is a legal state body. Both rules hold of nested bodies
/// too.
pub fn is_valid_body(body: &Body) -> (r: bool)
    ensures
        r == valid_body(body@),
{
    if max_events_per_path(body) > 1 {
        return false;
    }
    no_lookahead_after_expect(body)
}

/// The id of the first state with a body that breaks a rule, if there is one.
pub fn find_invalid(states: &StateMap) -> (r: Option<u32>)
    ensures
        r is None <==> all_valid(states@),
        r matches Some(id) ==> exists|i: int|
            0 <= i < states@.len() && (#[trigger] states@[i]).id == id && !valid_body(
                states@[i].body,
            ),
{
    let n = states.len();
    let mut i: usize = 0;
    while i < n
        invariant
            i <= n,
            n == states@.len(),
            forall|m: int| 0 <= m < i ==> valid_body((#[trigger] states@[m]).body),
        decreases n - i,
    {
        let s = states.at(i);
        if !is_valid_body(&s.body) {
            assert(states@[i as int].id == s.id);
            return Some(s.id);
        }
        i += 1;
    }
    None
}

/// True iff every state keeps to both rules.
pub fn assert_runtime_invariants(table: &StateTable) -> (r: bool)
    ensures
        r == all_valid(table.states@),
{
    find_invalid(&table.states).is_none()
}

} // verus!
