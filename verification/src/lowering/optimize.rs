//! Passes that make a laid-out table smaller and its paths shorter.
//!
//! * [`inline_jumps`]: a body that ends in a jump takes in the body it jumps
//!   to, as long as the result keeps to the rules of the runtime.
//! * [`inline_branch_bodies`]: a branch that only jumps takes in the body of
//!   the state, under the same condition.
//! * [`fold_trampolines`]: a return address that only returns is dropped.
//! * [`eliminate_dead`]: states that no entry point reaches are dropped.
//!
//! They run in rounds until nothing changes, as they feed one another; then
//! the states are renumbered without gaps.
use vstd::prelude::*;

use crate::lowering::layout;
use crate::lowering::reach;
use crate::lowering::recovery;
use crate::lowering::table::{
    self, Body, BodyView, DispatchLeaf, DispatchTree, Instr, InstrView, LeafView, State, StateId,
    StateMap, StateTable, StateView, Tail, TailView, TreeView,
};
use crate::lowering::validate;

verus! {

/// Which passes run.
#[derive(Clone, Copy, Debug, PartialEq, Eq, Structural)]
pub struct LoweringOpts {
    /// Take in the bodies that jumps lead to.
    pub inline_jumps: bool,
    /// Drop return addresses that only return.
    pub fold_trampolines: bool,
    /// Take in the bodies that branches jump to.
    pub inline_branch_bodies: bool,
    /// Drop states that are not reached.
    pub eliminate_dead: bool,
}

impl Default for LoweringOpts {
    fn default() -> (r: Self)
        ensures
            r == (LoweringOpts {
                inline_jumps: true,
                fold_trampolines: true,
                inline_branch_bodies: true,
                eliminate_dead: true,
            }),
    {
        LoweringOpts {
            inline_jumps: true,
            fold_trampolines: true,
            inline_branch_bodies: true,
            eliminate_dead: true,
        }
    }
}

/// The ids of the entry points.
pub open spec fn entry_set(entries: Seq<(String, StateId)>) -> Seq<u32> {
    Seq::new(entries.len(), |i: int| entries[i].1)
}

/// The state with another body.
pub open spec fn with_body(s: StateView, body: BodyView) -> StateView {
    StateView { body, ..s }
}

/// The first body, then the second.
pub open spec fn spliced(a: BodyView, b: BodyView) -> BodyView {
    BodyView { instrs: a.instrs + b.instrs, tail: b.tail }
}

/// The body with the bodies that its final jumps lead to taken in, as far as
/// that is legal and no state comes twice.
pub open spec fn absorbed(states: Seq<StateView>, body: BodyView, visited: Seq<u32>) -> BodyView
    decreases states.len() - visited.len(),
{
    match body.tail {
        TailView::Jump(t) => if visited.contains(t) || visited.len() >= states.len() {
            body
        } else {
            match table::body_of(states, t) {
                None => body,
                Some(next) => if validate::valid_body(spliced(body, next)) {
                    absorbed(states, spliced(body, next), visited.push(t))
                } else {
                    body
                },
            }
        },
        _ => body,
    }
}

/// Each state with its final jumps taken in.
pub open spec fn jumps_inlined(states: Seq<StateView>) -> Seq<StateView> {
    Seq::new(
        states.len(),
        |i: int| with_body(states[i], absorbed(states, states[i].body, seq![states[i].id])),
    )
}

/// The state only returns, and is no entry point.
pub open spec fn only_returns(states: Seq<StateView>, entries: Seq<u32>, s: u32) -> bool {
    !entries.contains(s) && table::body_of(states, s) == Some(layout::only(TailView::Ret))
}

/// The instructions without the return addresses that only return.
pub open spec fn instrs_folded(
    states: Seq<StateView>,
    entries: Seq<u32>,
    l: Seq<InstrView>,
) -> Seq<InstrView>
    decreases l.len(),
{
    if l.len() == 0 {
        l
    } else {
        let before = instrs_folded(states, entries, l.drop_last());
        match l.last() {
            InstrView::PushRet(s) => if only_returns(states, entries, s) {
                before
            } else {
                before.push(l.last())
            },
            _ => before.push(l.last()),
        }
    }
}

/// The continuation, unless it only returns.
pub open spec fn cont_folded(
    states: Seq<StateView>,
    entries: Seq<u32>,
    cont: Option<u32>,
) -> Option<u32> {
    match cont {
        Some(s) => if only_returns(states, entries, s) {
            None
        } else {
            cont
        },
        None => None,
    }
}

/// The body without return addresses that only return.
pub open spec fn body_folded(
    states: Seq<StateView>,
    entries: Seq<u32>,
    b: BodyView,
) -> BodyView {
    BodyView {
        instrs: instrs_folded(states, entries, b.instrs),
        tail: match b.tail {
            TailView::Star(f, x, c, h) => TailView::Star(f, x, cont_folded(states, entries, c), h),
            TailView::Opt(f, x, c) => TailView::Opt(f, x, cont_folded(states, entries, c)),
            TailView::Dispatch(t, s, c, i) => TailView::Dispatch(
                t,
                s,
                cont_folded(states, entries, c),
                i,
            ),
            _ => b.tail,
        },
    }
}

/// Each state without return addresses that only return.
pub open spec fn trampolines_folded(
    states: Seq<StateView>,
    entries: Seq<u32>,
) -> Seq<StateView> {
    Seq::new(
        states.len(),
        |i: int| with_body(states[i], body_folded(states, entries, states[i].body)),
    )
}

/// The body that takes the place of a branch, if the branch only jumps to a
/// state that is no entry point.
pub open spec fn branch_target(
    states: Seq<StateView>,
    entries: Seq<u32>,
    b: BodyView,
) -> Option<BodyView> {
    match b.tail {
        TailView::Jump(s) => if b.instrs.len() == 0 && !entries.contains(s) {
            table::body_of(states, s)
        } else {
            None
        },
        _ => None,
    }
}

/// The branch with the state it jumps to taken in, and likewise the branches
/// inside it; at most `depth` bodies are taken in one inside the other.
pub open spec fn branch_inlined(
    states: Seq<StateView>,
    entries: Seq<u32>,
    b: BodyView,
    depth: nat,
) -> BodyView
    decreases depth, b, 1nat,
{
    match branch_target(states, entries, b) {
        Some(next) => if depth == 0 {
            b
        } else {
            BodyView {
                instrs: next.instrs,
                tail: tail_inlined(states, entries, next.tail, (depth - 1) as nat),
            }
        },
        None => BodyView { instrs: b.instrs, tail: tail_inlined(states, entries, b.tail, depth) },
    }
}

/// The end of a body with its branches inlined.
pub open spec fn tail_inlined(
    states: Seq<StateView>,
    entries: Seq<u32>,
    t: TailView,
    depth: nat,
) -> TailView
    decreases depth, t, 0nat,
{
    match t {
        TailView::Jump(_) => t,
        TailView::Ret => t,
        TailView::Star(f, b, c, h) => TailView::Star(
            f,
            Box::new(branch_inlined(states, entries, *b, depth)),
            c,
            h,
        ),
        TailView::Opt(f, b, c) => TailView::Opt(
            f,
            Box::new(branch_inlined(states, entries, *b, depth)),
            c,
        ),
        TailView::Dispatch(tree, s, c, i) => TailView::Dispatch(
            tree_inlined(states, entries, tree, depth),
            s,
            c,
            i,
        ),
    }
}

/// The leaf with its branch inlined.
pub open spec fn leaf_inlined(
    states: Seq<StateView>,
    entries: Seq<u32>,
    l: LeafView,
    depth: nat,
) -> LeafView
    decreases depth, l, 0nat,
{
    match l {
        LeafView::Arm(b) => LeafView::Arm(Box::new(branch_inlined(states, entries, *b, depth))),
        _ => l,
    }
}

/// The tree with its branches inlined.
pub open spec fn tree_inlined(
    states: Seq<StateView>,
    entries: Seq<u32>,
    t: TreeView,
    depth: nat,
) -> TreeView
    decreases depth, t, 0nat,
{
    match t {
        TreeView::Leaf(l) => TreeView::Leaf(leaf_inlined(states, entries, l, depth)),
        TreeView::Switch(d, kinds, subs, default) => TreeView::Switch(
            d,
            kinds,
            trees_inlined(states, entries, subs, depth),
            leaf_inlined(states, entries, default, depth),
        ),
    }
}

/// The trees with their branches inlined.
pub open spec fn trees_inlined(
    states: Seq<StateView>,
    entries: Seq<u32>,
    subs: Seq<TreeView>,
    depth: nat,
) -> Seq<TreeView>
    decreases depth, subs, 0nat,
{
    Seq::new(
        subs.len(),
        |i: int|
            if 0 <= i < subs.len() {
                tree_inlined(states, entries, subs[i], depth)
            } else {
                TreeView::Leaf(LeafView::Error)
            },
    )
}

/// The body with its branches inlined where that is legal, else the body.
pub open spec fn body_inlined(
    states: Seq<StateView>,
    entries: Seq<u32>,
    b: BodyView,
) -> BodyView {
    let next = BodyView {
        instrs: b.instrs,
        tail: tail_inlined(states, entries, b.tail, usize::MAX as nat),
    };
    if validate::valid_body(next) {
        next
    } else {
        b
    }
}

/// Each state with its branches inlined where that is legal.
pub open spec fn branches_inlined(
    states: Seq<StateView>,
    entries: Seq<u32>,
) -> Seq<StateView> {
    Seq::new(
        states.len(),
        |i: int| with_body(states[i], body_inlined(states, entries, states[i].body)),
    )
}

/// The states that the instructions refer to.
pub open spec fn instr_targets(l: Seq<InstrView>) -> Seq<u32>
    decreases l.len(),
{
    if l.len() == 0 {
        Seq::empty()
    } else {
        match l.last() {
            InstrView::PushRet(s) => instr_targets(l.drop_last()).push(s),
            _ => instr_targets(l.drop_last()),
        }
    }
}

/// The continuation as a list.
pub open spec fn cont_targets(c: Option<u32>) -> Seq<u32> {
    match c {
        Some(s) => seq![s],
        None => Seq::empty(),
    }
}

/// The states that a body refers to.
pub open spec fn body_targets(b: BodyView) -> Seq<u32>
    decreases b, 1nat,
{
    instr_targets(b.instrs) + tail_targets(b.tail)
}

/// The states that the end of a body refers to.
pub open spec fn tail_targets(t: TailView) -> Seq<u32>
    decreases t, 0nat,
{
    match t {
        TailView::Jump(s) => seq![s],
        TailView::Ret => Seq::empty(),
        TailView::Star(_, b, c, h) => body_targets(*b) + cont_targets(c) + seq![h],
        TailView::Opt(_, b, c) => body_targets(*b) + cont_targets(c),
        TailView::Dispatch(tree, _, c, _) => cont_targets(c) + tree_targets(tree),
    }
}

/// The states that a leaf refers to.
pub open spec fn leaf_targets(l: LeafView) -> Seq<u32>
    decreases l, 0nat,
{
    match l {
        LeafView::Arm(b) => body_targets(*b),
        _ => Seq::empty(),
    }
}

/// The states that a tree refers to.
pub open spec fn tree_targets(t: TreeView) -> Seq<u32>
    decreases t, 0nat,
{
    match t {
        TreeView::Leaf(l) => leaf_targets(l),
        TreeView::Switch(_, _, subs, default) => leaf_targets(default) + trees_targets(
            subs,
            subs.len(),
        ),
    }
}

/// The states that the first `n` trees refer to.
pub open spec fn trees_targets(subs: Seq<TreeView>, n: nat) -> Seq<u32>
    decreases subs, n,
{
    if n == 0 || n > subs.len() {
        Seq::empty()
    } else {
        trees_targets(subs, (n - 1) as nat) + tree_targets(subs[n - 1])
    }
}

/// The states, each with those that its body refers to.
pub open spec fn edges_of(states: Seq<StateView>) -> reach::Edges {
    Seq::new(states.len(), |i: int| (states[i].id, body_targets(states[i].body)))
}

/// The state is reached from an entry point.
pub open spec fn reached(states: Seq<StateView>, entries: Seq<u32>, s: u32) -> bool {
    reach::reached(edges_of(states), entries, s)
}

/// The states that are reached, out of `l`.
pub open spec fn kept(
    states: Seq<StateView>,
    entries: Seq<u32>,
    l: Seq<StateView>,
) -> Seq<StateView>
    decreases l.len(),
{
    if l.len() == 0 {
        l
    } else if reached(states, entries, l.last().id) {
        kept(states, entries, l.drop_last()).push(l.last())
    } else {
        kept(states, entries, l.drop_last())
    }
}

/// The states that some entry point reaches.
pub open spec fn dead_eliminated(states: Seq<StateView>, entries: Seq<u32>) -> Seq<StateView> {
    kept(states, entries, states)
}

/// The number that a state gets: its place, counted from one. An id that no
/// state has stays as it is.
pub open spec fn new_id(states: Seq<StateView>, s: u32) -> u32
    decreases states.len(),
{
    if states.len() == 0 {
        s
    } else if states.last().id == s {
        states.len() as u32
    } else {
        new_id(states.drop_last(), s)
    }
}

/// The instructions with the new numbers.
pub open spec fn instrs_renumbered(states: Seq<StateView>, l: Seq<InstrView>) -> Seq<InstrView> {
    Seq::new(
        l.len(),
        |i: int|
            match l[i] {
                InstrView::PushRet(s) => InstrView::PushRet(new_id(states, s)),
                other => other,
            },
    )
}

/// The continuation with its new number.
pub open spec fn cont_renumbered(states: Seq<StateView>, c: Option<u32>) -> Option<u32> {
    match c {
        Some(s) => Some(new_id(states, s)),
        None => None,
    }
}

/// The body with the new numbers.
pub open spec fn body_renumbered(states: Seq<StateView>, b: BodyView) -> BodyView
    decreases b, 1nat,
{
    BodyView {
        instrs: instrs_renumbered(states, b.instrs),
        tail: tail_renumbered(states, b.tail),
    }
}

/// The end of a body with the new numbers.
pub open spec fn tail_renumbered(states: Seq<StateView>, t: TailView) -> TailView
    decreases t, 0nat,
{
    match t {
        TailView::Jump(s) => TailView::Jump(new_id(states, s)),
        TailView::Ret => t,
        TailView::Star(f, b, c, h) => TailView::Star(
            f,
            Box::new(body_renumbered(states, *b)),
            cont_renumbered(states, c),
            new_id(states, h),
        ),
        TailView::Opt(f, b, c) => TailView::Opt(
            f,
            Box::new(body_renumbered(states, *b)),
            cont_renumbered(states, c),
        ),
        TailView::Dispatch(tree, s, c, i) => TailView::Dispatch(
            tree_renumbered(states, tree),
            s,
            cont_renumbered(states, c),
            i,
        ),
    }
}

/// The leaf with the new numbers.
pub open spec fn leaf_renumbered(states: Seq<StateView>, l: LeafView) -> LeafView
    decreases l, 0nat,
{
    match l {
        LeafView::Arm(b) => LeafView::Arm(Box::new(body_renumbered(states, *b))),
        _ => l,
    }
}

/// The tree with the new numbers.
pub open spec fn tree_renumbered(states: Seq<StateView>, t: TreeView) -> TreeView
    decreases t, 0nat,
{
    match t {
        TreeView::Leaf(l) => TreeView::Leaf(leaf_renumbered(states, l)),
        TreeView::Switch(d, kinds, subs, default) => TreeView::Switch(
            d,
            kinds,
            trees_renumbered(states, subs),
            leaf_renumbered(states, default),
        ),
    }
}

/// The trees with the new numbers.
pub open spec fn trees_renumbered(states: Seq<StateView>, subs: Seq<TreeView>) -> Seq<TreeView>
    decreases subs, 0nat,
{
    Seq::new(
        subs.len(),
        |i: int|
            if 0 <= i < subs.len() {
                tree_renumbered(states, subs[i])
            } else {
                TreeView::Leaf(LeafView::Error)
            },
    )
}

/// The states numbered from one without gaps.
pub open spec fn compacted(states: Seq<StateView>) -> Seq<StateView> {
    Seq::new(
        states.len(),
        |i: int|
            StateView {
                id: (i + 1) as u32,
                label: states[i].label,
                rule: states[i].rule,
                body: body_renumbered(states, states[i].body),
            },
    )
}

/// One round of the passes that are turned on.
pub open spec fn one_round(
    states: Seq<StateView>,
    entries: Seq<u32>,
    opts: LoweringOpts,
) -> Seq<StateView> {
    let a = if opts.inline_jumps {
        jumps_inlined(states)
    } else {
        states
    };
    let b = if opts.fold_trampolines {
        trampolines_folded(a, entries)
    } else {
        a
    };
    let c = if opts.inline_branch_bodies {
        branches_inlined(b, entries)
    } else {
        b
    };
    if opts.eliminate_dead {
        dead_eliminated(c, entries)
    } else {
        c
    }
}

/// Rounds until nothing changes, at most `n`.
pub open spec fn rounds(
    states: Seq<StateView>,
    entries: Seq<u32>,
    opts: LoweringOpts,
    n: nat,
) -> Seq<StateView>
    decreases n,
{
    let next = one_round(states, entries, opts);
    if n == 0 || next == states {
        next
    } else {
        rounds(next, entries, opts, (n - 1) as nat)
    }
}

/// The views of the bodies.
spec fn bodies_view(v: Seq<Body>) -> Seq<BodyView> {
    Seq::new(v.len(), |i: int| v[i]@)
}

/// The states with other bodies.
spec fn with_bodies(states: Seq<StateView>, bodies: Seq<BodyView>) -> Seq<StateView> {
    Seq::new(states.len(), |i: int| with_body(states[i], bodies[i]))
}

/// The states with other bodies.
fn rebuild(states: &StateMap, bodies: &Vec<Body>) -> (r: StateMap)
    requires
        states.wf(),
        bodies@.len() == states@.len(),
    ensures
        r.wf(),
        r@ == with_bodies(states@, bodies_view(bodies@)),
{
    let ghost sv = states@;
    let ghost want = with_bodies(sv, bodies_view(bodies@));
    let n = states.len();
    let mut out: Vec<State> = Vec::new();
    let mut i: usize = 0;
    while i < n
        invariant
            i <= n,
            n == states@.len(),
            sv == states@,
            bodies@.len() == n,
            want == with_bodies(sv, bodies_view(bodies@)),
            out@.len() == i,
            forall|m: int| 0 <= m < i ==> (#[trigger] out@[m])@ == want[m],
        decreases n - i,
    {
        let s = states.at(i);
        out.push(
            State {
                id: s.id,
                label: s.label.clone(),
                rule: s.rule.clone(),
                body: bodies[i].clone(),
            },
        );
        i += 1;
    }
    let r = StateMap::from_states(out);
    proof {
        assert(r@ =~= want);
        assert forall|a: int, b: int| 0 <= a < b < r@.len() implies (#[trigger] r@[a]).id < (
        #[trigger] r@[b]).id by {
            assert(sv[a].id < sv[b].id);
        }
    }
    r
}

/// The ids of the entry points.
fn entry_ids(entries: &Vec<(String, StateId)>) -> (r: Vec<u32>)
    ensures
        r@ == entry_set(entries@),
{
    let mut r: Vec<u32> = Vec::new();
    let mut i: usize = 0;
    while i < entries.len()
        invariant
            i <= entries@.len(),
            r@ == entry_set(entries@).take(i as int),
        decreases entries@.len() - i,
    {
        r.push(entries[i].1);
        assert(entry_set(entries@).take(i + 1) =~= entry_set(entries@).take(i as int).push(
            entries@[i as int].1,
        ));
        i += 1;
    }
    assert(r@ =~= entry_set(entries@));
    r
}

/// Appends copies of the instructions.
fn extend_instrs(to: &mut Vec<Instr>, from: &Vec<Instr>)
    ensures
        table::instrs_view(final(to)@) == table::instrs_view(old(to)@) + table::instrs_view(
            from@,
        ),
{
    let ghost a = table::instrs_view(to@);
    let ghost b = table::instrs_view(from@);
    let mut i: usize = 0;
    assert(table::instrs_view(to@) =~= a + b.take(0));
    while i < from.len()
        invariant
            i <= from@.len(),
            b == table::instrs_view(from@),
            table::instrs_view(to@) == a + b.take(i as int),
        decreases from@.len() - i,
    {
        let ghost before = to@;
        to.push(from[i].clone());
        proof {
            assert(b[i as int] == from@[i as int]@);
            assert(table::instrs_view(to@) =~= table::instrs_view(before).push(b[i as int]));
            assert(table::instrs_view(to@) =~= a + b.take(i + 1));
        }
        i += 1;
    }
    assert(b.take(i as int) =~= b);
}

/// The body with its final jumps taken in.
fn absorb_tail_jumps(snapshot: &StateMap, start: &State) -> (r: Body)
    requires
        snapshot.wf(),
    ensures
        r@ == absorbed(snapshot@, start@.body, seq![start.id]),
{
    let ghost sv = snapshot@;
    let ghost want = absorbed(sv, start@.body, seq![start.id]);
    let mut body = start.body.clone();
    let mut visited: Vec<u32> = Vec::new();
    visited.push(start.id);
    assert(visited@ =~= seq![start.id]);
    let mut go = true;
    while go
        invariant
            snapshot.wf(),
            sv == snapshot@,
            go ==> absorbed(sv, body@, visited@) == want,
            !go ==> body@ == want,
        decreases
                sv.len() - visited@.len() + 1,
                (if go {
                    1int
                } else {
                    0int
                }),
    {
        go = false;
        if let Tail::Jump(t) = body.tail {
            if !reach::has_id(&visited, t) && visited.len() < snapshot.len() {
                if let Some(next) = snapshot.get(&t) {
                    let mut instrs = table::clone_instrs(&body.instrs);
                    extend_instrs(&mut instrs, &next.body.instrs);
                    let candidate = Body { instrs, tail: next.body.tail.clone() };
                    assert(candidate@ == spliced(body@, next@.body));
                    if validate::is_valid_body(&candidate) {
                        body = candidate;
                        visited.push(t);
                        go = true;
                    }
                }
            }
        }
    }
    body
}

/// Take in the bodies that the final jumps of each state lead to.
pub fn inline_jumps(table: &mut StateTable)
    requires
        old(table).states.wf(),
    ensures
        *final(table) == (StateTable { states: final(table).states, ..*old(table) }),
        final(table).states.wf(),
        final(table).states@ == jumps_inlined(old(table).states@),
{
    let ghost sv = table.states@;
    let n = table.states.len();
    let mut bodies: Vec<Body> = Vec::new();
    let mut i: usize = 0;
    while i < n
        invariant
            i <= n,
            table.states.wf(),
            sv == table.states@,
            n == sv.len(),
            bodies@.len() == i,
            forall|m: int|
                0 <= m < i ==> (#[trigger] bodies@[m])@ == absorbed(sv, sv[m].body, seq![sv[m].id]),
        decreases n - i,
    {
        bodies.push(absorb_tail_jumps(&table.states, table.states.at(i)));
        i += 1;
    }
    table.states = rebuild(&table.states, &bodies);
    assert(table.states@ =~= jumps_inlined(sv));
}

/// The states that only return and are no entry points.
fn trampolines(states: &StateMap, entries: &Vec<u32>) -> (r: Vec<u32>)
    requires
        states.wf(),
    ensures
        forall|s: u32| #[trigger] r@.contains(s) <==> only_returns(states@, entries@, s),
{
    let ghost sv = states@;
    let n = states.len();
    let mut r: Vec<u32> = Vec::new();
    let mut i: usize = 0;
    while i < n
        invariant
            i <= n,
            states.wf(),
            sv == states@,
            n == sv.len(),
            forall|s: u32| #[trigger]
                r@.contains(s) <==> exists|m: int|
                    0 <= m < i && (#[trigger] sv[m]).id == s && only_returns(sv, entries@, s),
        decreases n - i,
    {
        let s = states.at(i);
        let plain = s.body.instrs.len() == 0 && matches!(s.body.tail, Tail::Ret);
        let ghost before = r@;
        let id = s.id;
        proof {
            table::lemma_body_at(sv, i as int);
            assert(plain == (sv[i as int].body == layout::only(TailView::Ret))) by {
                assert(sv[i as int].body == s.body@);
                assert(s.body@.instrs.len() == s.body.instrs@.len());
                assert(layout::only(TailView::Ret).instrs.len() == 0);
                if plain {
                    assert(sv[i as int].body.instrs =~= Seq::<InstrView>::empty());
                }
            }
        }
        let add = plain && !reach::has_id(entries, id);
        assert(add == only_returns(sv, entries@, id));
        if add {
            r.push(id);
        }
        proof {
            assert forall|t: u32| #[trigger] r@.contains(t) <==> exists|m: int|
                0 <= m < i + 1 && (#[trigger] sv[m]).id == t && only_returns(sv, entries@, t) by {
                if r@.contains(t) {
                    if before.contains(t) {
                        let m = choose|m: int|
                            0 <= m < i && (#[trigger] sv[m]).id == t && only_returns(
                                sv,
                                entries@,
                                t,
                            );
                        assert(sv[m].id == t);
                    } else {
                        let j = choose|j: int| 0 <= j < r@.len() && r@[j] == t;
                        if j < before.len() {
                            assert(before[j] == t);
                        }
                        assert(sv[i as int].id == t);
                    }
                }
                if exists|m: int|
                    0 <= m < i + 1 && (#[trigger] sv[m]).id == t && only_returns(sv, entries@, t) {
                    let m = choose|m: int|
                        0 <= m < i + 1 && (#[trigger] sv[m]).id == t && only_returns(
                            sv,
                            entries@,
                            t,
                        );
                    if m < i {
                        assert(before.contains(t));
                        let j = choose|j: int| 0 <= j < before.len() && before[j] == t;
                        assert(r@[j] == t);
                    } else {
                        assert(r@[before.len() as int] == t);
                    }
                }
            }
        }
        i += 1;
    }
    proof {
        assert forall|s: u32| #[trigger] r@.contains(s) <==> only_returns(sv, entries@, s) by {
            if only_returns(sv, entries@, s) {
                if forall|m: int| 0 <= m < sv.len() ==> (#[trigger] sv[m]).id != s {
                    table::lemma_no_body(sv, s);
                }
                let m = choose|m: int| 0 <= m < sv.len() && (#[trigger] sv[m]).id == s;
                assert(sv[m].id == s);
            }
        }
    }
    r
}

fn fold_cont(cont: Option<StateId>, gone: &Vec<u32>) -> (r: Option<StateId>)
    ensures
        r == match cont {
            Some(s) => if gone@.contains(s) {
                None
            } else {
                cont
            },
            None => None,
        },
{
    match cont {
        Some(s) => if reach::has_id(gone, s) {
            None
        } else {
            cont
        },
        None => None,
    }
}

fn fold_body(b: &Body, gone: &Vec<u32>, Ghost(sv): Ghost<Seq<StateView>>, Ghost(ev): Ghost<Seq<u32>>) -> (r:
    Body)
    requires
        forall|s: u32| #[trigger] gone@.contains(s) <==> only_returns(sv, ev, s),
    ensures
        r@ == body_folded(sv, ev, b@),
{
    let ghost all = table::instrs_view(b.instrs@);
    let mut instrs: Vec<Instr> = Vec::new();
    let mut i: usize = 0;
    assert(all.take(0) =~= Seq::<InstrView>::empty());
    assert(table::instrs_view(instrs@) =~= instrs_folded(sv, ev, all.take(0)));
    while i < b.instrs.len()
        invariant
            i <= b.instrs@.len(),
            all == table::instrs_view(b.instrs@),
            forall|s: u32| #[trigger] gone@.contains(s) <==> only_returns(sv, ev, s),
            table::instrs_view(instrs@) == instrs_folded(sv, ev, all.take(i as int)),
        decreases b.instrs@.len() - i,
    {
        proof {
            assert(all.take(i + 1).drop_last() =~= all.take(i as int));
            assert(all.take(i + 1).last() == b.instrs@[i as int]@);
        }
        let drop = match &b.instrs[i] {
            Instr::PushRet(s) => reach::has_id(gone, *s),
            _ => false,
        };
        if !drop {
            let ghost before = instrs@;
            instrs.push(b.instrs[i].clone());
            assert(table::instrs_view(instrs@) =~= table::instrs_view(before).push(
                all[i as int],
            ));
        }
        i += 1;
    }
    assert(all.take(i as int) =~= all);
    let tail = match &b.tail {
        Tail::Star { first, body, cont, head } => Tail::Star {
            first: *first,
            body: body.clone(),
            cont: fold_cont(*cont, gone),
            head: *head,
        },
        Tail::Opt { first, body, cont } => Tail::Opt {
            first: *first,
            body: body.clone(),
            cont: fold_cont(*cont, gone),
        },
        Tail::Dispatch { tree, sync, cont, insertions } => Tail::Dispatch {
            tree: tree.clone(),
            sync: *sync,
            cont: fold_cont(*cont, gone),
            insertions: recovery::clone_insertions(insertions),
        },
        Tail::Jump(s) => Tail::Jump(*s),
        Tail::Ret => Tail::Ret,
    };
    Body { instrs, tail }
}

/// Drop return addresses and continuations that only return. Entry points
/// stay.
pub fn fold_trampolines(table: &mut StateTable)
    requires
        old(table).states.wf(),
    ensures
        *final(table) == (StateTable { states: final(table).states, ..*old(table) }),
        final(table).states.wf(),
        final(table).states@ == trampolines_folded(
            old(table).states@,
            entry_set(old(table).entry_states@),
        ),
{
    let ghost sv = table.states@;
    let entries = entry_ids(&table.entry_states);
    let gone = trampolines(&table.states, &entries);
    let n = table.states.len();
    let mut bodies: Vec<Body> = Vec::new();
    let mut i: usize = 0;
    while i < n
        invariant
            i <= n,
            table.states.wf(),
            sv == table.states@,
            n == sv.len(),
            forall|s: u32| #[trigger] gone@.contains(s) <==> only_returns(sv, entries@, s),
            bodies@.len() == i,
            forall|m: int|
                0 <= m < i ==> (#[trigger] bodies@[m])@ == body_folded(sv, entries@, sv[m].body),
        decreases n - i,
    {
        let s = table.states.at(i);
        bodies.push(fold_body(&s.body, &gone, Ghost(sv), Ghost(entries@)));
        i += 1;
    }
    table.states = rebuild(&table.states, &bodies);
    assert(table.states@ =~= trampolines_folded(sv, entries@));
}

/// The branch with the state it jumps to taken in.
fn inline_jump_body(b: &Body, snapshot: &StateMap, entries: &Vec<u32>, depth: usize) -> (r: Body)
    requires
        snapshot.wf(),
    ensures
        r@ == branch_inlined(snapshot@, entries@, b@, depth as nat),
    decreases depth, b, 1nat,
{
    if b.instrs.len() == 0 {
        if let Tail::Jump(s) = b.tail {
            if !reach::has_id(entries, s) {
                if let Some(next) = snapshot.get(&s) {
                    assert(branch_target(snapshot@, entries@, b@) == Some(next@.body));
                    if depth == 0 {
                        return b.clone();
                    }
                    return Body {
                        instrs: table::clone_instrs(&next.body.instrs),
                        tail: inline_in_tail(&next.body.tail, snapshot, entries, depth - 1),
                    };
                }
            }
        }
    }
    assert(branch_target(snapshot@, entries@, b@) is None);
    Body {
        instrs: table::clone_instrs(&b.instrs),
        tail: inline_in_tail(&b.tail, snapshot, entries, depth),
    }
}

fn inline_in_tail(t: &Tail, snapshot: &StateMap, entries: &Vec<u32>, depth: usize) -> (r: Tail)
    requires
        snapshot.wf(),
    ensures
        r@ == tail_inlined(snapshot@, entries@, t@, depth as nat),
    decreases depth, t, 0nat,
{
    match t {
        Tail::Jump(s) => Tail::Jump(*s),
        Tail::Ret => Tail::Ret,
        Tail::Star { first, body, cont, head } => Tail::Star {
            first: *first,
            body: Box::new(inline_jump_body(body, snapshot, entries, depth)),
            cont: *cont,
            head: *head,
        },
        Tail::Opt { first, body, cont } => Tail::Opt {
            first: *first,
            body: Box::new(inline_jump_body(body, snapshot, entries, depth)),
            cont: *cont,
        },
        Tail::Dispatch { tree, sync, cont, insertions } => Tail::Dispatch {
            tree: inline_in_tree(tree, snapshot, entries, depth),
            sync: *sync,
            cont: *cont,
            insertions: recovery::clone_insertions(insertions),
        },
    }
}

fn inline_in_leaf(l: &DispatchLeaf, snapshot: &StateMap, entries: &Vec<u32>, depth: usize) -> (r:
    DispatchLeaf)
    requires
        snapshot.wf(),
    ensures
        r@ == leaf_inlined(snapshot@, entries@, l@, depth as nat),
    decreases depth, l, 0nat,
{
    match l {
        DispatchLeaf::Arm(b) => DispatchLeaf::Arm(
            Box::new(inline_jump_body(b, snapshot, entries, depth)),
        ),
        DispatchLeaf::Fallthrough => DispatchLeaf::Fallthrough,
        DispatchLeaf::Error => DispatchLeaf::Error,
    }
}

fn inline_in_tree(t: &DispatchTree, snapshot: &StateMap, entries: &Vec<u32>, depth: usize) -> (r:
    DispatchTree)
    requires
        snapshot.wf(),
    ensures
        r@ == tree_inlined(snapshot@, entries@, t@, depth as nat),
    decreases depth, t, 0nat,
{
    match t {
        DispatchTree::Leaf(l) => DispatchTree::Leaf(inline_in_leaf(l, snapshot, entries, depth)),
        DispatchTree::Switch { depth: d, arms, default } => {
            assert(t@->Switch_2 == table::arm_trees(arms@));
            DispatchTree::Switch {
                depth: *d,
                arms: inline_in_arms(arms, snapshot, entries, depth),
                default: inline_in_leaf(default, snapshot, entries, depth),
            }
        },
    }
}

fn inline_in_arms(
    arms: &Vec<(u16, DispatchTree)>,
    snapshot: &StateMap,
    entries: &Vec<u32>,
    depth: usize,
) -> (r: Vec<(u16, DispatchTree)>)
    requires
        snapshot.wf(),
    ensures
        table::arm_kinds(r@) == table::arm_kinds(arms@),
        table::arm_trees(r@) == trees_inlined(
            snapshot@,
            entries@,
            table::arm_trees(arms@),
            depth as nat,
        ),
    decreases depth, arms, 0nat,
{
    let ghost subs = table::arm_trees(arms@);
    let ghost want = trees_inlined(snapshot@, entries@, subs, depth as nat);
    let mut r: Vec<(u16, DispatchTree)> = Vec::new();
    let mut i: usize = 0;
    while i < arms.len()
        invariant
            i <= arms@.len(),
            snapshot.wf(),
            subs == table::arm_trees(arms@),
            want == trees_inlined(snapshot@, entries@, subs, depth as nat),
            r@.len() == i,
            forall|m: int|
                0 <= m < i ==> (#[trigger] r@[m]).0 == arms@[m].0 && r@[m].1@ == want[m],
        decreases arms@.len() - i,
    {
        assert(subs[i as int] == arms@[i as int].1@);
        r.push((arms[i].0, inline_in_tree(&arms[i].1, snapshot, entries, depth)));
        i += 1;
    }
    assert(table::arm_kinds(r@) =~= table::arm_kinds(arms@));
    assert(table::arm_trees(r@) =~= want);
    r
}

/// Take in the bodies that branches jump to, where the state stays legal.
pub fn inline_branch_bodies(table: &mut StateTable)
    requires
        old(table).states.wf(),
    ensures
        *final(table) == (StateTable { states: final(table).states, ..*old(table) }),
        final(table).states.wf(),
        final(table).states@ == branches_inlined(
            old(table).states@,
            entry_set(old(table).entry_states@),
        ),
{
    let ghost sv = table.states@;
    let entries = entry_ids(&table.entry_states);
    let n = table.states.len();
    let mut bodies: Vec<Body> = Vec::new();
    let mut i: usize = 0;
    while i < n
        invariant
            i <= n,
            table.states.wf(),
            sv == table.states@,
            n == sv.len(),
            bodies@.len() == i,
            forall|m: int|
                0 <= m < i ==> (#[trigger] bodies@[m])@ == body_inlined(sv, entries@, sv[m].body),
        decreases n - i,
    {
        let s = table.states.at(i);
        let next = Body {
            instrs: table::clone_instrs(&s.body.instrs),
            tail: inline_in_tail(&s.body.tail, &table.states, &entries, usize::MAX),
        };
        if validate::is_valid_body(&next) {
            bodies.push(next);
        } else {
            bodies.push(s.body.clone());
        }
        i += 1;
    }
    table.states = rebuild(&table.states, &bodies);
    assert(table.states@ =~= branches_inlined(sv, entries@));
}

/// Adds the states that a body refers to.
fn collect_body_targets(b: &Body, out: &mut Vec<StateId>)
    ensures
        final(out)@ == old(out)@ + body_targets(b@),
    decreases b, 1nat,
{
    let ghost before = out@;
    let ghost all = table::instrs_view(b.instrs@);
    let mut i: usize = 0;
    assert(all.take(0) =~= Seq::<InstrView>::empty());
    assert(out@ =~= before + instr_targets(all.take(0)));
    while i < b.instrs.len()
        invariant
            i <= b.instrs@.len(),
            all == table::instrs_view(b.instrs@),
            out@ == before + instr_targets(all.take(i as int)),
        decreases b.instrs@.len() - i,
    {
        proof {
            assert(all.take(i + 1).drop_last() =~= all.take(i as int));
            assert(all.take(i + 1).last() == b.instrs@[i as int]@);
        }
        if let Instr::PushRet(n) = &b.instrs[i] {
            out.push(*n);
        }
        assert(out@ =~= before + instr_targets(all.take(i + 1)));
        i += 1;
    }
    assert(all.take(i as int) =~= all);
    collect_tail_targets(&b.tail, out);
    assert(out@ =~= before + body_targets(b@));
}

fn push_cont(cont: &Option<StateId>, out: &mut Vec<StateId>)
    ensures
        final(out)@ == old(out)@ + cont_targets(*cont),
{
    if let Some(c) = cont {
        out.push(*c);
    }
    assert(out@ =~= old(out)@ + cont_targets(*cont));
}

fn collect_tail_targets(t: &Tail, out: &mut Vec<StateId>)
    ensures
        final(out)@ == old(out)@ + tail_targets(t@),
    decreases t, 0nat,
{
    let ghost before = out@;
    match t {
        Tail::Jump(n) => out.push(*n),
        Tail::Ret => {},
        Tail::Star { first: _, body, cont, head } => {
            collect_body_targets(body, out);
            push_cont(cont, out);
            out.push(*head);
        },
        Tail::Opt { first: _, body, cont } => {
            collect_body_targets(body, out);
            push_cont(cont, out);
        },
        Tail::Dispatch { tree, sync: _, cont, insertions: _ } => {
            push_cont(cont, out);
            collect_tree_targets(tree, out);
        },
    }
    assert(out@ =~= before + tail_targets(t@));
}

fn collect_leaf_targets(l: &DispatchLeaf, out: &mut Vec<StateId>)
    ensures
        final(out)@ == old(out)@ + leaf_targets(l@),
    decreases l, 0nat,
{
    let ghost before = out@;
    if let DispatchLeaf::Arm(b) = l {
        collect_body_targets(b, out);
    }
    assert(out@ =~= before + leaf_targets(l@));
}

fn collect_tree_targets(t: &DispatchTree, out: &mut Vec<StateId>)
    ensures
        final(out)@ == old(out)@ + tree_targets(t@),
    decreases t, 0nat,
{
    let ghost before = out@;
    match t {
        DispatchTree::Leaf(l) => collect_leaf_targets(l, out),
        DispatchTree::Switch { depth: _, arms, default } => {
            assert(t@->Switch_2 == table::arm_trees(arms@));
            collect_leaf_targets(default, out);
            collect_arm_targets(arms, out);
            assert(out@ =~= before + tree_targets(t@));
        },
    }
}

fn collect_arm_targets(arms: &Vec<(u16, DispatchTree)>, out: &mut Vec<StateId>)
    ensures
        final(out)@ == old(out)@ + trees_targets(table::arm_trees(arms@), arms@.len()),
    decreases arms, 0nat,
{
    let ghost before = out@;
    let ghost subs = table::arm_trees(arms@);
    let mut i: usize = 0;
    assert(out@ =~= before + trees_targets(subs, 0));
    while i < arms.len()
        invariant
            i <= arms@.len(),
            subs == table::arm_trees(arms@),
            out@ == before + trees_targets(subs, i as nat),
        decreases arms@.len() - i,
    {
        assert(subs[i as int] == arms@[i as int].1@);
        collect_tree_targets(&arms[i].1, out);
        assert(out@ =~= before + trees_targets(subs, (i + 1) as nat));
        i += 1;
    }
}

/// The states, each with those that its body refers to.
fn edge_list(states: &StateMap) -> (r: Vec<(u32, Vec<u32>)>)
    ensures
        reach::edges_view(r@) == edges_of(states@),
{
    let n = states.len();
    let mut r: Vec<(u32, Vec<u32>)> = Vec::new();
    let mut i: usize = 0;
    while i < n
        invariant
            i <= n,
            n == states@.len(),
            r@.len() == i,
            forall|m: int|
                0 <= m < i ==> (#[trigger] r@[m]).0 == states@[m].id && r@[m].1@ == body_targets(
                    states@[m].body,
                ),
        decreases n - i,
    {
        let s = states.at(i);
        let mut targets: Vec<StateId> = Vec::new();
        collect_body_targets(&s.body, &mut targets);
        assert(targets@ =~= body_targets(s@.body));
        r.push((s.id, targets));
        i += 1;
    }
    assert(reach::edges_view(r@) =~= edges_of(states@));
    r
}

/// Drop every state that no entry point reaches.
pub fn eliminate_dead(table: &mut StateTable)
    requires
        old(table).states.wf(),
    ensures
        *final(table) == (StateTable { states: final(table).states, ..*old(table) }),
        final(table).states.wf(),
        final(table).states@ == dead_eliminated(
            old(table).states@,
            entry_set(old(table).entry_states@),
        ),
{
    let ghost sv = table.states@;
    let entries = entry_ids(&table.entry_states);
    let ghost ev = entries@;
    let edges = edge_list(&table.states);
    let live = reach::reach_all(&edges, &entries);
    let n = table.states.len();
    let mut out: Vec<State> = Vec::new();
    let mut i: usize = 0;
    assert(sv.take(0) =~= Seq::<StateView>::empty());
    assert(table::states_view(out@) =~= kept(sv, ev, sv.take(0)));
    while i < n
        invariant
            i <= n,
            sv == table.states@,
            n == sv.len(),
            ev == entries@,
            forall|s: u32| #[trigger] live@.contains(s) <==> reached(sv, ev, s),
            table::states_view(out@) == kept(sv, ev, sv.take(i as int)),
        decreases n - i,
    {
        let s = table.states.at(i);
        proof {
            assert(sv.take(i + 1).drop_last() =~= sv.take(i as int));
            assert(sv.take(i + 1).last() == s@);
        }
        if reach::has_id(&live, s.id) {
            let ghost before = out@;
            out.push(s.clone());
            assert(table::states_view(out@) =~= table::states_view(before).push(s@));
        }
        i += 1;
    }
    assert(sv.take(i as int) =~= sv);
    table.states = StateMap::from_states(out);
    proof {
        lemma_kept_ascending(sv, ev, sv);
    }
}

/// What is kept is in order, and all of it was there.
pub proof fn lemma_kept_ascending(states: Seq<StateView>, entries: Seq<u32>, l: Seq<StateView>)
    requires
        table::ascending(l),
    ensures
        table::ascending(kept(states, entries, l)),
        forall|s: StateView| #[trigger]
            kept(states, entries, l).contains(s) <==> l.contains(s) && reached(
                states,
                entries,
                s.id,
            ),
        kept(states, entries, l).len() <= l.len(),
    decreases l.len(),
{
    if l.len() > 0 {
        let p = l.drop_last();
        assert forall|a: int, b: int| 0 <= a < b < p.len() implies (#[trigger] p[a]).id < (
        #[trigger] p[b]).id by {
            assert(l[a].id < l[b].id);
        }
        lemma_kept_ascending(states, entries, p);
        let k = kept(states, entries, p);
        let r = kept(states, entries, l);
        assert forall|s: StateView| #[trigger] r.contains(s) <==> l.contains(s) && reached(
            states,
            entries,
            s.id,
        ) by {
            assert(l[l.len() - 1] == l.last());
            if p.contains(s) {
                let j = choose|j: int| 0 <= j < p.len() && p[j] == s;
                assert(l[j] == s);
            }
            if l.contains(s) {
                let j = choose|j: int| 0 <= j < l.len() && l[j] == s;
                if j < p.len() {
                    assert(p[j] == s);
                }
            }
            if reached(states, entries, l.last().id) {
                assert(r[k.len() as int] == l.last());
                if k.contains(s) {
                    let j = choose|j: int| 0 <= j < k.len() && k[j] == s;
                    assert(r[j] == s);
                }
                if r.contains(s) {
                    let j = choose|j: int| 0 <= j < r.len() && r[j] == s;
                    if j < k.len() {
                        assert(k[j] == s);
                    }
                }
            }
        }
        assert forall|a: int, b: int| 0 <= a < b < r.len() implies (#[trigger] r[a]).id < (
        #[trigger] r[b]).id by {
            if b < k.len() {
                assert(k[a].id < k[b].id);
            } else {
                assert(k.contains(k[a]));
                let j = choose|j: int| 0 <= j < p.len() && p[j] == k[a];
                assert(l[j].id < l[l.len() - 1].id);
            }
        }
    }
}

/// The number that a state gets.
fn renumber(states: &StateMap, s: StateId) -> (r: StateId)
    requires
        states.wf(),
    ensures
        r == new_id(states@, s),
{
    let ghost sv = states@;
    let n = states.len();
    let mut i: usize = 0;
    while i < n
        invariant
            i <= n,
            sv == states@,
            table::ascending(sv),
            n == sv.len(),
            forall|m: int| 0 <= m < i ==> (#[trigger] sv[m]).id != s,
        decreases n - i,
    {
        if states.at(i).id == s {
            proof {
                lemma_new_id_at(sv, i as int);
            }
            assert(i < usize::MAX);
            return #[verifier::truncate] ((i + 1) as u32);
        }
        i += 1;
    }
    proof {
        lemma_new_id_none(sv, s);
    }
    s
}

/// A state gets its place as its number.
pub proof fn lemma_new_id_at(states: Seq<StateView>, i: int)
    requires
        table::ascending(states),
        0 <= i < states.len(),
    ensures
        new_id(states, states[i].id) == (i + 1) as u32,
    decreases states.len(),
{
    if i < states.len() - 1 {
        let p = states.drop_last();
        assert(states[i].id < states[states.len() - 1].id);
        assert forall|a: int, b: int| 0 <= a < b < p.len() implies (#[trigger] p[a]).id < (
        #[trigger] p[b]).id by {
            assert(states[a].id < states[b].id);
        }
        lemma_new_id_at(p, i);
        assert(p[i] == states[i]);
    }
}

proof fn lemma_new_id_none(states: Seq<StateView>, s: u32)
    requires
        forall|k: int| 0 <= k < states.len() ==> (#[trigger] states[k]).id != s,
    ensures
        new_id(states, s) == s,
    decreases states.len(),
{
    if states.len() > 0 {
        let p = states.drop_last();
        assert(states[states.len() - 1].id != s);
        assert forall|k: int| 0 <= k < p.len() implies (#[trigger] p[k]).id != s by {
            assert(states[k].id != s);
        }
        lemma_new_id_none(p, s);
    }
}

fn remap_cont(cont: &Option<StateId>, states: &StateMap) -> (r: Option<StateId>)
    requires
        states.wf(),
    ensures
        r == cont_renumbered(states@, *cont),
{
    match cont {
        Some(s) => Some(renumber(states, *s)),
        None => None,
    }
}

/// The body with the new numbers.
fn remap_body(b: &Body, states: &StateMap) -> (r: Body)
    requires
        states.wf(),
    ensures
        r@ == body_renumbered(states@, b@),
    decreases b, 1nat,
{
    let ghost all = table::instrs_view(b.instrs@);
    let ghost want = instrs_renumbered(states@, all);
    let mut instrs: Vec<Instr> = Vec::new();
    let mut i: usize = 0;
    while i < b.instrs.len()
        invariant
            i <= b.instrs@.len(),
            states.wf(),
            all == table::instrs_view(b.instrs@),
            want == instrs_renumbered(states@, all),
            instrs@.len() == i,
            forall|m: int| 0 <= m < i ==> (#[trigger] instrs@[m])@ == want[m],
        decreases b.instrs@.len() - i,
    {
        assert(all[i as int] == b.instrs@[i as int]@);
        let next = match &b.instrs[i] {
            Instr::PushRet(s) => Instr::PushRet(renumber(states, *s)),
            other => other.clone(),
        };
        instrs.push(next);
        i += 1;
    }
    assert(table::instrs_view(instrs@) =~= want);
    Body { instrs, tail: remap_tail(&b.tail, states) }
}

fn remap_tail(t: &Tail, states: &StateMap) -> (r: Tail)
    requires
        states.wf(),
    ensures
        r@ == tail_renumbered(states@, t@),
    decreases t, 0nat,
{
    match t {
        Tail::Jump(s) => Tail::Jump(renumber(states, *s)),
        Tail::Ret => Tail::Ret,
        Tail::Star { first, body, cont, head } => Tail::Star {
            first: *first,
            body: Box::new(remap_body(body, states)),
            cont: remap_cont(cont, states),
            head: renumber(states, *head),
        },
        Tail::Opt { first, body, cont } => Tail::Opt {
            first: *first,
            body: Box::new(remap_body(body, states)),
            cont: remap_cont(cont, states),
        },
        Tail::Dispatch { tree, sync, cont, insertions } => Tail::Dispatch {
            tree: remap_tree(tree, states),
            sync: *sync,
            cont: remap_cont(cont, states),
            insertions: recovery::clone_insertions(insertions),
        },
    }
}

fn remap_leaf(l: &DispatchLeaf, states: &StateMap) -> (r: DispatchLeaf)
    requires
        states.wf(),
    ensures
        r@ == leaf_renumbered(states@, l@),
    decreases l, 0nat,
{
    match l {
        DispatchLeaf::Arm(b) => DispatchLeaf::Arm(Box::new(remap_body(b, states))),
        DispatchLeaf::Fallthrough => DispatchLeaf::Fallthrough,
        DispatchLeaf::Error => DispatchLeaf::Error,
    }
}

fn remap_tree(t: &DispatchTree, states: &StateMap) -> (r: DispatchTree)
    requires
        states.wf(),
    ensures
        r@ == tree_renumbered(states@, t@),
    decreases t, 0nat,
{
    match t {
        DispatchTree::Leaf(l) => DispatchTree::Leaf(remap_leaf(l, states)),
        DispatchTree::Switch { depth, arms, default } => {
            assert(t@->Switch_2 == table::arm_trees(arms@));
            DispatchTree::Switch {
                depth: *depth,
                arms: remap_arms(arms, states),
                default: remap_leaf(default, states),
            }
        },
    }
}

fn remap_arms(arms: &Vec<(u16, DispatchTree)>, states: &StateMap) -> (r: Vec<(u16, DispatchTree)>)
    requires
        states.wf(),
    ensures
        table::arm_kinds(r@) == table::arm_kinds(arms@),
        table::arm_trees(r@) == trees_renumbered(states@, table::arm_trees(arms@)),
    decreases arms, 0nat,
{
    let ghost subs = table::arm_trees(arms@);
    let ghost want = trees_renumbered(states@, subs);
    let mut r: Vec<(u16, DispatchTree)> = Vec::new();
    let mut i: usize = 0;
    while i < arms.len()
        invariant
            i <= arms@.len(),
            states.wf(),
            subs == table::arm_trees(arms@),
            want == trees_renumbered(states@, subs),
            r@.len() == i,
            forall|m: int|
                0 <= m < i ==> (#[trigger] r@[m]).0 == arms@[m].0 && r@[m].1@ == want[m],
        decreases arms@.len() - i,
    {
        assert(subs[i as int] == arms@[i as int].1@);
        r.push((arms[i].0, remap_tree(&arms[i].1, states)));
        i += 1;
    }
    assert(table::arm_kinds(r@) =~= table::arm_kinds(arms@));
    assert(table::arm_trees(r@) =~= want);
    r
}

/// The entry points with the new numbers.
pub open spec fn entries_renumbered(
    states: Seq<StateView>,
    entries: Seq<(Seq<char>, u32)>,
) -> Seq<(Seq<char>, u32)> {
    Seq::new(entries.len(), |i: int| (entries[i].0, new_id(states, entries[i].1)))
}

/// Number the states from one without gaps.
pub fn compact_state_ids(table: &mut StateTable)
    requires
        old(table).states.wf(),
        old(table).states@.len() < u32::MAX,
    ensures
        *final(table) == (StateTable {
            states: final(table).states,
            entry_states: final(table).entry_states,
            ..*old(table)
        }),
        final(table).states.wf(),
        final(table).states@ == compacted(old(table).states@),
        layout::entries_view(final(table).entry_states@) == entries_renumbered(
            old(table).states@,
            layout::entries_view(old(table).entry_states@),
        ),
{
    let ghost sv = table.states@;
    let ghost ev = layout::entries_view(table.entry_states@);
    let n = table.states.len();
    let mut out: Vec<State> = Vec::new();
    let mut i: usize = 0;
    while i < n
        invariant
            i <= n,
            n < u32::MAX,
            table.states.wf(),
            sv == table.states@,
            n == sv.len(),
            out@.len() == i,
            forall|m: int| 0 <= m < i ==> (#[trigger] out@[m])@ == compacted(sv)[m],
        decreases n - i,
    {
        let s = table.states.at(i);
        let body = remap_body(&s.body, &table.states);
        out.push(
            State { id: (i + 1) as u32, label: s.label.clone(), rule: s.rule.clone(), body },
        );
        i += 1;
    }
    let mut entries: Vec<(String, StateId)> = Vec::new();
    let mut j: usize = 0;
    while j < table.entry_states.len()
        invariant
            j <= table.entry_states@.len(),
            table.states.wf(),
            sv == table.states@,
            ev == layout::entries_view(table.entry_states@),
            entries@.len() == j,
            forall|m: int|
                0 <= m < j ==> (#[trigger] entries@[m]).0@ == ev[m].0 && entries@[m].1 == new_id(
                    sv,
                    ev[m].1,
                ),
        decreases table.entry_states@.len() - j,
    {
        let e = &table.entry_states[j];
        entries.push((e.0.clone(), renumber(&table.states, e.1)));
        j += 1;
    }
    assert(layout::entries_view(entries@) =~= entries_renumbered(sv, ev));
    table.states = StateMap::from_states(out);
    table.entry_states = entries;
    assert(table.states@ =~= compacted(sv));
}

/// True iff the two hold the same ids with the same bodies.
fn same_states(a: &StateMap, b: &StateMap) -> (r: bool)
    requires
        forall|i: int, j: int|
            0 <= i < a@.len() && 0 <= j < b@.len() && (#[trigger] a@[i]).id == (
            #[trigger] b@[j]).id ==> a@[i].label == b@[j].label && a@[i].rule == b@[j].rule,
    ensures
        r == (a@ == b@),
{
    if a.len() != b.len() {
        return false;
    }
    let n = a.len();
    let mut i: usize = 0;
    while i < n
        invariant
            i <= n,
            n == a@.len(),
            n == b@.len(),
            forall|p: int, q: int|
                0 <= p < a@.len() && 0 <= q < b@.len() && (#[trigger] a@[p]).id == (
                #[trigger] b@[q]).id ==> a@[p].label == b@[q].label && a@[p].rule == b@[q].rule,
            forall|m: int| 0 <= m < i ==> #[trigger] a@[m] == b@[m],
        decreases n - i,
    {
        let x = a.at(i);
        let y = b.at(i);
        assert(a@[i as int] == x@ && b@[i as int] == y@);
        if x.id != y.id || !table::same_body(&x.body, &y.body) {
            return false;
        }
        i += 1;
    }
    assert(a@ =~= b@);
    true
}

/// Each state of `a` has the name and the rule that it has in `b`.
pub open spec fn names_kept(a: Seq<StateView>, b: Seq<StateView>) -> bool {
    forall|i: int|
        0 <= i < a.len() ==> exists|j: int|
            0 <= j < b.len() && (#[trigger] b[j]).id == a[i].id && b[j].label == (
            #[trigger] a[i]).label && b[j].rule == a[i].rule
}

pub proof fn lemma_round_names(states: Seq<StateView>, entries: Seq<u32>, opts: LoweringOpts)
    requires
        table::ascending(states),
    ensures
        table::ascending(one_round(states, entries, opts)),
        names_kept(one_round(states, entries, opts), states),
        one_round(states, entries, opts).len() <= states.len(),
{
    let a = if opts.inline_jumps {
        jumps_inlined(states)
    } else {
        states
    };
    let b = if opts.fold_trampolines {
        trampolines_folded(a, entries)
    } else {
        a
    };
    let c = if opts.inline_branch_bodies {
        branches_inlined(b, entries)
    } else {
        b
    };
    assert(c.len() == states.len());
    assert forall|i: int| 0 <= i < c.len() implies (#[trigger] c[i]).id == states[i].id
        && c[i].label == states[i].label && c[i].rule == states[i].rule by {
        assert(a[i].id == states[i].id && b[i].id == a[i].id);
    }
    assert forall|i: int, j: int| 0 <= i < j < c.len() implies (#[trigger] c[i]).id < (
    #[trigger] c[j]).id by {
        assert(states[i].id < states[j].id);
    }
    let d = one_round(states, entries, opts);
    if opts.eliminate_dead {
        lemma_kept_ascending(c, entries, c);
    }
    assert forall|i: int| 0 <= i < d.len() implies exists|j: int|
        0 <= j < states.len() && (#[trigger] states[j]).id == d[i].id && states[j].label == (
        #[trigger] d[i]).label && states[j].rule == d[i].rule by {
        if opts.eliminate_dead {
            assert(d.contains(d[i]));
            let j = choose|j: int| 0 <= j < c.len() && c[j] == d[i];
            assert(states[j].id == c[j].id);
        } else {
            assert(states[i].id == c[i].id);
        }
    }
}

/// Run the passes that are turned on until nothing changes, then number the
/// states without gaps.
pub fn optimize(table: &mut StateTable, opts: LoweringOpts)
    requires
        old(table).states.wf(),
        old(table).states@.len() < u32::MAX,
    ensures
        *final(table) == (StateTable {
            states: final(table).states,
            entry_states: final(table).entry_states,
            ..*old(table)
        }),
        final(table).states.wf(),
        ({
            let last = rounds(
                old(table).states@,
                entry_set(old(table).entry_states@),
                opts,
                usize::MAX as nat,
            );
            &&& final(table).states@ == compacted(last)
            &&& layout::entries_view(final(table).entry_states@) == entries_renumbered(
                last,
                layout::entries_view(old(table).entry_states@),
            )
        }),
{
    let ghost ev = entry_set(table.entry_states@);
    let ghost want = rounds(table.states@, ev, opts, usize::MAX as nat);
    let ghost before_all = *table;
    let mut left: usize = usize::MAX;
    let mut go = true;
    while go
        invariant
            table.states.wf(),
            table.states@.len() < u32::MAX,
            ev == entry_set(table.entry_states@),
            *table == (StateTable { states: table.states, ..before_all }),
            go ==> rounds(table.states@, ev, opts, left as nat) == want,
            !go ==> table.states@ == want,
        decreases
                left,
                (if go {
                    1int
                } else {
                    0int
                }),
    {
        let snapshot = snapshot_of(&table.states);
        let ghost sv = snapshot@;
        if opts.inline_jumps {
            inline_jumps(table);
        }
        if opts.fold_trampolines {
            fold_trampolines(table);
        }
        if opts.inline_branch_bodies {
            inline_branch_bodies(table);
        }
        if opts.eliminate_dead {
            eliminate_dead(table);
        }
        assert(table.states@ == one_round(sv, ev, opts));
        proof {
            lemma_round_names(sv, ev, opts);
            let d = table.states@;
            assert forall|i: int, j: int|
                0 <= i < d.len() && 0 <= j < sv.len() && (#[trigger] d[i]).id == (
                #[trigger] sv[j]).id implies d[i].label == sv[j].label && d[i].rule
                == sv[j].rule by {
                let k = choose|k: int|
                    0 <= k < sv.len() && (#[trigger] sv[k]).id == d[i].id && sv[k].label == (
                    #[trigger] d[i]).label && sv[k].rule == d[i].rule;
                if k < j {
                    assert(sv[k].id < sv[j].id);
                } else if j < k {
                    assert(sv[j].id < sv[k].id);
                }
            }
        }
        if left == 0 || same_states(&table.states, &snapshot) {
            go = false;
        } else {
            left = left - 1;
        }
    }
    compact_state_ids(table);
}

/// A copy of the states.
fn snapshot_of(states: &StateMap) -> (r: StateMap)
    requires
        states.wf(),
    ensures
        r.wf(),
        r@ == states@,
{
    let n = states.len();
    let mut out: Vec<State> = Vec::new();
    let mut i: usize = 0;
    while i < n
        invariant
            i <= n,
            n == states@.len(),
            out@.len() == i,
            forall|m: int| 0 <= m < i ==> (#[trigger] out@[m])@ == states@[m],
        decreases n - i,
    {
        out.push(states.at(i).clone());
        i += 1;
    }
    let r = StateMap::from_states(out);
    assert(r@ =~= states@);
    r
}

} // verus!
