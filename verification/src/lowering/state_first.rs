//! FIRST of each state.
//!
//! For every state, the kinds of the next token that the state takes without
//! an error: the least sets that hold what each body can begin with, where a
//! body that takes no token itself begins like what it hands control to.
use vstd::prelude::*;

use crate::lowering::table::{
    self, DispatchLeaf, DispatchTree, Instr, InstrView, State, StateId, StateTable, StateView, Tail,
    TailView, TreeView,
};
use crate::names::{self, Rank};
use crate::ordered;
use crate::sorting;

verus! {

/// The kinds that each state can begin with, by state.
#[derive(Debug)]
pub struct StateFirsts {
    ids: Vec<StateId>,
    rows: Vec<Vec<u16>>,
}

/// What a [`StateFirsts`] holds.
pub type Firsts = Map<u32, Set<u16>>;

/// The kinds of a state; none if it is not there.
pub open spec fn at(f: Firsts, id: u32) -> Set<u16> {
    if f.contains_key(id) {
        f[id]
    } else {
        Set::empty()
    }
}

/// The kinds that a rule can be followed by.
pub open spec fn rule_follow(st: StateTable, rule: Seq<char>) -> Set<u16> {
    if rule.len() > 0 && st.rule_sync@.contains_key(rule) && st.rule_sync@[rule]
        < st.sync_sets@.len() {
        st.sync_sets@[st.rule_sync@[rule] as int].kinds@.to_set()
    } else {
        Set::empty()
    }
}

/// The first kinds of the sequences of a FIRST set.
pub open spec fn heads(st: StateTable, first: u32) -> Set<u16> {
    Set::new(
        |k: u16|
            first < st.first_sets@.len() && exists|i: int|
                0 <= i < st.first_sets@[first as int].seqs@.len() && (
                #[trigger] st.first_sets@[first as int].seqs@[i])@.len() > 0
                    && st.first_sets@[first as int].seqs@[i]@[0] == k,
    )
}

/// What comes after: the continuation, or what follows the rule.
pub open spec fn after(st: StateTable, f: Firsts, cont: Option<u32>, rule: Seq<char>) -> Set<u16> {
    match cont {
        Some(c) => at(f, c),
        None => rule_follow(st, rule),
    }
}

/// The kinds that a tree asks for in the next token.
pub open spec fn tree_kinds(t: TreeView) -> Set<u16> {
    match t {
        TreeView::Switch(depth, kinds, _, _) => if depth == 0 {
            kinds.to_set()
        } else {
            Set::empty()
        },
        _ => Set::empty(),
    }
}

/// Some path through the tree falls through.
pub open spec fn falls(t: TreeView) -> bool
    decreases t,
{
    match t {
        TreeView::Leaf(l) => l is Fallthrough,
        TreeView::Switch(_, _, subs, default) => default is Fallthrough || exists|i: int|
            0 <= i < subs.len() && falls(#[trigger] subs[i]),
    }
}

/// The kinds that the end of a body can go on with.
pub open spec fn tail_first(st: StateTable, f: Firsts, t: TailView, rule: Seq<char>) -> Set<u16> {
    match t {
        TailView::Jump(n) => at(f, n),
        TailView::Ret => rule_follow(st, rule),
        TailView::Star(first, _, cont, _) => heads(st, first).union(after(st, f, cont, rule)),
        TailView::Opt(first, _, cont) => heads(st, first).union(after(st, f, cont, rule)),
        TailView::Dispatch(tree, _, cont, _) => if falls(tree) {
            tree_kinds(tree).union(after(st, f, cont, rule))
        } else {
            tree_kinds(tree)
        },
    }
}

/// The position of the first instruction that takes a token, or the number of
/// instructions.
pub open spec fn first_expect(l: Seq<InstrView>) -> int
    decreases l.len(),
{
    if l.len() == 0 {
        0
    } else {
        let before = first_expect(l.drop_last());
        if before < l.len() - 1 {
            before
        } else if l.last() is Expect {
            l.len() - 1
        } else {
            l.len() as int
        }
    }
}

/// The kinds that a state can begin with, given those of the others.
pub open spec fn state_first(st: StateTable, f: Firsts, s: StateView) -> Set<u16> {
    let i = first_expect(s.body.instrs);
    if i < s.body.instrs.len() {
        Set::empty().insert(s.body.instrs[i]->Expect_0)
    } else {
        tail_first(st, f, s.body.tail, s.rule)
    }
}

/// The sets hold what each state can begin with.
pub open spec fn closed(st: StateTable, f: Firsts) -> bool {
    forall|i: int|
        0 <= i < st.states@.len() ==> state_first(st, f, #[trigger] st.states@[i]).subset_of(
            at(f, st.states@[i].id),
        )
}

/// The sets are the least that hold what each state can begin with.
pub open spec fn is_first(st: StateTable, f: Firsts) -> bool {
    &&& closed(st, f)
    &&& forall|g: Firsts| #[trigger]
        closed(st, g) ==> forall|id: u32| (#[trigger] at(f, id)).subset_of(at(g, id))
}

impl StateFirsts {
    /// What the table holds.
    pub closed spec fn view(self) -> Firsts {
        Map::new(
            |id: u32| self.ids@.contains(id),
            |id: u32| self.rows@[self.ids@.index_of(id)]@.to_set(),
        )
    }

    /// One row for each state, in ascending order.
    pub closed spec fn wf(self) -> bool {
        &&& self.ids@.len() == self.rows@.len()
        &&& self.ids@.no_duplicates()
        &&& forall|i: int| 0 <= i < self.rows@.len() ==> ordered::strict16((#[trigger] self.rows@[i])@)
    }

    /// The kinds that the state can begin with, in ascending order.
    pub fn get(&self, id: &StateId) -> (r: Option<&Vec<u16>>)
        requires
            self.wf(),
        ensures
            r is Some <==> self@.contains_key(*id),
            r matches Some(l) ==> ordered::strict16(l@) && l@.to_set() == at(self@, *id),
            r is None ==> at(self@, *id) == Set::<u16>::empty(),
    {
        let mut i: usize = 0;
        while i < self.ids.len()
            invariant
                i <= self.ids@.len(),
                self.wf(),
                forall|m: int| 0 <= m < i ==> #[trigger] self.ids@[m] != *id,
            decreases self.ids@.len() - i,
        {
            if self.ids[i] == *id {
                proof {
                    assert(self.ids@.contains(*id));
                    let j = self.ids@.index_of(*id);
                    assert(j == i);
                }
                return Some(&self.rows[i]);
            }
            i += 1;
        }
        None
    }
}

/// The row of the state at position `i` is what the table holds for it.
proof fn lemma_row(t: StateFirsts, i: int)
    requires
        t.wf(),
        0 <= i < t.ids@.len(),
    ensures
        at(t@, t.ids@[i]) == t.rows@[i]@.to_set(),
        t.ids@.index_of(t.ids@[i]) == i,
{
    assert(t.ids@.contains(t.ids@[i]));
}

/// Adds the kinds to the set.
fn extend(out: &mut Vec<u16>, from: &Vec<u16>) -> (grew: bool)
    requires
        ordered::strict16(old(out)@),
    ensures
        ordered::strict16(final(out)@),
        final(out)@.to_set() == old(out)@.to_set().union(from@.to_set()),
        !grew ==> final(out)@ == old(out)@ && from@.to_set().subset_of(old(out)@.to_set()),
        grew ==> final(out)@.len() > old(out)@.len(),
        final(out)@.len() >= old(out)@.len(),
{
    let ghost before = out@;
    let mut grew = false;
    let mut i: usize = 0;
    while i < from.len()
        invariant
            i <= from@.len(),
            ordered::strict16(out@),
            forall|k: u16| #[trigger]
                out@.contains(k) <==> before.contains(k) || exists|m: int|
                    0 <= m < i && #[trigger] from@[m] == k,
            !grew ==> out@ == before,
            !grew ==> forall|m: int| 0 <= m < i ==> before.contains(#[trigger] from@[m]),
            grew ==> out@.len() > before.len(),
            out@.len() >= before.len(),
        decreases from@.len() - i,
    {
        let ghost mid = out@;
        let fresh = ordered::insert_u16(out, from[i]);
        proof {
            assert forall|k: u16| #[trigger] out@.contains(k) <==> before.contains(k) || exists|
                m: int,
            |
                0 <= m < i + 1 && #[trigger] from@[m] == k by {
                if mid.contains(k) && !before.contains(k) {
                    let m = choose|m: int| 0 <= m < i && #[trigger] from@[m] == k;
                    assert(from@[m] == k);
                }
                if k == from@[i as int] {
                    assert(from@[i as int] == k);
                }
                if exists|m: int| 0 <= m < i + 1 && #[trigger] from@[m] == k {
                    let m = choose|m: int| 0 <= m < i + 1 && #[trigger] from@[m] == k;
                    if m < i {
                        assert(mid.contains(k));
                    }
                }
            }
        }
        grew = grew || fresh;
        i += 1;
    }
    proof {
        assert forall|k: u16| out@.contains(k) <==> before.contains(k) || from@.contains(k) by {
            if from@.contains(k) {
                let m = choose|m: int| 0 <= m < from@.len() && from@[m] == k;
                assert(from@[m] == k);
            }
        }
        assert(out@.to_set() =~= before.to_set().union(from@.to_set()));
        if !grew {
            assert forall|k: u16| from@.to_set().contains(k) implies before.to_set().contains(
                k,
            ) by {
                let m = choose|m: int| 0 <= m < from@.len() && from@[m] == k;
                assert(before.contains(from@[m]));
            }
        }
    }
    grew
}

fn extend_with_state_first(out: &mut Vec<u16>, state: StateId, firsts: &StateFirsts)
    requires
        firsts.wf(),
        ordered::strict16(old(out)@),
    ensures
        ordered::strict16(final(out)@),
        final(out)@.to_set() == old(out)@.to_set().union(at(firsts@, state)),
{
    if let Some(s) = firsts.get(&state) {
        extend(out, s);
    } else {
        assert(out@.to_set() =~= old(out)@.to_set().union(at(firsts@, state)));
    }
}

fn extend_with_rule_follow(out: &mut Vec<u16>, rule: &String, st: &StateTable)
    requires
        st.rule_sync.wf(),
        ordered::strict16(old(out)@),
    ensures
        ordered::strict16(final(out)@),
        final(out)@.to_set() == old(out)@.to_set().union(rule_follow(*st, rule@)),
{
    let ghost before = out@.to_set();
    assert(before =~= before.union(Set::empty()));
    let empty = names::rank_str(rule.as_str(), "") == Rank::Same;
    proof {
        reveal_strlit("");
        assert(empty == (rule@.len() == 0)) by {
            if rule@.len() == 0 {
                assert(rule@ =~= ""@);
            }
        }
    }
    if empty {
        return;
    }
    match st.rule_sync.get(rule.as_str()) {
        Some(sid) => {
            let id = *sid as usize;
            if id < st.sync_sets.len() {
                extend(out, &st.sync_sets[id].kinds);
            }
        },
        None => {},
    }
}

fn extend_with_first_set(out: &mut Vec<u16>, fid: u32, st: &StateTable)
    requires
        ordered::strict16(old(out)@),
    ensures
        ordered::strict16(final(out)@),
        final(out)@.to_set() == old(out)@.to_set().union(heads(*st, fid)),
{
    let ghost before = out@;
    let ghost h = heads(*st, fid);
    if fid as usize >= st.first_sets.len() {
        assert(h =~= Set::<u16>::empty());
        assert(out@.to_set() =~= before.to_set().union(h));
        return;
    }
    let seqs = &st.first_sets[fid as usize].seqs;
    let mut i: usize = 0;
    while i < seqs.len()
        invariant
            i <= seqs@.len(),
            ordered::strict16(out@),
            forall|k: u16| #[trigger]
                out@.contains(k) <==> before.contains(k) || exists|m: int|
                    0 <= m < i && (#[trigger] seqs@[m])@.len() > 0 && seqs@[m]@[0] == k,
        decreases seqs@.len() - i,
    {
        let ghost mid = out@;
        if seqs[i].len() > 0 {
            ordered::insert_u16(out, seqs[i][0]);
        }
        proof {
            assert forall|k: u16| #[trigger] out@.contains(k) <==> before.contains(k) || exists|
                m: int,
            |
                0 <= m < i + 1 && (#[trigger] seqs@[m])@.len() > 0 && seqs@[m]@[0] == k by {
                if mid.contains(k) && !before.contains(k) {
                    let m = choose|m: int|
                        0 <= m < i && (#[trigger] seqs@[m])@.len() > 0 && seqs@[m]@[0] == k;
                    assert(seqs@[m]@[0] == k);
                }
                if out@.contains(k) && !mid.contains(k) {
                    assert(seqs@[i as int]@.len() > 0 && seqs@[i as int]@[0] == k);
                }
                if exists|m: int|
                    0 <= m < i + 1 && (#[trigger] seqs@[m])@.len() > 0 && seqs@[m]@[0] == k {
                    let m = choose|m: int|
                        0 <= m < i + 1 && (#[trigger] seqs@[m])@.len() > 0 && seqs@[m]@[0] == k;
                    if m < i {
                        assert(mid.contains(k));
                    }
                }
            }
        }
        i += 1;
    }
    proof {
        assert(st.first_sets@[fid as int].seqs@ == seqs@);
        assert forall|k: u16| out@.to_set().contains(k) <==> before.to_set().union(h).contains(k) by {
            assert(out@.contains(k) <==> before.contains(k) || h.contains(k));
        }
        assert(out@.to_set() =~= before.to_set().union(h));
    }
}

fn extend_after(
    out: &mut Vec<u16>,
    cont: &Option<StateId>,
    rule: &String,
    st: &StateTable,
    firsts: &StateFirsts,
)
    requires
        firsts.wf(),
        st.rule_sync.wf(),
        ordered::strict16(old(out)@),
    ensures
        ordered::strict16(final(out)@),
        final(out)@.to_set() == old(out)@.to_set().union(after(*st, firsts@, *cont, rule@)),
{
    match cont {
        Some(c) => extend_with_state_first(out, *c, firsts),
        None => extend_with_rule_follow(out, rule, st),
    }
}

/// True iff some path through the tree falls through.
fn has_fallthrough(t: &DispatchTree) -> (r: bool)
    ensures
        r == falls(t@),
    decreases t,
{
    match t {
        DispatchTree::Leaf(l) => matches!(l, DispatchLeaf::Fallthrough),
        DispatchTree::Switch { depth: _, arms, default } => {
            assert(t@->Switch_2 == table::arm_trees(arms@));
            matches!(default, DispatchLeaf::Fallthrough) || any_fallthrough(arms)
        },
    }
}

fn any_fallthrough(arms: &Vec<(u16, DispatchTree)>) -> (r: bool)
    ensures
        r == exists|i: int| 0 <= i < arms@.len() && falls(#[trigger] table::arm_trees(arms@)[i]),
    decreases arms,
{
    let ghost subs = table::arm_trees(arms@);
    let mut i: usize = 0;
    while i < arms.len()
        invariant
            i <= arms@.len(),
            subs == table::arm_trees(arms@),
            forall|m: int| 0 <= m < i ==> !falls(#[trigger] subs[m]),
        decreases arms@.len() - i,
    {
        assert(subs[i as int] == arms@[i as int].1@);
        if has_fallthrough(&arms[i].1) {
            return true;
        }
        i += 1;
    }
    false
}

/// Adds the kinds that the tree asks for, and tells whether it falls through.
fn collect_dispatch_first(t: &DispatchTree, out: &mut Vec<u16>) -> (r: bool)
    requires
        ordered::strict16(old(out)@),
    ensures
        ordered::strict16(final(out)@),
        final(out)@.to_set() == old(out)@.to_set().union(tree_kinds(t@)),
        r == falls(t@),
{
    let ghost before = out@.to_set();
    assert(before =~= before.union(Set::empty()));
    if let DispatchTree::Switch { depth, arms, default: _ } = t {
        if *depth == 0 {
            let mut kinds: Vec<u16> = Vec::new();
            let mut i: usize = 0;
            while i < arms.len()
                invariant
                    i <= arms@.len(),
                    kinds@ == table::arm_kinds(arms@).take(i as int),
                decreases arms@.len() - i,
            {
                kinds.push(arms[i].0);
                assert(table::arm_kinds(arms@).take(i + 1) =~= table::arm_kinds(arms@).take(
                    i as int,
                ).push(arms@[i as int].0));
                i += 1;
            }
            assert(kinds@ =~= table::arm_kinds(arms@));
            extend(out, &kinds);
        }
    }
    has_fallthrough(t)
}

fn follow_tail(tail: &Tail, rule: &String, st: &StateTable, firsts: &StateFirsts) -> (out: Vec<u16>)
    requires
        firsts.wf(),
        st.rule_sync.wf(),
    ensures
        ordered::strict16(out@),
        out@.to_set() == tail_first(*st, firsts@, tail@, rule@),
{
    let mut out: Vec<u16> = Vec::new();
    assert(out@.to_set() =~= Set::<u16>::empty());
    match tail {
        Tail::Jump(n) => extend_with_state_first(&mut out, *n, firsts),
        Tail::Ret => extend_with_rule_follow(&mut out, rule, st),
        Tail::Star { first, body: _, cont, head: _ } => {
            extend_with_first_set(&mut out, *first, st);
            extend_after(&mut out, cont, rule, st, firsts);
        },
        Tail::Opt { first, body: _, cont } => {
            extend_with_first_set(&mut out, *first, st);
            extend_after(&mut out, cont, rule, st, firsts);
        },
        Tail::Dispatch { tree, sync: _, cont, insertions: _ } => {
            let through = collect_dispatch_first(tree, &mut out);
            if through {
                extend_after(&mut out, cont, rule, st, firsts);
            }
        },
    }
    assert(out@.to_set() =~= tail_first(*st, firsts@, tail@, rule@));
    out
}

proof fn lemma_first_expect(l: Seq<InstrView>, i: int)
    requires
        0 <= i <= l.len(),
        i < l.len() ==> l[i] is Expect,
        forall|m: int| 0 <= m < i ==> !((#[trigger] l[m]) is Expect),
    ensures
        first_expect(l) == i,
    decreases l.len(),
{
    if l.len() > 0 {
        let p = l.drop_last();
        if i < l.len() {
            if i < p.len() {
                lemma_first_expect(p, i);
            } else {
                lemma_first_expect(p, p.len() as int);
            }
        } else {
            lemma_first_expect(p, p.len() as int);
            assert(!(l[l.len() - 1] is Expect));
        }
    }
}

fn first_for_state(s: &State, st: &StateTable, firsts: &StateFirsts) -> (out: Vec<u16>)
    requires
        firsts.wf(),
        st.rule_sync.wf(),
    ensures
        ordered::strict16(out@),
        out@.to_set() == state_first(*st, firsts@, s@),
{
    let ghost l = table::instrs_view(s.body.instrs@);
    let mut i: usize = 0;
    while i < s.body.instrs.len()
        invariant
            i <= s.body.instrs@.len(),
            l == table::instrs_view(s.body.instrs@),
            forall|m: int| 0 <= m < i ==> !((#[trigger] l[m]) is Expect),
        decreases s.body.instrs@.len() - i,
    {
        assert(l[i as int] == s.body.instrs@[i as int]@);
        if let Instr::Expect { kind, token_name: _, sync: _, label: _ } = &s.body.instrs[i] {
            let mut out: Vec<u16> = Vec::new();
            out.push(*kind);
            proof {
                lemma_first_expect(l, i as int);
                assert(out@.to_set() =~= Set::<u16>::empty().insert(*kind)) by {
                    assert(out@[0] == *kind);
                }
            }
            return out;
        }
        i += 1;
    }
    proof {
        lemma_first_expect(l, i as int);
    }
    follow_tail(&s.body.tail, &s.rule, st, firsts)
}

/// Larger sets let a state begin with more.
proof fn lemma_state_first_mono(st: StateTable, f: Firsts, g: Firsts, s: StateView)
    requires
        forall|id: u32| (#[trigger] at(f, id)).subset_of(at(g, id)),
    ensures
        state_first(st, f, s).subset_of(state_first(st, g, s)),
{
    match s.body.tail {
        TailView::Jump(n) => assert(at(f, n).subset_of(at(g, n))),
        TailView::Star(_, _, cont, _) => {
            if let Some(c) = cont {
                assert(at(f, c).subset_of(at(g, c)));
            }
        },
        TailView::Opt(_, _, cont) => {
            if let Some(c) = cont {
                assert(at(f, c).subset_of(at(g, c)));
            }
        },
        TailView::Dispatch(_, _, cont, _) => {
            if let Some(c) = cont {
                assert(at(f, c).subset_of(at(g, c)));
            }
        },
        _ => {},
    }
}

/// How many kinds the rows hold together.
spec fn total(rows: Seq<Vec<u16>>) -> nat
    decreases rows.len(),
{
    if rows.len() == 0 {
        0
    } else {
        total(rows.drop_last()) + rows.last()@.len()
    }
}

proof fn lemma_strict_len(l: Seq<u16>)
    requires
        ordered::strict16(l),
    ensures
        l.len() <= 0x1_0000,
{
    if l.len() > 0 {
        lemma_strict_at(l, l.len() - 1);
    }
}

proof fn lemma_strict_at(l: Seq<u16>, i: int)
    requires
        ordered::strict16(l),
        0 <= i < l.len(),
    ensures
        l[i] >= i,
    decreases i,
{
    if i > 0 {
        lemma_strict_at(l, i - 1);
        assert(l[i - 1] < l[i]);
    }
}

proof fn lemma_total_bound(rows: Seq<Vec<u16>>)
    requires
        forall|i: int| 0 <= i < rows.len() ==> ordered::strict16((#[trigger] rows[i])@),
    ensures
        total(rows) <= rows.len() * 0x1_0000,
    decreases rows.len(),
{
    if rows.len() > 0 {
        let p = rows.drop_last();
        assert forall|i: int| 0 <= i < p.len() implies ordered::strict16((#[trigger] p[i])@) by {
            assert(ordered::strict16(rows[i]@));
        }
        lemma_total_bound(p);
        assert(ordered::strict16(rows[rows.len() - 1]@));
        lemma_strict_len(rows.last()@);
    }
}

proof fn lemma_total_update(rows: Seq<Vec<u16>>, i: int, row: Vec<u16>)
    requires
        0 <= i < rows.len(),
    ensures
        total(rows.update(i, row)) == total(rows) - rows[i]@.len() + row@.len(),
    decreases rows.len(),
{
    let next = rows.update(i, row);
    if i == rows.len() - 1 {
        assert(next.drop_last() =~= rows.drop_last());
    } else {
        lemma_total_update(rows.drop_last(), i, row);
        assert(next.drop_last() =~= rows.drop_last().update(i, row));
    }
}

/// The ids of the states.
spec fn ids_of(states: Seq<StateView>) -> Seq<u32> {
    Seq::new(states.len(), |i: int| states[i].id)
}

/// What is in the table has to be in every closed one.
spec fn forced(st: StateTable, f: Firsts) -> bool {
    forall|g: Firsts| #[trigger]
        closed(st, g) ==> forall|id: u32| (#[trigger] at(f, id)).subset_of(at(g, id))
}

/// What a state begins with has to be in its set, in every closed table.
proof fn lemma_forced_step(
    st: StateTable,
    before: StateFirsts,
    now: StateFirsts,
    i: int,
)
    requires
        before.wf(),
        now.wf(),
        now.ids == before.ids,
        before.ids@ == ids_of(st.states@),
        0 <= i < before.ids@.len(),
        forall|j: int| 0 <= j < before.rows@.len() && j != i ==> #[trigger] now.rows@[j] == before.rows@[j],
        now.rows@[i]@.to_set() == before.rows@[i]@.to_set().union(
            state_first(st, before@, st.states@[i]),
        ),
        forced(st, before@),
    ensures
        forced(st, now@),
{
    assert forall|g: Firsts| #[trigger] closed(st, g) implies forall|id: u32|
        (#[trigger] at(now@, id)).subset_of(at(g, id)) by {
        assert forall|id: u32| (#[trigger] at(now@, id)).subset_of(at(g, id)) by {
            assert(at(before@, id).subset_of(at(g, id)));
            if now.ids@.contains(id) {
                let j = now.ids@.index_of(id);
                lemma_row(now, j);
                lemma_row(before, j);
                if j == i {
                    lemma_state_first_mono(st, before@, g, st.states@[i]);
                    assert(state_first(st, g, st.states@[i]).subset_of(at(g, st.states@[i].id)));
                }
            }
        }
    }
}

/// Compute FIRST of every state.
pub fn compute(st: &StateTable) -> (r: StateFirsts)
    requires
        st.states.wf(),
        st.rule_sync.wf(),
    ensures
        r.wf(),
        is_first(*st, r@),
        forall|id: u32| #[trigger] r@.contains_key(id) <==> table::has_state(st.states@, id),
{
    let ghost sv = st.states@;
    let n = st.states.len();
    let mut t = StateFirsts { ids: Vec::new(), rows: Vec::new() };
    let mut i: usize = 0;
    while i < n
        invariant
            i <= n,
            sv == st.states@,
            n == sv.len(),
            t.ids@ == ids_of(sv).take(i as int),
            t.rows@.len() == i,
            forall|m: int| 0 <= m < i ==> (#[trigger] t.rows@[m])@.len() == 0,
        decreases n - i,
    {
        t.ids.push(st.states.at(i).id);
        t.rows.push(Vec::new());
        assert(ids_of(sv).take(i + 1) =~= ids_of(sv).take(i as int).push(sv[i as int].id));
        i += 1;
    }
    proof {
        assert(ids_of(sv).take(i as int) =~= ids_of(sv));
        assert(t.ids@.no_duplicates()) by {
            assert forall|a: int, b: int|
                0 <= a < t.ids@.len() && 0 <= b < t.ids@.len() && a != b implies t.ids@[a]
                != t.ids@[b] by {
                if a < b {
                    assert(sv[a].id < sv[b].id);
                } else {
                    assert(sv[b].id < sv[a].id);
                }
            }
        }
        assert(forced(*st, t@)) by {
            assert forall|g: Firsts| #[trigger] closed(*st, g) implies forall|id: u32|
                (#[trigger] at(t@, id)).subset_of(at(g, id)) by {
                assert forall|id: u32| (#[trigger] at(t@, id)).subset_of(at(g, id)) by {
                    if t.ids@.contains(id) {
                        let j = t.ids@.index_of(id);
                        lemma_row(t, j);
                        assert(t.rows@[j]@.len() == 0);
                    }
                }
            }
        }
    }
    let mut changed = true;
    while changed
        invariant
            st.states.wf(),
            st.rule_sync.wf(),
            sv == st.states@,
            n == sv.len(),
            t.wf(),
            t.ids@ == ids_of(sv),
            t.rows@.len() == n,
            forced(*st, t@),
            !changed ==> closed(*st, t@),
        decreases
                n * 0x1_0000 - total(t.rows@),
                (if changed {
                    1int
                } else {
                    0int
                }),
    {
        changed = false;
        let ghost before = t;
        let mut i: usize = 0;
        while i < n
            invariant
                i <= n,
                st.states.wf(),
                st.rule_sync.wf(),
                sv == st.states@,
                n == sv.len(),
                t.wf(),
                t.ids@ == ids_of(sv),
                t.rows@.len() == n,
                forced(*st, t@),
                !changed ==> t == before,
                !changed ==> forall|m: int|
                    0 <= m < i ==> state_first(*st, before@, #[trigger] sv[m]).subset_of(
                        at(before@, sv[m].id),
                    ),
                total(t.rows@) >= total(before.rows@),
                changed ==> total(t.rows@) > total(before.rows@),
            decreases n - i,
        {
            let new = first_for_state(st.states.at(i), st, &t);
            let ghost t0 = t;
            let mut row = sorting::clone_kinds(&t.rows[i]);
            proof {
                assert(ordered::strict16(t.rows@[i as int]@));
            }
            let grew = extend(&mut row, &new);
            let ghost rv = row;
            if grew {
                proof {
                    lemma_total_update(t.rows@, i as int, row);
                }
                t.rows.set(i, row);
                proof {
                    assert forall|m: int| 0 <= m < t.rows@.len() implies ordered::strict16(
                        (#[trigger] t.rows@[m])@,
                    ) by {
                        if m != i {
                            assert(ordered::strict16(t0.rows@[m]@));
                        }
                    }
                    lemma_forced_step(*st, t0, t, i as int);
                }
                changed = true;
            } else {
                proof {
                    lemma_row(t, i as int);
                    assert(t.ids@[i as int] == sv[i as int].id);
                }
            }
            i += 1;
        }
        proof {
            lemma_total_bound(t.rows@);
            if !changed {
                assert(closed(*st, t@));
            }
        }
    }
    proof {
        assert forall|id: u32| #[trigger] t@.contains_key(id) <==> table::has_state(sv, id) by {
            if t.ids@.contains(id) {
                let j = t.ids@.index_of(id);
                assert(sv[j].id == id);
            }
            if table::has_state(sv, id) {
                let j = choose|j: int| 0 <= j < sv.len() && (#[trigger] sv[j]).id == id;
                assert(t.ids@[j] == id);
            }
        }
    }
    t
}

} // verus!
