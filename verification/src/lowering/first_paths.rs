//! What the kinds of a state mean: what it begins with after handing control on.
use vstd::prelude::*;

use crate::lowering::state_first::{self, Firsts};
use crate::lowering::table::{InstrView, StateTable, StateView, TailView, TreeView};

verus! {

/// The body takes no token itself before its end.
pub open spec fn takes_nothing(s: StateView) -> bool {
    forall|i: int| 0 <= i < s.body.instrs.len() ==> !(#[trigger] s.body.instrs[i] is Expect)
}

/// The body takes a token of the kind before any other.
pub open spec fn takes_first(s: StateView, k: u16) -> bool {
    exists|i: int|
        {
            &&& 0 <= i < s.body.instrs.len()
            &&& (#[trigger] s.body.instrs[i]) is Expect
            &&& s.body.instrs[i]->Expect_0 == k
            &&& forall|j: int| 0 <= j < i ==> !(#[trigger] s.body.instrs[j] is Expect)
        }
}

/// The kind can follow the rule: it is among those that its recovery stops at.
pub open spec fn can_follow(st: StateTable, rule: Seq<char>, k: u16) -> bool {
    &&& rule.len() > 0
    &&& st.rule_sync@.contains_key(rule)
    &&& st.rule_sync@[rule] < st.sync_sets@.len()
    &&& st.sync_sets@[st.rule_sync@[rule] as int].kinds@.contains(k)
}

/// A sequence of the FIRST set has the kind in front.
pub open spec fn in_front(st: StateTable, first: u32, k: u16) -> bool {
    first < st.first_sets@.len() && exists|i: int|
        0 <= i < st.first_sets@[first as int].seqs@.len() && (
        #[trigger] st.first_sets@[first as int].seqs@[i])@.len() > 0
            && st.first_sets@[first as int].seqs@[i]@[0] == k
}

/// The state by itself can begin with the kind.
pub open spec fn begins(st: StateTable, s: StateView, k: u16) -> bool {
    ||| takes_first(s, k)
    ||| takes_nothing(s) && match s.body.tail {
        TailView::Jump(_) => false,
        TailView::Ret => can_follow(st, s.rule, k),
        TailView::Star(first, _, cont, _) => in_front(st, first, k) || cont is None && can_follow(
            st,
            s.rule,
            k,
        ),
        TailView::Opt(first, _, cont) => in_front(st, first, k) || cont is None && can_follow(
            st,
            s.rule,
            k,
        ),
        TailView::Dispatch(tree, _, cont, _) => {
            ||| tree matches TreeView::Switch(depth, kinds, _, _) && depth == 0 && kinds.contains(k)
            ||| state_first::falls(tree) && cont is None && can_follow(st, s.rule, k)
        },
    }
}

/// The state can hand control to `n` before it takes a token.
pub open spec fn hands_to(s: StateView, n: u32) -> bool {
    takes_nothing(s) && match s.body.tail {
        TailView::Jump(to) => to == n,
        TailView::Ret => false,
        TailView::Star(_, _, cont, _) => cont == Some(n),
        TailView::Opt(_, _, cont) => cont == Some(n),
        TailView::Dispatch(tree, _, cont, _) => state_first::falls(tree) && cont == Some(n),
    }
}

/// The states at the positions of `path` hand control on, from the state `id` to
/// one that begins with the kind.
pub open spec fn leads(st: StateTable, id: u32, path: Seq<int>, k: u16) -> bool {
    &&& path.len() > 0
    &&& forall|j: int| 0 <= j < path.len() ==> 0 <= #[trigger] path[j] < st.states@.len()
    &&& st.states@[path[0]].id == id
    &&& forall|j: int|
        0 < j < path.len() ==> hands_to(
            st.states@[path[j - 1]],
            st.states@[#[trigger] path[j]].id,
        )
    &&& begins(st, st.states@[path.last()], k)
}

proof fn lemma_first_expect(l: Seq<InstrView>)
    ensures
        0 <= state_first::first_expect(l) <= l.len(),
        state_first::first_expect(l) < l.len() ==> l[state_first::first_expect(l)] is Expect,
        forall|j: int|
            0 <= j < state_first::first_expect(l) ==> !(#[trigger] l[j] is Expect),
    decreases l.len(),
{
    if l.len() > 0 {
        let p = l.drop_last();
        lemma_first_expect(p);
        assert forall|j: int| 0 <= j < p.len() implies #[trigger] l[j] == p[j] by {}
    }
}

/// One step: the state begins with the kind, or hands control to one that does.
proof fn lemma_step(st: StateTable, f: Firsts, s: StateView, k: u16)
    ensures
        state_first::state_first(st, f, s).contains(k) <==> begins(st, s, k) || exists|n: u32| #[trigger]
            hands_to(s, n) && state_first::at(f, n).contains(k),
{
    let i = state_first::first_expect(s.body.instrs);
    lemma_first_expect(s.body.instrs);
    assert(state_first::rule_follow(st, s.rule).contains(k) <==> can_follow(st, s.rule, k));
    if i < s.body.instrs.len() {
        assert(s.body.instrs[i] is Expect);
        assert(!takes_nothing(s));
        if takes_first(s, k) {
            let m = choose|m: int|
                {
                    &&& 0 <= m < s.body.instrs.len()
                    &&& (#[trigger] s.body.instrs[m]) is Expect
                    &&& s.body.instrs[m]->Expect_0 == k
                    &&& forall|j: int| 0 <= j < m ==> !(#[trigger] s.body.instrs[j] is Expect)
                };
            assert(m == i);
        }
    } else {
        assert(takes_nothing(s));
        assert(!takes_first(s, k));
        match s.body.tail {
            TailView::Jump(n) => {
                assert(hands_to(s, n));
            },
            TailView::Ret => {},
            TailView::Star(first, _, cont, _) => {
                assert(state_first::heads(st, first).contains(k) <==> in_front(st, first, k));
                if let Some(n) = cont {
                    assert(hands_to(s, n));
                }
            },
            TailView::Opt(first, _, cont) => {
                assert(state_first::heads(st, first).contains(k) <==> in_front(st, first, k));
                if let Some(n) = cont {
                    assert(hands_to(s, n));
                }
            },
            TailView::Dispatch(tree, _, cont, _) => {
                if let Some(n) = cont {
                    if state_first::falls(tree) {
                        assert(hands_to(s, n));
                    }
                }
            },
        }
    }
}

proof fn lemma_path_is_held(st: StateTable, f: Firsts, id: u32, path: Seq<int>, k: u16)
    requires
        state_first::closed(st, f),
        leads(st, id, path, k),
    ensures
        state_first::at(f, id).contains(k),
    decreases path.len(),
{
    let s = st.states@[path[0]];
    lemma_step(st, f, s, k);
    assert(0 <= path[0] < st.states@.len());
    assert(state_first::state_first(st, f, s).subset_of(state_first::at(f, id)));
    if path.len() > 1 {
        let rest = path.skip(1);
        let n = st.states@[path[1]].id;
        assert(hands_to(s, n));
        assert forall|j: int| 0 < j < rest.len() implies hands_to(
            st.states@[rest[j - 1]],
            st.states@[#[trigger] rest[j]].id,
        ) by {
            assert(rest[j] == path[j + 1] && rest[j - 1] == path[j]);
        }
        assert forall|j: int| 0 <= j < rest.len() implies 0 <= #[trigger] rest[j] < st.states@.len() by {
            assert(rest[j] == path[j + 1]);
        }
        assert(rest[0] == path[1]);
        lemma_path_is_held(st, f, n, rest, k);
    }
}

/// The kinds of a state are those to which control can be handed from it: a
/// state begins with the kind, or it takes nothing and hands control on until
/// one does. No other kind is among them.
pub proof fn law_state_first_is_reached(st: StateTable, f: Firsts, id: u32, k: u16)
    requires
        state_first::is_first(st, f),
    ensures
        state_first::at(f, id).contains(k) <==> exists|path: Seq<int>| #[trigger]
            leads(st, id, path, k),
{
    if exists|path: Seq<int>| #[trigger] leads(st, id, path, k) {
        let path = choose|path: Seq<int>| #[trigger] leads(st, id, path, k);
        lemma_path_is_held(st, f, id, path, k);
    }
    let g: Firsts = Map::new(
        |n: u32| true,
        |n: u32| Set::new(|x: u16| exists|path: Seq<int>| #[trigger] leads(st, n, path, x)),
    );
    assert forall|n: u32, x: u16| #[trigger]
        state_first::at(g, n).contains(x) <==> exists|path: Seq<int>| #[trigger]
            leads(st, n, path, x) by {}
    assert forall|i: int| 0 <= i < st.states@.len() implies state_first::state_first(
        st,
        g,
        #[trigger] st.states@[i],
    ).subset_of(state_first::at(g, st.states@[i].id)) by {
        let s = st.states@[i];
        assert forall|x: u16|
            state_first::state_first(st, g, s).contains(x) implies #[trigger] state_first::at(
            g,
            s.id,
        ).contains(x) by {
            lemma_step(st, g, s, x);
            if begins(st, s, x) {
                assert(leads(st, s.id, seq![i], x));
            } else {
                let n = choose|n: u32| #[trigger]
                    hands_to(s, n) && state_first::at(g, n).contains(x);
                let rest = choose|path: Seq<int>| #[trigger] leads(st, n, path, x);
                let path = seq![i] + rest;
                assert forall|j: int| 0 < j < path.len() implies hands_to(
                    st.states@[path[j - 1]],
                    st.states@[#[trigger] path[j]].id,
                ) by {
                    assert(path[j] == rest[j - 1]);
                    if j > 1 {
                        assert(path[j - 1] == rest[j - 2]);
                        assert(hands_to(
                            st.states@[rest[j - 1 - 1]],
                            st.states@[rest[j - 1]].id,
                        ));
                    }
                }
                assert forall|j: int| 0 <= j < path.len() implies 0 <= #[trigger] path[j]
                    < st.states@.len() by {
                    if j > 0 {
                        assert(path[j] == rest[j - 1]);
                    }
                }
                assert(path.last() == rest.last());
                assert(leads(st, s.id, path, x));
            }
        }
    }
    assert(state_first::closed(st, g));
    assert(state_first::at(f, id).subset_of(state_first::at(g, id)));
}

} // verus!
