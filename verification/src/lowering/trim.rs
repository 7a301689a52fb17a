//! Cutting off what no token comes of: the states of the token automaton from
//! which no accepting state can be reached.
use vstd::prelude::*;

use crate::lowering::graph::{self, Edge};
use crate::lowering::nfa::{self, Nfa, NfaState};
use crate::lowering::subset;

verus! {

/// An accepting state can be reached from `q`.
pub open spec fn comes_to_accept(states: Seq<NfaState>, q: int) -> bool {
    exists|w: Seq<u8>, t: int| #[trigger]
        graph::path(nfa::edges(states), q, w, t) && 0 <= t < states.len()
            && states[t].accept is Some
}

/// Every string that can be read, but for the empty one, can be read on to one
/// that is accepted.
pub open spec fn trimmed(nfa: Nfa) -> bool {
    forall|w: Seq<u8>, q: int| #[trigger]
        subset::led_to(nfa, w, q) && w.len() > 0 ==> goes_on(nfa, w)
}

/// The string can be read on to one that is accepted.
pub open spec fn goes_on(nfa: Nfa, w: Seq<u8>) -> bool {
    exists|z: Seq<u8>, k: u16| #[trigger] nfa::accepts(nfa, w + z, k)
}

/// Some edge of the state leads to a marked one.
spec fn leads_marked(states: Seq<NfaState>, marks: Seq<bool>, q: int) -> bool {
    exists|l: Option<u8>, t: int| #[trigger]
        nfa::edges(states).contains((q, l, t)) && marks[t]
}

fn has_marked_edge(state: &NfaState, marks: &Vec<bool>, Ghost(states): Ghost<Seq<NfaState>>, Ghost(
    q,
): Ghost<int>) -> (r: bool)
    requires
        0 <= q < states.len(),
        states[q] == *state,
        nfa::closed(states),
        marks@.len() == states.len(),
    ensures
        r == leads_marked(states, marks@, q),
{
    let mut i: usize = 0;
    while i < state.epsilon.len()
        invariant
            i <= state.epsilon@.len(),
            0 <= q < states.len(),
            states[q] == *state,
            nfa::closed(states),
            marks@.len() == states.len(),
            forall|k: int| 0 <= k < i ==> !marks@[#[trigger] state.epsilon@[k] as int],
        decreases state.epsilon@.len() - i,
    {
        let t = state.epsilon[i];
        let ghost e: Edge = (q, None::<u8>, t as int);
        assert(states[q].leads(None::<u8>, t as int));
        assert(nfa::edges(states).contains(e));
        if marks[t] {
            return true;
        }
        i += 1;
    }
    let mut j: usize = 0;
    while j < state.range_trans.len()
        invariant
            j <= state.range_trans@.len(),
            0 <= q < states.len(),
            states[q] == *state,
            nfa::closed(states),
            marks@.len() == states.len(),
            forall|k: int|
                0 <= k < j && (#[trigger] state.range_trans@[k]).0.0 <= state.range_trans@[k].0.1
                    ==> !marks@[state.range_trans@[k].1 as int],
        decreases state.range_trans@.len() - j,
    {
        let ((lo, hi), t) = state.range_trans[j];
        if lo <= hi {
            let ghost e: Edge = (q, Some(lo), t as int);
            assert(state.range_trans@[j as int].1 == t as int);
            assert(states[q].leads(Some(lo), t as int));
            assert(nfa::edges(states).contains(e));
            if marks[t] {
                return true;
            }
        }
        j += 1;
    }
    proof {
        if leads_marked(states, marks@, q) {
            let (l, t) = choose|l: Option<u8>, t: int| #[trigger]
                nfa::edges(states).contains((q, l, t)) && marks@[t];
            assert(states[q].leads(l, t));
            match l {
                None => {
                    let k = choose|k: int|
                        0 <= k < state.epsilon@.len() && #[trigger] state.epsilon@[k] == t;
                    assert(!marks@[state.epsilon@[k] as int]);
                },
                Some(b) => {
                    let k = choose|k: int|
                        0 <= k < state.range_trans@.len() && (#[trigger] state.range_trans@[k]).1
                            == t && state.range_trans@[k].0.0 <= b <= state.range_trans@[k].0.1;
                    assert(!marks@[state.range_trans@[k].1 as int]);
                },
            }
        }
    }
    false
}

/// The number of marks.
spec fn marked(marks: Seq<bool>) -> nat
    decreases marks.len(),
{
    if marks.len() == 0 {
        0
    } else {
        marked(marks.drop_last()) + if marks.last() {
            1nat
        } else {
            0nat
        }
    }
}

proof fn lemma_marked(marks: Seq<bool>)
    ensures
        marked(marks) <= marks.len(),
    decreases marks.len(),
{
    if marks.len() > 0 {
        lemma_marked(marks.drop_last());
    }
}

proof fn lemma_mark_more(marks: Seq<bool>, i: int)
    requires
        0 <= i < marks.len(),
        !marks[i],
    ensures
        marked(marks.update(i, true)) == marked(marks) + 1,
    decreases marks.len(),
{
    let after = marks.update(i, true);
    if i == marks.len() - 1 {
        assert(after.drop_last() =~= marks.drop_last());
    } else {
        lemma_mark_more(marks.drop_last(), i);
        assert(after.drop_last() =~= marks.drop_last().update(i, true));
        assert(after.last() == marks.last());
    }
}

/// An edge to a state from which an accepting one can be reached makes its
/// source such a state.
proof fn lemma_before_accept(states: Seq<NfaState>, q: int, l: Option<u8>, t: int)
    requires
        nfa::edges(states).contains((q, l, t)),
        comes_to_accept(states, t),
    ensures
        comes_to_accept(states, q),
{
    let g = nfa::edges(states);
    let (w, u) = choose|w: Seq<u8>, u: int| #[trigger]
        graph::path(g, t, w, u) && 0 <= u < states.len() && states[u].accept is Some;
    match l {
        None => {
            graph::lemma_eps_step(g, q, t, w, u);
        },
        Some(b) => {
            let v = seq![b] + w;
            assert(v.skip(1) =~= w);
            graph::lemma_byte_step(g, q, t, v, u);
        },
    }
}

/// Marks that follow the edges back from the accepting states are at all
/// states from which one can be reached.
proof fn lemma_all_marked(states: Seq<NfaState>, marks: Seq<bool>, q: int, w: Seq<u8>, t: int, n: nat)
    requires
        marks.len() == states.len(),
        nfa::closed(states),
        0 <= q < states.len(),
        0 <= t < states.len(),
        states[t].accept is Some,
        forall|s: int| 0 <= s < states.len() && states[s].accept is Some ==> #[trigger] marks[s],
        forall|s: int|
            0 <= s < states.len() && leads_marked(states, marks, s) ==> #[trigger] marks[s],
        graph::reach(nfa::edges(states), q, w, t, n),
    ensures
        marks[q],
    decreases n,
{
    let g = nfa::edges(states);
    if n > 0 {
        if exists|m: int| #[trigger]
            g.contains((q, None::<u8>, m)) && graph::reach(g, m, w, t, (n - 1) as nat) {
            let m = choose|m: int| #[trigger]
                g.contains((q, None::<u8>, m)) && graph::reach(g, m, w, t, (n - 1) as nat);
            lemma_all_marked(states, marks, m, w, t, (n - 1) as nat);
            assert(leads_marked(states, marks, q));
        } else {
            let m = choose|m: int| #[trigger]
                g.contains((q, Some(w[0]), m)) && graph::reach(g, m, w.skip(1), t, (n - 1) as nat);
            lemma_all_marked(states, marks, m, w.skip(1), t, (n - 1) as nat);
            assert(leads_marked(states, marks, q));
        }
    }
}

/// Which states an accepting one can be reached from.
fn useful_states(states: &Vec<NfaState>) -> (marks: Vec<bool>)
    requires
        nfa::closed(states@),
    ensures
        marks@.len() == states@.len(),
        forall|q: int|
            0 <= q < states@.len() ==> (#[trigger] marks@[q] <==> comes_to_accept(states@, q)),
{
    let ghost sv = states@;
    let ghost g = nfa::edges(sv);
    let mut marks: Vec<bool> = Vec::new();
    let mut i: usize = 0;
    while i < states.len()
        invariant
            i <= states@.len(),
            sv == states@,
            g == nfa::edges(sv),
            marks@.len() == i,
            forall|q: int| 0 <= q < i ==> #[trigger] marks@[q] == (sv[q].accept is Some),
            forall|q: int| 0 <= q < i && #[trigger] marks@[q] ==> comes_to_accept(sv, q),
        decreases states@.len() - i,
    {
        let hit = states[i].accept.is_some();
        proof {
            if hit {
                graph::lemma_here(g, i as int);
                assert(graph::path(g, i as int, Seq::empty(), i as int));
            }
        }
        marks.push(hit);
        i += 1;
    }
    let mut changed = true;
    while changed
        invariant
            sv == states@,
            nfa::closed(sv),
            marks@.len() == sv.len(),
            forall|q: int| 0 <= q < sv.len() && sv[q].accept is Some ==> #[trigger] marks@[q],
            forall|q: int| 0 <= q < sv.len() && #[trigger] marks@[q] ==> comes_to_accept(sv, q),
            !changed ==> forall|q: int|
                0 <= q < sv.len() && leads_marked(sv, marks@, q) ==> #[trigger] marks@[q],
        decreases
                sv.len() - marked(marks@),
                (if changed {
                    1int
                } else {
                    0int
                }),
    {
        changed = false;
        let ghost m0 = marks@;
        let mut i: usize = 0;
        while i < states.len()
            invariant
                i <= states@.len(),
                sv == states@,
                nfa::closed(sv),
                marks@.len() == sv.len(),
                forall|q: int| 0 <= q < sv.len() && sv[q].accept is Some ==> #[trigger] marks@[q],
                forall|q: int|
                    0 <= q < sv.len() && #[trigger] marks@[q] ==> comes_to_accept(sv, q),
                !changed ==> marks@ == m0,
                changed ==> marked(marks@) > marked(m0),
                !changed ==> forall|q: int|
                    0 <= q < i && leads_marked(sv, m0, q) ==> #[trigger] m0[q],
            decreases states@.len() - i,
        {
            if !marks[i] && has_marked_edge(&states[i], &marks, Ghost(sv), Ghost(i as int)) {
                proof {
                    lemma_mark_more(marks@, i as int);
                    let (l, t) = choose|l: Option<u8>, t: int| #[trigger]
                        nfa::edges(sv).contains((i as int, l, t)) && marks@[t];
                    assert(0 <= t < sv.len()) by {
                        let e: Edge = (i as int, l, t);
                        assert(nfa::edges(sv).contains(e));
                    }
                    lemma_before_accept(sv, i as int, l, t);
                }
                marks.set(i, true);
                changed = true;
            }
            i += 1;
        }
        proof {
            lemma_marked(marks@);
            lemma_marked(m0);
        }
    }
    proof {
        assert forall|q: int| 0 <= q < sv.len() implies (#[trigger] marks@[q]
            <==> comes_to_accept(sv, q)) by {
            if comes_to_accept(sv, q) {
                let (w, t) = choose|w: Seq<u8>, t: int| #[trigger]
                    graph::path(g, q, w, t) && 0 <= t < sv.len() && sv[t].accept is Some;
                let n = choose|n: nat| #[trigger] graph::reach(g, q, w, t, n);
                lemma_all_marked(sv, marks@, q, w, t, n);
            }
        }
    }
    marks
}

/// The state with its edges to marked states alone.
fn trimmed_state(state: &NfaState, marks: &Vec<bool>) -> (r: NfaState)
    requires
        forall|i: int|
            0 <= i < state.epsilon@.len() ==> (#[trigger] state.epsilon@[i]) < marks@.len(),
    ensures
        r.accept == state.accept,
        forall|l: Option<u8>, t: int| #[trigger]
            r.leads(l, t) <==> state.leads(l, t) && 0 <= t < marks@.len() && marks@[t],
{
    let mut epsilon: Vec<usize> = Vec::new();
    let mut i: usize = 0;
    while i < state.epsilon.len()
        invariant
            i <= state.epsilon@.len(),
            forall|k: int|
                0 <= k < state.epsilon@.len() ==> (#[trigger] state.epsilon@[k]) < marks@.len(),
            forall|t: usize| #[trigger]
                epsilon@.contains(t) <==> state.epsilon@.take(i as int).contains(t)
                    && marks@[t as int],
        decreases state.epsilon@.len() - i,
    {
        let t = state.epsilon[i];
        let ghost before = epsilon@;
        assert(state.epsilon@[i as int] < marks@.len());
        if marks[t] {
            epsilon.push(t);
        }
        proof {
            assert(state.epsilon@.take(i + 1) =~= state.epsilon@.take(i as int).push(t));
            assert forall|x: usize| #[trigger] epsilon@.contains(x)
                <==> state.epsilon@.take(i + 1).contains(x) && marks@[x as int] by {
                lemma_push_has(state.epsilon@.take(i as int), t, x);
                lemma_push_has(before, t, x);
                assert(before.contains(x) <==> state.epsilon@.take(i as int).contains(x)
                    && marks@[x as int]);
            }
        }
        i += 1;
    }
    assert(state.epsilon@.take(i as int) =~= state.epsilon@);
    let mut range_trans: Vec<((u8, u8), usize)> = Vec::new();
    let mut j: usize = 0;
    while j < state.range_trans.len()
        invariant
            j <= state.range_trans@.len(),
            forall|x: ((u8, u8), usize)| #[trigger]
                range_trans@.contains(x) <==> state.range_trans@.take(j as int).contains(x) && x.1
                    < marks@.len() && marks@[x.1 as int],
        decreases state.range_trans@.len() - j,
    {
        let x = state.range_trans[j];
        let ghost before = range_trans@;
        if x.1 < marks.len() && marks[x.1] {
            range_trans.push(x);
        }
        proof {
            assert(state.range_trans@.take(j + 1) =~= state.range_trans@.take(j as int).push(x));
            assert forall|y: ((u8, u8), usize)| #[trigger] range_trans@.contains(y)
                <==> state.range_trans@.take(j + 1).contains(y) && y.1 < marks@.len()
                && marks@[y.1 as int] by {
                lemma_push_has(state.range_trans@.take(j as int), x, y);
                lemma_push_has(before, x, y);
                assert(before.contains(y) <==> state.range_trans@.take(j as int).contains(y) && y.1
                    < marks@.len() && marks@[y.1 as int]);
            }
        }
        j += 1;
    }
    assert(state.range_trans@.take(j as int) =~= state.range_trans@);
    let r = NfaState { range_trans, epsilon, accept: state.accept };
    proof {
        assert forall|l: Option<u8>, t: int| #[trigger]
            r.leads(l, t) <==> state.leads(l, t) && 0 <= t < marks@.len() && marks@[t] by {
            match l {
                None => {
                    if r.leads(l, t) {
                        let k = choose|k: int|
                            0 <= k < r.epsilon@.len() && #[trigger] r.epsilon@[k] == t;
                        let x = r.epsilon@[k];
                        assert(epsilon@.contains(x));
                        let m = choose|m: int|
                            0 <= m < state.epsilon@.len() && state.epsilon@[m] == x;
                        assert(state.epsilon@[m] == t);
                    }
                    if state.leads(l, t) && 0 <= t < marks@.len() && marks@[t] {
                        let k = choose|k: int|
                            0 <= k < state.epsilon@.len() && #[trigger] state.epsilon@[k] == t;
                        let x = state.epsilon@[k];
                        assert(state.epsilon@.contains(x));
                        assert(epsilon@.contains(x));
                        let m = choose|m: int| 0 <= m < epsilon@.len() && epsilon@[m] == x;
                        assert(r.epsilon@[m] == t);
                    }
                },
                Some(b) => {
                    if r.leads(l, t) {
                        let k = choose|k: int|
                            0 <= k < r.range_trans@.len() && (#[trigger] r.range_trans@[k]).1 == t
                                && r.range_trans@[k].0.0 <= b <= r.range_trans@[k].0.1;
                        let x = r.range_trans@[k];
                        assert(range_trans@.contains(x));
                        let m = choose|m: int|
                            0 <= m < state.range_trans@.len() && state.range_trans@[m] == x;
                        assert(state.range_trans@[m].1 == t);
                    }
                    if state.leads(l, t) && 0 <= t < marks@.len() && marks@[t] {
                        let k = choose|k: int|
                            0 <= k < state.range_trans@.len() && (
                            #[trigger] state.range_trans@[k]).1 == t
                                && state.range_trans@[k].0.0 <= b <= state.range_trans@[k].0.1;
                        let x = state.range_trans@[k];
                        assert(state.range_trans@.contains(x));
                        assert(range_trans@.contains(x));
                        let m = choose|m: int| 0 <= m < range_trans@.len() && range_trans@[m] == x;
                        assert(r.range_trans@[m].1 == t);
                    }
                },
            }
        }
    }
    r
}

proof fn lemma_push_has<A>(s: Seq<A>, x: A, y: A)
    ensures
        s.push(x).contains(y) <==> s.contains(y) || x == y,
{
    let t = s.push(x);
    if s.contains(y) {
        let i = choose|i: int| 0 <= i < s.len() && s[i] == y;
        assert(t[i] == y);
    }
    if x == y {
        assert(t[s.len() as int] == y);
    }
    if t.contains(y) {
        let i = choose|i: int| 0 <= i < t.len() && t[i] == y;
        if i < s.len() {
            assert(s[i] == y);
        }
    }
}

/// A path to an accepting state stays when the useless states are cut off.
proof fn lemma_path_kept(
    states: Seq<NfaState>,
    h: Set<Edge>,
    q: int,
    w: Seq<u8>,
    t: int,
    n: nat,
)
    requires
        nfa::closed(states),
        0 <= t < states.len(),
        states[t].accept is Some,
        forall|e: Edge| #[trigger]
            nfa::edges(states).contains(e) && comes_to_accept(states, e.2) ==> h.contains(e),
        graph::reach(nfa::edges(states), q, w, t, n),
    ensures
        graph::reach(h, q, w, t, n),
    decreases n,
{
    let g = nfa::edges(states);
    if n > 0 {
        if exists|m: int| #[trigger]
            g.contains((q, None::<u8>, m)) && graph::reach(g, m, w, t, (n - 1) as nat) {
            let m = choose|m: int| #[trigger]
                g.contains((q, None::<u8>, m)) && graph::reach(g, m, w, t, (n - 1) as nat);
            assert(graph::path(g, m, w, t));
            let e: Edge = (q, None::<u8>, m);
            assert(h.contains(e));
            lemma_path_kept(states, h, m, w, t, (n - 1) as nat);
        } else {
            let m = choose|m: int| #[trigger]
                g.contains((q, Some(w[0]), m)) && graph::reach(g, m, w.skip(1), t, (n - 1) as nat);
            assert(graph::path(g, m, w.skip(1), t));
            let e: Edge = (q, Some(w[0]), m);
            assert(h.contains(e));
            lemma_path_kept(states, h, m, w.skip(1), t, (n - 1) as nat);
        }
    }
}

/// A path that reads something ends with an edge.
proof fn lemma_last_edge(h: Set<Edge>, s: int, w: Seq<u8>, q: int, n: nat)
    requires
        n > 0,
        graph::reach(h, s, w, q, n),
    ensures
        exists|p: int, l: Option<u8>| #[trigger] h.contains((p, l, q)),
    decreases n,
{
    if exists|m: int| #[trigger]
        h.contains((s, None::<u8>, m)) && graph::reach(h, m, w, q, (n - 1) as nat) {
        let m = choose|m: int| #[trigger]
            h.contains((s, None::<u8>, m)) && graph::reach(h, m, w, q, (n - 1) as nat);
        if n > 1 {
            lemma_last_edge(h, m, w, q, (n - 1) as nat);
        }
    } else {
        let m = choose|m: int| #[trigger]
            h.contains((s, Some(w[0]), m)) && graph::reach(h, m, w.skip(1), q, (n - 1) as nat);
        if n > 1 {
            lemma_last_edge(h, m, w.skip(1), q, (n - 1) as nat);
        }
    }
}

/// Cut off the states from which no accepting one can be reached: no edge
/// leads to them any more. What is accepted stays the same.
pub fn trim(nfa: Nfa) -> (r: Nfa)
    requires
        nfa::closed(nfa.states@),
        nfa.start < nfa.states@.len(),
    ensures
        nfa::closed(r.states@),
        r.start < r.states@.len(),
        forall|w: Seq<u8>, k: u16| #[trigger] nfa::accepts(r, w, k) <==> nfa::accepts(nfa, w, k),
        trimmed(r),
{
    let marks = useful_states(&nfa.states);
    let ghost sv = nfa.states@;
    let mut states: Vec<NfaState> = Vec::new();
    let mut i: usize = 0;
    while i < nfa.states.len()
        invariant
            i <= nfa.states@.len(),
            sv == nfa.states@,
            nfa::closed(sv),
            marks@.len() == sv.len(),
            states@.len() == i,
            forall|q: int| 0 <= q < i ==> (#[trigger] states@[q]).accept == sv[q].accept,
            forall|q: int, l: Option<u8>, t: int|
                0 <= q < i ==> (#[trigger] states@[q].leads(l, t) <==> sv[q].leads(l, t) && 0 <= t
                    < marks@.len() && marks@[t]),
        decreases nfa.states@.len() - i,
    {
        assert forall|k: int| 0 <= k < sv[i as int].epsilon@.len() implies (
        #[trigger] sv[i as int].epsilon@[k]) < marks@.len() by {
            let e: Edge = (i as int, None::<u8>, sv[i as int].epsilon@[k] as int);
            assert(sv[i as int].leads(e.1, e.2));
            assert(nfa::edges(sv).contains(e));
        }
        states.push(trimmed_state(&nfa.states[i], &marks));
        i += 1;
    }
    let r = Nfa { states, start: nfa.start };
    proof {
        let g = nfa::edges(sv);
        let h = nfa::edges(r.states@);
        assert forall|e: Edge| #[trigger] h.contains(e) <==> g.contains(e) && 0 <= e.2 < sv.len()
            && marks@[e.2] by {
            if 0 <= e.0 < sv.len() {
                assert(r.states@[e.0].leads(e.1, e.2) <==> sv[e.0].leads(e.1, e.2) && 0 <= e.2
                    < marks@.len() && marks@[e.2]);
            }
        }
        assert forall|e: Edge| #[trigger]
            g.contains(e) && comes_to_accept(sv, e.2) implies h.contains(e) by {
            assert(marks@[e.2]);
        }
        assert forall|w: Seq<u8>, k: u16| #[trigger]
            nfa::accepts(r, w, k) <==> nfa::accepts(nfa, w, k) by {
            if nfa::accepts(r, w, k) {
                let q = choose|q: int|
                    0 <= q < r.states@.len() && #[trigger] r.states@[q].accept == Some(k)
                        && graph::path(h, r.start as int, w, q);
                graph::lemma_mono(h, g, r.start as int, w, q);
                assert(sv[q].accept == Some(k));
            }
            if nfa::accepts(nfa, w, k) {
                let q = choose|q: int|
                    0 <= q < sv.len() && #[trigger] sv[q].accept == Some(k) && graph::path(
                        g,
                        nfa.start as int,
                        w,
                        q,
                    );
                let n = choose|n: nat| #[trigger] graph::reach(g, nfa.start as int, w, q, n);
                lemma_path_kept(sv, h, nfa.start as int, w, q, n);
                assert(r.states@[q].accept == Some(k));
                assert(graph::path(h, r.start as int, w, q));
            }
        }
        assert forall|w: Seq<u8>, q: int| #[trigger]
            subset::led_to(r, w, q) && w.len() > 0 implies goes_on(r, w) by {
            let n = choose|n: nat| #[trigger] graph::reach(h, r.start as int, w, q, n);
            lemma_last_edge(h, r.start as int, w, q, n);
            let (p, l) = choose|p: int, l: Option<u8>| #[trigger] h.contains((p, l, q));
            let e: Edge = (p, l, q);
            assert(h.contains(e));
            assert(comes_to_accept(sv, q));
            let (z, t) = choose|z: Seq<u8>, t: int| #[trigger]
                graph::path(g, q, z, t) && 0 <= t < sv.len() && sv[t].accept is Some;
            let m = choose|m: nat| #[trigger] graph::reach(g, q, z, t, m);
            lemma_path_kept(sv, h, q, z, t, m);
            assert(graph::path(h, q, z, t));
            graph::lemma_concat(h, r.start as int, w, q, z, t);
            let k = sv[t].accept->0;
            assert(r.states@[t].accept == Some(k));
            assert(nfa::accepts(r, w + z, k));
        }
    }
    r
}

} // verus!
