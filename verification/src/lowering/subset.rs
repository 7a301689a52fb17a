//! Determinisation of the token automaton.
use vstd::prelude::*;

use crate::lowering::graph;
use crate::lowering::nfa::{self, Nfa, NfaState};
use crate::ordered;

verus! {

/// One state of the deterministic automaton: the state entered on each byte
/// (0 for none; state `i` of the list has number `i + 1`), and the accepted
/// token kind.
pub struct Row {
    pub table: Vec<usize>,
    pub accept: Option<u16>,
}

/// Every transition leads to a state or to 0.
pub open spec fn rows_ok(rows: Seq<Row>) -> bool {
    &&& 0 < rows.len() <= usize::MAX
    &&& forall|i: int| 0 <= i < rows.len() ==> (#[trigger] rows[i]).table@.len() == 256
    &&& forall|i: int, b: int|
        0 <= i < rows.len() && 0 <= b < 256 ==> #[trigger] rows[i].table@[b] <= rows.len()
}

/// The number of the state after reading `w` from state number `id`; 0 if
/// there is none.
pub open spec fn run_rows(rows: Seq<Row>, id: int, w: Seq<u8>) -> int
    decreases w.len(),
{
    if id == 0 || w.len() == 0 {
        id
    } else {
        run_rows(rows, rows[id - 1].table@[w[0] as int] as int, w.skip(1))
    }
}

/// What is seen of the state after reading `w`: none, or what it accepts.
pub open spec fn outcome(rows: Seq<Row>, id: int, w: Seq<u8>) -> Option<Option<u16>> {
    let t = run_rows(rows, id, w);
    if t == 0 {
        None
    } else {
        Some(rows[t - 1].accept)
    }
}

/// The edge reaches `t` on byte `b`.
pub open spec fn active(edges: Seq<((u8, u8), usize)>, b: u8, t: usize) -> bool {
    exists|k: int|
        0 <= k < edges.len() && (#[trigger] edges[k]).1 == t && edges[k].0.0 <= b <= edges[k].0.1
}

/// The targets active on `b`, in ascending order.
pub open spec fn is_active_set(edges: Seq<((u8, u8), usize)>, b: u8, set: Seq<usize>) -> bool {
    &&& ordered::strict(set)
    &&& forall|t: usize| #[trigger] set.contains(t) <==> active(edges, b, t)
}

fn active_targets(edges: &Vec<((u8, u8), usize)>, b: u8) -> (set: Vec<usize>)
    ensures
        is_active_set(edges@, b, set@),
{
    let mut set: Vec<usize> = Vec::new();
    let mut k: usize = 0;
    while k < edges.len()
        invariant
            k <= edges@.len(),
            ordered::strict(set@),
            forall|t: usize| #[trigger] set@.contains(t) <==> active(edges@.take(k as int), b, t),
        decreases edges@.len() - k,
    {
        let ((lo, hi), target) = edges[k];
        let ghost before = set@;
        if lo <= b && b <= hi {
            ordered::insert_usize(&mut set, target);
        }
        proof {
            let e0 = edges@.take(k as int);
            let e1 = edges@.take(k + 1);
            assert forall|t: usize| #[trigger] set@.contains(t) <==> active(e1, b, t) by {
                assert(before.contains(t) <==> active(e0, b, t));
                if active(e0, b, t) {
                    let m = choose|m: int|
                        0 <= m < e0.len() && (#[trigger] e0[m]).1 == t && e0[m].0.0 <= b
                            <= e0[m].0.1;
                    assert(e1[m].1 == t);
                }
                if active(e1, b, t) {
                    let m = choose|m: int|
                        0 <= m < e1.len() && (#[trigger] e1[m]).1 == t && e1[m].0.0 <= b
                            <= e1[m].0.1;
                    if m < k {
                        assert(e0[m].1 == t);
                    }
                }
                assert(e1[k as int] == edges@[k as int]);
            }
        }
        k += 1;
    }
    assert(edges@.take(k as int) =~= edges@);
    set
}

fn same_list(a: &Vec<usize>, b: &Vec<usize>) -> (r: bool)
    ensures
        r == (a@ == b@),
{
    if a.len() != b.len() {
        return false;
    }
    let mut i: usize = 0;
    while i < a.len()
        invariant
            i <= a@.len(),
            a@.len() == b@.len(),
            forall|k: int| 0 <= k < i ==> a@[k] == b@[k],
        decreases a@.len() - i,
    {
        if a[i] != b[i] {
            return false;
        }
        i += 1;
    }
    assert(a@ =~= b@);
    true
}

/// `parts` splits the bytes on which some target is active into maximal
/// intervals of one active set each, in ascending order.
pub open spec fn is_partition(
    edges: Seq<((u8, u8), usize)>,
    upto: int,
    parts: Seq<((u8, u8), Vec<usize>)>,
) -> bool {
    &&& forall|i: int|
        0 <= i < parts.len() ==> (#[trigger] parts[i]).0.0 <= parts[i].0.1 < upto
            && parts[i].1@.len() > 0
    &&& forall|i: int, b: u8|
        0 <= i < parts.len() && parts[i].0.0 <= b <= parts[i].0.1 ==> #[trigger] is_active_set(
            edges,
            b,
            parts[i].1@,
        )
    &&& forall|i: int, j: int|
        0 <= i < j < parts.len() ==> (#[trigger] parts[i]).0.1 < (#[trigger] parts[j]).0.0
    &&& forall|i: int, j: int|
        0 <= i && j == i + 1 && j < parts.len() && (#[trigger] parts[i]).0.1 + 1 == (
        #[trigger] parts[j]).0.0 ==> parts[i].1@ != parts[j].1@
    &&& forall|b: u8, t: usize|
        b < upto && #[trigger] active(edges, b, t) ==> exists|i: int|
            0 <= i < parts.len() && (#[trigger] parts[i]).0.0 <= b <= parts[i].0.1
}

/// The maximal disjoint sub-intervals of the byte ranges, together with the
/// set of targets active on each one.
pub fn partition_ranges(edges: &Vec<((u8, u8), usize)>) -> (parts: Vec<((u8, u8), Vec<usize>)>)
    ensures
        is_partition(edges@, 256, parts@),
{
    let mut parts: Vec<((u8, u8), Vec<usize>)> = Vec::new();
    let mut b: usize = 0;
    while b < 256
        invariant
            b <= 256,
            is_partition(edges@, b as int, parts@),
        decreases 256 - b,
    {
        let byte = b as u8;
        let set = active_targets(edges, byte);
        let ghost before = parts@;
        let n = parts.len();
        if set.len() > 0 {
            let extend = n > 0 && parts[n - 1].0.1 as usize + 1 == b && same_list(
                &parts[n - 1].1,
                &set,
            );
            if extend {
                let lo = parts[n - 1].0.0;
                let ghost last = parts@[n - 1];
                match parts.pop() {
                    Some((_, kept)) => {
                        parts.push(((lo, byte), kept));
                        assert(kept@ == last.1@);
                    },
                    None => {},
                }
                proof {
                    assert(parts@.drop_last() =~= before.drop_last());
                    lemma_part_extend(edges@, b as int, before, parts@);
                }
            } else {
                parts.push(((byte, byte), set));
                proof {
                    assert(parts@.drop_last() =~= before);
                    lemma_part_push(edges@, b as int, before, parts@);
                }
            }
        } else {
            proof {
                assert forall|x: u8, t: usize| x < b + 1 && #[trigger] active(
                    edges@,
                    x,
                    t,
                ) implies exists|i: int|
                    0 <= i < parts@.len() && (#[trigger] parts@[i]).0.0 <= x <= parts@[i].0.1 by {
                    if x == byte {
                        assert(set@.contains(t));
                    }
                }
            }
        }
        b += 1;
    }
    parts
}

proof fn lemma_part_push(
    edges: Seq<((u8, u8), usize)>,
    b: int,
    before: Seq<((u8, u8), Vec<usize>)>,
    after: Seq<((u8, u8), Vec<usize>)>,
)
    requires
        0 <= b < 256,
        is_partition(edges, b, before),
        after.len() == before.len() + 1,
        after.drop_last() == before,
        after.last().0 == (b as u8, b as u8),
        after.last().1@.len() > 0,
        is_active_set(edges, b as u8, after.last().1@),
        before.len() > 0 && before.last().0.1 + 1 == b ==> before.last().1@ != after.last().1@,
    ensures
        is_partition(edges, b + 1, after),
{
    let n = before.len() as int;
    assert forall|i: int| 0 <= i < n implies #[trigger] after[i] == before[i] by {
        assert(after.drop_last()[i] == after[i]);
    }
    assert forall|x: u8, t: usize| x < b + 1 && #[trigger] active(edges, x, t) implies exists|i: int|
        0 <= i < after.len() && (#[trigger] after[i]).0.0 <= x <= after[i].0.1 by {
        if x == b {
            assert(after[n].0.0 <= x);
        } else {
            let i = choose|i: int|
                0 <= i < before.len() && (#[trigger] before[i]).0.0 <= x <= before[i].0.1;
            assert(after[i] == before[i]);
        }
    }
    assert forall|i: int, x: u8|
        0 <= i < after.len() && after[i].0.0 <= x <= after[i].0.1 implies #[trigger] is_active_set(
        edges,
        x,
        after[i].1@,
    ) by {
        if i < n {
            assert(is_active_set(edges, x, before[i].1@));
        } else {
            assert(x == b as u8);
        }
    }
}

proof fn lemma_part_extend(
    edges: Seq<((u8, u8), usize)>,
    b: int,
    before: Seq<((u8, u8), Vec<usize>)>,
    after: Seq<((u8, u8), Vec<usize>)>,
)
    requires
        0 <= b < 256,
        is_partition(edges, b, before),
        before.len() > 0,
        after.len() == before.len(),
        after.drop_last() == before.drop_last(),
        after.last().0 == (before.last().0.0, b as u8),
        after.last().1@ == before.last().1@,
        before.last().0.1 + 1 == b,
        is_active_set(edges, b as u8, after.last().1@),
    ensures
        is_partition(edges, b + 1, after),
{
    let n = before.len() - 1;
    assert forall|i: int| 0 <= i < n implies #[trigger] after[i] == before[i] by {
        assert(after.drop_last()[i] == after[i]);
        assert(before.drop_last()[i] == before[i]);
    }
    assert forall|x: u8, t: usize| x < b + 1 && #[trigger] active(edges, x, t) implies exists|i: int|
        0 <= i < after.len() && (#[trigger] after[i]).0.0 <= x <= after[i].0.1 by {
        if x == b {
            assert(before[n].0.0 <= before[n].0.1);
            assert(after[n].0.0 <= x);
        } else {
            let i = choose|i: int|
                0 <= i < before.len() && (#[trigger] before[i]).0.0 <= x <= before[i].0.1;
            if i < n {
                assert(after[i] == before[i]);
            } else {
                assert(after[n].0.0 <= x <= after[n].0.1);
            }
        }
    }
    assert forall|i: int, x: u8|
        0 <= i < after.len() && after[i].0.0 <= x <= after[i].0.1 implies #[trigger] is_active_set(
        edges,
        x,
        after[i].1@,
    ) by {
        if i < n {
            assert(is_active_set(edges, x, before[i].1@));
        } else if x != b as u8 {
            assert(is_active_set(edges, x, before[n].1@));
        }
    }
}

/// `q` is reached from a marked state without reading.
pub open spec fn eps_reached(states: Seq<NfaState>, seeds: Seq<usize>, q: int) -> bool {
    exists|p: usize|
        seeds.contains(p) && #[trigger] graph::path(
            nfa::edges(states),
            p as int,
            Seq::empty(),
            q,
        )
}

/// The number of unmarked states.
spec fn unmarked(marks: Seq<bool>) -> nat
    decreases marks.len(),
{
    if marks.len() == 0 {
        0
    } else {
        unmarked(marks.drop_last()) + if marks.last() {
            0nat
        } else {
            1nat
        }
    }
}

proof fn lemma_mark(marks: Seq<bool>, i: int)
    requires
        0 <= i < marks.len(),
        !marks[i],
    ensures
        unmarked(marks.update(i, true)) + 1 == unmarked(marks),
    decreases marks.len(),
{
    let after = marks.update(i, true);
    if i == marks.len() - 1 {
        assert(after.drop_last() =~= marks.drop_last());
    } else {
        lemma_mark(marks.drop_last(), i);
        assert(after.drop_last() =~= marks.drop_last().update(i, true));
        assert(after.last() == marks.last());
    }
}

/// Closure under edges that read nothing contains every state so reached.
proof fn lemma_closed_contains(
    states: Seq<NfaState>,
    marks: Seq<bool>,
    p: int,
    q: int,
    w: Seq<u8>,
    n: nat,
)
    requires
        nfa::closed(states),
        marks.len() == states.len(),
        0 <= p < marks.len(),
        marks[p],
        forall|s: int, t: int|
            0 <= s < marks.len() && marks[s] && #[trigger] nfa::edges(states).contains(
                (s, None::<u8>, t),
            ) ==> marks[t],
        w.len() == 0,
        graph::reach(nfa::edges(states), p, w, q, n),
    ensures
        0 <= q < marks.len(),
        marks[q],
    decreases n,
{
    let g = nfa::edges(states);
    if n > 0 {
        let m = choose|m: int| #[trigger]
            g.contains((p, None::<u8>, m)) && graph::reach(g, m, w, q, (n - 1) as nat);
        assert(g.contains((p, None::<u8>, m)));
        lemma_closed_contains(states, marks, m, q, w, (n - 1) as nat);
    }
}

/// The states reached from `seeds` without reading, as marks.
fn epsilon_closure(states: &Vec<NfaState>, seeds: &Vec<usize>) -> (marks: Vec<bool>)
    requires
        nfa::closed(states@),
        forall|i: int| 0 <= i < seeds@.len() ==> #[trigger] seeds@[i] < states@.len(),
    ensures
        marks@.len() == states@.len(),
        forall|q: int|
            0 <= q < states@.len() ==> (#[trigger] marks@[q] <==> eps_reached(
                states@,
                seeds@,
                q,
            )),
        forall|s: int, t: int|
            0 <= s < marks@.len() && marks@[s] && #[trigger] nfa::edges(states@).contains(
                (s, None::<u8>, t),
            ) ==> marks@[t],
{
    let ghost g = nfa::edges(states@);
    let n = states.len();
    let mut marks: Vec<bool> = Vec::new();
    let mut i: usize = 0;
    while i < n
        invariant
            i <= n,
            marks@.len() == i,
            forall|k: int| 0 <= k < i ==> !#[trigger] marks@[k],
        decreases n - i,
    {
        marks.push(false);
        i += 1;
    }
    let mut stack: Vec<usize> = Vec::new();
    let mut j: usize = 0;
    while j < seeds.len()
        invariant
            j <= seeds@.len(),
            n == states@.len(),
            marks@.len() == n,
            g == nfa::edges(states@),
            forall|k: int| 0 <= k < seeds@.len() ==> #[trigger] seeds@[k] < states@.len(),
            forall|k: int| 0 <= k < stack@.len() ==> #[trigger] stack@[k] < n,
            forall|q: int|
                0 <= q < n && #[trigger] marks@[q] ==> stack@.contains(q as usize) && seeds@.contains(
                    q as usize,
                ),
            forall|k: int| 0 <= k < j ==> marks@[(#[trigger] seeds@[k]) as int],
            forall|k: int| 0 <= k < stack@.len() ==> marks@[(#[trigger] stack@[k]) as int],
        decreases seeds@.len() - j,
    {
        let s = seeds[j];
        if !marks[s] {
            let ghost before = stack@;
            let ghost m0 = marks@;
            marks.set(s, true);
            stack.push(s);
            proof {
                assert(stack@[before.len() as int] == s);
                assert(seeds@[j as int] == s);
                assert forall|q: int| 0 <= q < n && #[trigger] marks@[q] implies stack@.contains(
                    q as usize,
                ) && seeds@.contains(q as usize) by {
                    if q != s {
                        assert(m0[q]);
                        let k = choose|k: int| 0 <= k < before.len() && before[k] == q as usize;
                        assert(stack@[k] == q as usize);
                    }
                }
            }
        }
        j += 1;
    }
    proof {
        assert forall|q: int| 0 <= q < n && #[trigger] marks@[q] implies eps_reached(
            states@,
            seeds@,
            q,
        ) by {
            graph::lemma_here(g, q);
            assert(seeds@.contains(q as usize));
            assert(graph::path(g, (q as usize) as int, Seq::empty(), q));
        }
    }
    while stack.len() > 0
        invariant
            n == states@.len(),
            marks@.len() == n,
            g == nfa::edges(states@),
            nfa::closed(states@),
            forall|k: int| 0 <= k < stack@.len() ==> #[trigger] stack@[k] < n,
            forall|k: int| 0 <= k < seeds@.len() ==> marks@[(#[trigger] seeds@[k]) as int],
            forall|k: int| 0 <= k < seeds@.len() ==> #[trigger] seeds@[k] < states@.len(),
            forall|q: int| 0 <= q < n && #[trigger] marks@[q] ==> eps_reached(states@, seeds@, q),
            forall|k: int| 0 <= k < stack@.len() ==> marks@[(#[trigger] stack@[k]) as int],
            forall|s: int, t: int|
                0 <= s < n && marks@[s] && !stack@.contains(s as usize) && #[trigger] g.contains(
                    (s, None::<u8>, t),
                ) ==> marks@[t],
        decreases unmarked(marks@), stack@.len(),
    {
        let ghost st0 = stack@;
        let ghost mk0 = marks@;
        let popped = stack.pop();
        let s: usize = match popped {
            Some(s) => s,
            None => 0,
        };
        assert(st0.last() == s);
        assert(st0[st0.len() - 1] == s);
        let ghost rest = stack@;
        proof {
            assert forall|x: usize| st0.contains(x) implies rest.contains(x) || x == s by {
                let k = choose|k: int| 0 <= k < st0.len() && st0[k] == x;
                if k < rest.len() {
                    assert(rest[k] == x);
                }
            }
        }
        let mut e: usize = 0;
        while e < states[s].epsilon.len()
            invariant
                n == states@.len(),
                s < n,
                marks@.len() == n,
                g == nfa::edges(states@),
                nfa::closed(states@),
                e <= states@[s as int].epsilon@.len(),
                marks@[s as int],
                forall|k: int| 0 <= k < stack@.len() ==> #[trigger] stack@[k] < n,
                forall|k: int| 0 <= k < seeds@.len() ==> marks@[(#[trigger] seeds@[k]) as int],
                forall|k: int| 0 <= k < seeds@.len() ==> #[trigger] seeds@[k] < states@.len(),
                forall|q: int|
                    0 <= q < n && #[trigger] marks@[q] ==> eps_reached(states@, seeds@, q),
                forall|k: int| 0 <= k < stack@.len() ==> marks@[(#[trigger] stack@[k]) as int],
                forall|p: int, t: int|
                    0 <= p < n && marks@[p] && p != s && !stack@.contains(p as usize)
                        && #[trigger] g.contains((p, None::<u8>, t)) ==> marks@[t],
                forall|k: int|
                    0 <= k < e ==> (#[trigger] states@[s as int].epsilon@[k]) < n
                        && marks@[states@[s as int].epsilon@[k] as int],
                unmarked(marks@) < unmarked(mk0) || (unmarked(marks@) == unmarked(mk0)
                    && stack@.len() == rest.len()),
            decreases states@[s as int].epsilon@.len() - e,
        {
            let t = states[s].epsilon[e];
            proof {
                assert(states@[s as int].leads(None, t as int));
                assert(g.contains((s as int, None::<u8>, t as int)));
            }
            if !marks[t] {
                let ghost mk1 = marks@;
                let ghost st1 = stack@;
                marks.set(t, true);
                stack.push(t);
                proof {
                    lemma_mark(mk1, t as int);
                    assert(stack@[st1.len() as int] == t);
                    assert forall|x: usize| st1.contains(x) implies stack@.contains(x) by {
                        let k = choose|k: int| 0 <= k < st1.len() && st1[k] == x;
                        assert(stack@[k] == x);
                    }
                    assert(eps_reached(states@, seeds@, t as int)) by {
                        assert(eps_reached(states@, seeds@, s as int));
                        let p = choose|p: usize|
                            seeds@.contains(p) && #[trigger] graph::path(
                                g,
                                p as int,
                                Seq::empty(),
                                s as int,
                            );
                        graph::lemma_here(g, t as int);
                        graph::lemma_eps_step(g, s as int, t as int, Seq::empty(), t as int);
                        graph::lemma_concat(
                            g,
                            p as int,
                            Seq::empty(),
                            s as int,
                            Seq::empty(),
                            t as int,
                        );
                        assert(Seq::<u8>::empty() + Seq::<u8>::empty() =~= Seq::<u8>::empty());
                        assert(graph::path(g, p as int, Seq::empty(), t as int));
                    }
                    assert forall|p: int, r: int|
                        0 <= p < n && marks@[p] && p != s && !stack@.contains(p as usize)
                            && #[trigger] g.contains((p, None::<u8>, r)) implies marks@[r] by {
                        if p == t {
                            assert(stack@.contains(t));
                        } else {
                            assert(mk1[p]);
                            assert(!st1.contains(p as usize));
                        }
                    }
                }
            }
            e += 1;
        }
        proof {
            assert forall|p: int, t: int|
                0 <= p < n && marks@[p] && !stack@.contains(p as usize) && #[trigger] g.contains(
                    (p, None::<u8>, t),
                ) implies marks@[t] by {
                if p == s {
                    let k = choose|k: int|
                        0 <= k < states@[p].epsilon@.len() && #[trigger] states@[p].epsilon@[k]
                            == t;
                    assert(marks@[states@[s as int].epsilon@[k] as int]);
                }
            }
        }
    }
    proof {
        assert forall|q: int|
            0 <= q < states@.len() implies (#[trigger] marks@[q] <==> eps_reached(
            states@,
            seeds@,
            q,
        )) by {
            if eps_reached(states@, seeds@, q) {
                let p = choose|p: usize|
                    seeds@.contains(p) && #[trigger] graph::path(g, p as int, Seq::empty(), q);
                let k = choose|k: int| 0 <= k < seeds@.len() && seeds@[k] == p;
                assert(marks@[seeds@[k] as int]);
                let m = choose|m: nat| #[trigger] graph::reach(
                    g,
                    p as int,
                    Seq::empty(),
                    q,
                    m,
                );
                lemma_closed_contains(states@, marks@, p as int, q, Seq::empty(), m);
            }
        }
    }
    marks
}

/// `a` is the smallest kind that a marked state accepts.
pub open spec fn is_best(states: Seq<NfaState>, marks: Seq<bool>, a: Option<u16>) -> bool {
    match a {
        None => forall|q: int|
            0 <= q < marks.len() && marks[q] ==> (#[trigger] states[q]).accept is None,
        Some(k) => {
            &&& exists|q: int|
                0 <= q < marks.len() && marks[q] && (#[trigger] states[q]).accept == Some(k)
            &&& forall|q: int|
                0 <= q < marks.len() && marks[q] && (#[trigger] states[q]).accept is Some ==> k
                    <= states[q].accept->0
        },
    }
}

/// The smallest kind accepted by the marked states: where a state accepts
/// several kinds, the token declared first wins.
fn smallest_accept(states: &Vec<NfaState>, marks: &Vec<bool>) -> (a: Option<u16>)
    requires
        states@.len() == marks@.len(),
    ensures
        is_best(states@, marks@, a),
{
    let mut a: Option<u16> = None;
    let mut i: usize = 0;
    while i < marks.len()
        invariant
            i <= marks@.len(),
            states@.len() == marks@.len(),
            is_best(states@, marks@.take(i as int), a),
        decreases marks@.len() - i,
    {
        let ghost a0 = a;
        let ghost m0 = marks@.take(i as int);
        let ghost m1 = marks@.take(i + 1);
        if marks[i] {
            if let Some(k) = states[i].accept {
                a = match a {
                    Some(prev) => if prev <= k {
                        Some(prev)
                    } else {
                        Some(k)
                    },
                    None => Some(k),
                };
            }
        }
        proof {
            assert forall|q: int| 0 <= q < i implies m1[q] == m0[q] by {}
            match a {
                None => {},
                Some(k) => {
                    if a0 == a {
                        let q = choose|q: int|
                            0 <= q < m0.len() && m0[q] && (#[trigger] states@[q]).accept == Some(k);
                        assert(m1[q] && states@[q].accept == Some(k));
                    } else {
                        assert(m1[i as int] && states@[i as int].accept == Some(k));
                    }
                },
            }
        }
        i += 1;
    }
    assert(marks@.take(i as int) =~= marks@);
    a
}

/// Some marked state leads to `t` on byte `b`.
pub open spec fn step_target(states: Seq<NfaState>, marks: Seq<bool>, b: u8, t: int) -> bool {
    exists|s: int|
        0 <= s < marks.len() && marks[s] && #[trigger] nfa::edges(states).contains((s, Some(b), t))
}

/// The byte ranges that lead out of the marked states.
fn outgoing(states: &Vec<NfaState>, marks: &Vec<bool>) -> (out: Vec<((u8, u8), usize)>)
    requires
        states@.len() == marks@.len(),
        nfa::closed(states@),
    ensures
        forall|b: u8, t: usize| #[trigger]
            active(out@, b, t) <==> step_target(states@, marks@, b, t as int),
{
    let mut out: Vec<((u8, u8), usize)> = Vec::new();
    let mut s: usize = 0;
    while s < marks.len()
        invariant
            s <= marks@.len(),
            states@.len() == marks@.len(),
            forall|b: u8, t: usize| #[trigger]
                active(out@, b, t) <==> step_target(states@, marks@.take(s as int), b, t as int),
        decreases marks@.len() - s,
    {
        let ghost before = out@;
        if marks[s] {
            let mut k: usize = 0;
            while k < states[s].range_trans.len()
                invariant
                    s < states@.len(),
                    k <= states@[s as int].range_trans@.len(),
                    forall|b: u8, t: usize| #[trigger]
                        active(out@, b, t) <==> active(before, b, t) || active(
                            states@[s as int].range_trans@.take(k as int),
                            b,
                            t,
                        ),
                decreases states@[s as int].range_trans@.len() - k,
            {
                let ghost cur = out@;
                let ghost rt = states@[s as int].range_trans@;
                out.push(states[s].range_trans[k]);
                proof {
                    assert forall|b: u8, t: usize| #[trigger]
                        active(out@, b, t) <==> active(before, b, t) || active(
                            rt.take(k + 1),
                            b,
                            t,
                        ) by {
                        lemma_active_push(cur, rt[k as int], b, t);
                        lemma_active_push(rt.take(k as int), rt[k as int], b, t);
                        assert(rt.take(k + 1) =~= rt.take(k as int).push(rt[k as int]));
                        assert(active(cur, b, t) <==> active(before, b, t) || active(
                            rt.take(k as int),
                            b,
                            t,
                        ));
                    }
                }
                k += 1;
            }
            assert(states@[s as int].range_trans@.take(k as int)
                =~= states@[s as int].range_trans@);
        }
        proof {
            let m0 = marks@.take(s as int);
            let m1 = marks@.take(s + 1);
            let g = nfa::edges(states@);
            assert forall|b: u8, t: usize| #[trigger]
                active(out@, b, t) <==> step_target(states@, m1, b, t as int) by {
                assert(active(before, b, t) <==> step_target(states@, m0, b, t as int));
                assert(marks@[s as int] ==> (g.contains((s as int, Some(b), t as int)) <==> active(
                    states@[s as int].range_trans@,
                    b,
                    t,
                ))) by {
                    lemma_leads_active(states@[s as int], b, t);
                }
                if step_target(states@, m0, b, t as int) {
                    let p = choose|p: int|
                        0 <= p < m0.len() && m0[p] && #[trigger] g.contains((p, Some(b), t as int));
                    assert(m1[p] && g.contains((p, Some(b), t as int)));
                }
                if step_target(states@, m1, b, t as int) {
                    let p = choose|p: int|
                        0 <= p < m1.len() && m1[p] && #[trigger] g.contains((p, Some(b), t as int));
                    if p < s {
                        assert(m0[p] && g.contains((p, Some(b), t as int)));
                    }
                }
                assert(m1[s as int] == marks@[s as int]);
            }
        }
        s += 1;
    }
    assert(marks@.take(s as int) =~= marks@);
    out
}

proof fn lemma_active_push(e: Seq<((u8, u8), usize)>, x: ((u8, u8), usize), b: u8, t: usize)
    ensures
        active(e.push(x), b, t) <==> active(e, b, t) || (x.1 == t && x.0.0 <= b <= x.0.1),
{
    let f = e.push(x);
    if active(e, b, t) {
        let k = choose|k: int|
            0 <= k < e.len() && (#[trigger] e[k]).1 == t && e[k].0.0 <= b <= e[k].0.1;
        assert(f[k].1 == t);
    }
    if x.1 == t && x.0.0 <= b <= x.0.1 {
        assert(f[e.len() as int].1 == t);
    }
    if active(f, b, t) {
        let k = choose|k: int|
            0 <= k < f.len() && (#[trigger] f[k]).1 == t && f[k].0.0 <= b <= f[k].0.1;
        if k < e.len() {
            assert(e[k].1 == t);
        }
    }
}

proof fn lemma_leads_active(s: NfaState, b: u8, t: usize)
    ensures
        s.leads(Some(b), t as int) <==> active(s.range_trans@, b, t),
{
    if s.leads(Some(b), t as int) {
        let i = choose|i: int|
            0 <= i < s.range_trans@.len() && (#[trigger] s.range_trans@[i]).1 == t as int
                && s.range_trans@[i].0.0 <= b <= s.range_trans@[i].0.1;
        assert(s.range_trans@[i].1 == t);
    }
    if active(s.range_trans@, b, t) {
        let i = choose|i: int|
            0 <= i < s.range_trans@.len() && (#[trigger] s.range_trans@[i]).1 == t
                && s.range_trans@[i].0.0 <= b <= s.range_trans@[i].0.1;
        assert(s.range_trans@[i].1 == t as int);
    }
}

/// `next` marks what is reached from `marks` by reading `b` and then nothing.
pub open spec fn is_step(states: Seq<NfaState>, marks: Seq<bool>, b: u8, next: Seq<bool>) -> bool {
    &&& next.len() == states.len()
    &&& forall|q: int|
        0 <= q < states.len() ==> (#[trigger] next[q] <==> exists|t: int| #[trigger]
            step_target(states, marks, b, t) && graph::path(
                nfa::edges(states),
                t,
                Seq::empty(),
                q,
            ))
}

/// Each marked set is closed under edges that read nothing.
pub open spec fn set_closed(states: Seq<NfaState>, marks: Seq<bool>) -> bool {
    &&& marks.len() == states.len()
    &&& forall|s: int, t: int|
        0 <= s < marks.len() && marks[s] && #[trigger] nfa::edges(states).contains(
            (s, None::<u8>, t),
        ) ==> marks[t]
}

/// The transitions lead to the sets that the bytes lead to.
spec fn row_ok(
    states: Seq<NfaState>,
    sets: Seq<Vec<bool>>,
    marks: Seq<bool>,
    table: Seq<usize>,
    b: u8,
) -> bool {
    let id = table[b as int];
    &&& id == 0 ==> forall|t: int| !#[trigger] step_target(states, marks, b, t)
    &&& id != 0 ==> id <= sets.len() && is_step(states, marks, b, sets[id - 1]@)
}

/// The first number whose set is `marks`; none if there is no such set.
fn find_set(sets: &Vec<Vec<bool>>, marks: &Vec<bool>) -> (r: Option<usize>)
    ensures
        match r {
            Some(i) => i < sets@.len() && sets@[i as int]@ == marks@ && forall|k: int|
                0 <= k < i ==> (#[trigger] sets@[k])@ != marks@,
            None => forall|k: int| 0 <= k < sets@.len() ==> (#[trigger] sets@[k])@ != marks@,
        },
{
    let mut i: usize = 0;
    while i < sets.len()
        invariant
            i <= sets@.len(),
            forall|k: int| 0 <= k < i ==> (#[trigger] sets@[k])@ != marks@,
        decreases sets@.len() - i,
    {
        let a = &sets[i];
        let mut same = a.len() == marks.len();
        let mut j: usize = 0;
        while same && j < a.len()
            invariant
                same ==> a@.len() == marks@.len(),
                same ==> forall|k: int| 0 <= k < j ==> a@[k] == marks@[k],
                !same ==> a@ != marks@,
                j <= a@.len(),
            decreases a@.len() - j, (if same { 1int } else { 0int }),
        {
            if a[j] != marks[j] {
                same = false;
            } else {
                j += 1;
            }
        }
        if same {
            assert(a@ =~= marks@);
            return Some(i);
        }
        i += 1;
    }
    None
}

pub(crate) fn zero_table() -> (t: Vec<usize>)
    ensures
        t@.len() == 256,
        forall|i: int| 0 <= i < 256 ==> #[trigger] t@[i] == 0,
{
    let mut t: Vec<usize> = Vec::new();
    let mut i: usize = 0;
    while i < 256
        invariant
            i <= 256,
            t@.len() == i,
            forall|k: int| 0 <= k < i ==> #[trigger] t@[k] == 0,
        decreases 256 - i,
    {
        t.push(0);
        i += 1;
    }
    t
}

/// `q` is reached from a marked state by reading `w`.
spec fn from_set(states: Seq<NfaState>, marks: Seq<bool>, w: Seq<u8>, q: int) -> bool {
    exists|p: int|
        0 <= p < marks.len() && marks[p] && #[trigger] graph::path(nfa::edges(states), p, w, q)
}

/// Reading from a closed set begins with a byte out of the set.
proof fn lemma_front(
    states: Seq<NfaState>,
    marks: Seq<bool>,
    p: int,
    w: Seq<u8>,
    q: int,
    n: nat,
)
    requires
        nfa::closed(states),
        set_closed(states, marks),
        0 <= p < marks.len(),
        marks[p],
        w.len() > 0,
        graph::reach(nfa::edges(states), p, w, q, n),
    ensures
        exists|t: int| #[trigger]
            step_target(states, marks, w[0], t) && graph::path(
                nfa::edges(states),
                t,
                w.skip(1),
                q,
            ),
    decreases n,
{
    let g = nfa::edges(states);
    if exists|m: int| #[trigger]
        g.contains((p, None::<u8>, m)) && graph::reach(g, m, w, q, (n - 1) as nat) {
        let m = choose|m: int| #[trigger]
            g.contains((p, None::<u8>, m)) && graph::reach(g, m, w, q, (n - 1) as nat);
        lemma_front(states, marks, m, w, q, (n - 1) as nat);
    } else {
        let m = choose|m: int| #[trigger]
            g.contains((p, Some(w[0]), m)) && graph::reach(g, m, w.skip(1), q, (n - 1) as nat);
        assert(step_target(states, marks, w[0], m));
        assert(graph::path(g, m, w.skip(1), q));
    }
}

/// After reading `w` the table is in the state of the set that `w` leads to.
proof fn lemma_run(
    states: Seq<NfaState>,
    sets: Seq<Vec<bool>>,
    rows: Seq<Row>,
    k: int,
    w: Seq<u8>,
)
    requires
        nfa::closed(states),
        sets.len() == rows.len(),
        0 <= k < rows.len(),
        forall|i: int| 0 <= i < sets.len() ==> set_closed(states, (#[trigger] sets[i])@),
        forall|i: int, b: u8|
            0 <= i < rows.len() ==> #[trigger] row_ok(states, sets, sets[i]@, rows[i].table@, b),
    ensures
        0 <= run_rows(rows, k + 1, w) <= rows.len(),
        run_rows(rows, k + 1, w) == 0 ==> forall|q: int|
            !#[trigger] from_set(states, sets[k]@, w, q),
        run_rows(rows, k + 1, w) > 0 ==> forall|q: int|
            0 <= q < states.len() ==> (#[trigger] sets[run_rows(rows, k + 1, w) - 1]@[q]
                <==> from_set(states, sets[k]@, w, q)),
    decreases w.len(),
{
    let g = nfa::edges(states);
    let marks = sets[k]@;
    assert(set_closed(states, marks));
    if w.len() == 0 {
        assert(w =~= Seq::<u8>::empty());
        assert forall|q: int| 0 <= q < states.len() implies (#[trigger] marks[q] <==> from_set(
            states,
            marks,
            w,
            q,
        )) by {
            if marks[q] {
                graph::lemma_here(g, q);
                assert(graph::path(g, q, w, q));
            }
            if from_set(states, marks, w, q) {
                let p = choose|p: int|
                    0 <= p < marks.len() && marks[p] && #[trigger] graph::path(g, p, w, q);
                let m = choose|m: nat| #[trigger] graph::reach(g, p, w, q, m);
                lemma_closed_contains(states, marks, p, q, w, m);
            }
        }
    } else {
        let b = w[0];
        let v = w.skip(1);
        let id = rows[k].table@[b as int] as int;
        assert(row_ok(states, sets, marks, rows[k].table@, b));
        assert forall|q: int| #[trigger] from_set(states, marks, w, q) <==> exists|t: int| #[trigger]
            step_target(states, marks, b, t) && graph::path(g, t, v, q) by {
            if from_set(states, marks, w, q) {
                let p = choose|p: int|
                    0 <= p < marks.len() && marks[p] && #[trigger] graph::path(g, p, w, q);
                let m = choose|m: nat| #[trigger] graph::reach(g, p, w, q, m);
                lemma_front(states, marks, p, w, q, m);
            }
            if exists|t: int| #[trigger]
                step_target(states, marks, b, t) && graph::path(g, t, v, q) {
                let t = choose|t: int| #[trigger]
                    step_target(states, marks, b, t) && graph::path(g, t, v, q);
                let p = choose|p: int|
                    0 <= p < marks.len() && marks[p] && #[trigger] g.contains((p, Some(b), t));
                graph::lemma_byte_step(g, p, t, w, q);
                assert(graph::path(g, p, w, q));
            }
        }
        if id != 0 {
            let next = sets[id - 1]@;
            lemma_run(states, sets, rows, id - 1, v);
            assert forall|q: int| #[trigger] from_set(states, marks, w, q) <==> from_set(
                states,
                next,
                v,
                q,
            ) by {
                if from_set(states, marks, w, q) {
                    let t = choose|t: int| #[trigger]
                        step_target(states, marks, b, t) && graph::path(g, t, v, q);
                    let p = choose|p: int|
                        0 <= p < marks.len() && marks[p] && #[trigger] g.contains((p, Some(b), t));
                    graph::lemma_here(g, t);
                    assert(next[t]);
                    assert(graph::path(g, t, v, q));
                }
                if from_set(states, next, v, q) {
                    let x = choose|x: int|
                        0 <= x < next.len() && next[x] && #[trigger] graph::path(g, x, v, q);
                    let t = choose|t: int| #[trigger]
                        step_target(states, marks, b, t) && graph::path(g, t, Seq::empty(), x);
                    graph::lemma_concat(g, t, Seq::empty(), x, v, q);
                    assert(Seq::<u8>::empty() + v =~= v);
                    assert(step_target(states, marks, b, t) && graph::path(g, t, v, q));
                }
            }
            assert(run_rows(rows, k + 1, w) == run_rows(rows, id, v));
            if run_rows(rows, id, v) == 0 {
                assert forall|q: int| !#[trigger] from_set(states, marks, w, q) by {
                    assert(!from_set(states, next, v, q));
                }
            }
        } else {
            assert(run_rows(rows, 0, v) == 0);
        }
    }
}

/// `a` is the smallest kind of the tokens automaton's accepting states on `w`.
pub open spec fn best_on(nfa: Nfa, w: Seq<u8>, a: Option<u16>) -> bool {
    match a {
        None => forall|k: u16| !#[trigger] nfa::accepts(nfa, w, k),
        Some(k) => nfa::accepts(nfa, w, k) && forall|j: u16| #[trigger]
            nfa::accepts(nfa, w, j) ==> k <= j,
    }
}

/// The accepted kind, if there is a state and it accepts.
pub open spec fn kind_of(o: Option<Option<u16>>) -> Option<u16> {
    match o {
        None => None,
        Some(a) => a,
    }
}

/// The states found so far: every set is closed, holds what its row accepts,
/// and the rows before `done` have their transitions.
spec fn found_ok(states: Seq<NfaState>, sets: Seq<Vec<bool>>, rows: Seq<Row>, done: int) -> bool {
    &&& sets.len() == rows.len()
    &&& rows_ok(rows)
    &&& forall|i: int| 0 <= i < sets.len() ==> set_closed(states, (#[trigger] sets[i])@)
    &&& forall|i: int|
        0 <= i < sets.len() ==> is_best(states, (#[trigger] sets[i])@, rows[i].accept)
    &&& forall|i: int, b: u8|
        0 <= i < done ==> #[trigger] row_ok(states, sets, sets[i]@, rows[i].table@, b)
}

/// A new set leaves the earlier rows in order.
proof fn lemma_found_push(
    states: Seq<NfaState>,
    sets: Seq<Vec<bool>>,
    rows: Seq<Row>,
    done: int,
    set: Vec<bool>,
    row: Row,
)
    requires
        found_ok(states, sets, rows, done),
        0 <= done <= rows.len(),
        rows.len() + 1 <= usize::MAX,
        set_closed(states, set@),
        is_best(states, set@, row.accept),
        row.table@.len() == 256,
        forall|b: int| 0 <= b < 256 ==> #[trigger] row.table@[b] == 0,
    ensures
        found_ok(states, sets.push(set), rows.push(row), done),
{
    let s1 = sets.push(set);
    let r1 = rows.push(row);
    assert forall|i: int, b: u8| 0 <= i < done implies #[trigger] row_ok(
        states,
        s1,
        s1[i]@,
        r1[i].table@,
        b,
    ) by {
        assert(row_ok(states, sets, sets[i]@, rows[i].table@, b));
        assert(s1[i] == sets[i]);
        assert(r1[i] == rows[i]);
        let id = rows[i].table@[b as int];
        if id != 0 {
            assert(s1[id - 1] == sets[id - 1]);
        }
    }
    assert forall|i: int| 0 <= i < s1.len() implies set_closed(states, (#[trigger] s1[i])@) by {
        if i < sets.len() {
            assert(s1[i] == sets[i]);
        }
    }
    assert forall|i: int| 0 <= i < s1.len() implies is_best(
        states,
        (#[trigger] s1[i])@,
        r1[i].accept,
    ) by {
        if i < sets.len() {
            assert(s1[i] == sets[i]);
        }
    }
    assert forall|i: int, b: int| 0 <= i < r1.len() && 0 <= b < 256 implies
        #[trigger] r1[i].table@[b] <= r1.len() by {
        if i < rows.len() {
            assert(rows[i].table@[b] <= rows.len());
        }
    }
}

/// The set that `targets` lead to without reading is what byte `b` leads to.
proof fn lemma_closure_is_step(
    states: Seq<NfaState>,
    marks: Seq<bool>,
    edges: Seq<((u8, u8), usize)>,
    targets: Seq<usize>,
    b: u8,
    next: Seq<bool>,
)
    requires
        nfa::closed(states),
        states.len() <= usize::MAX,
        forall|t: usize| #[trigger]
            active(edges, b, t) <==> step_target(states, marks, b, t as int),
        is_active_set(edges, b, targets),
        next.len() == states.len(),
        forall|q: int|
            0 <= q < states.len() ==> (#[trigger] next[q] <==> eps_reached(states, targets, q)),
    ensures
        is_step(states, marks, b, next),
{
    let g = nfa::edges(states);
    assert forall|q: int| 0 <= q < states.len() implies (#[trigger] next[q] <==> exists|t: int| #[trigger]
        step_target(states, marks, b, t) && graph::path(g, t, Seq::empty(), q)) by {
        if next[q] {
            let p = choose|p: usize|
                targets.contains(p) && #[trigger] graph::path(g, p as int, Seq::empty(), q);
            assert(active(edges, b, p));
            assert(step_target(states, marks, b, p as int));
        }
        if exists|t: int| #[trigger]
            step_target(states, marks, b, t) && graph::path(g, t, Seq::empty(), q) {
            let t = choose|t: int| #[trigger]
                step_target(states, marks, b, t) && graph::path(g, t, Seq::empty(), q);
            let s = choose|s: int|
                0 <= s < marks.len() && marks[s] && #[trigger] g.contains((s, Some(b), t));
            assert(0 <= t < states.len());
            let p = t as usize;
            assert(active(edges, b, p));
            assert(targets.contains(p));
            assert(graph::path(g, p as int, Seq::empty(), q));
        }
    }
}

/// The tables of the first `n` rows.
pub open spec fn tables_of(rows: Seq<Row>, n: nat) -> Seq<Seq<usize>> {
    Seq::new(n, |i: int| rows[i].table@)
}

/// Going through the tables one by one and byte by byte, the number comes up
/// first at byte `b` of table `r`: all that came before are smaller.
pub open spec fn first_met(tables: Seq<Seq<usize>>, k: int, r: int, b: int) -> bool {
    &&& 0 <= r < tables.len()
    &&& r + 1 < k
    &&& 0 <= b < 256
    &&& tables[r][b] == k
    &&& forall|x: int, y: int|
        0 <= x <= r && 0 <= y < 256 && (x < r || y < b) ==> (#[trigger] tables[x][y]) < k
}

/// The number comes up, and all that came before are smaller.
pub open spec fn met(tables: Seq<Seq<usize>>, k: int) -> bool {
    exists|r: int, b: int| #[trigger] first_met(tables, k, r, b)
}

/// The states are numbered in the order in which they are met: from the first
/// state on, one state after the other and byte by byte.
pub open spec fn numbered_as_met(rows: Seq<Row>) -> bool {
    forall|k: int| 2 <= k <= rows.len() ==> #[trigger] met(tables_of(rows, rows.len()), k)
}

/// A number that was met is still met when something is filled in behind it.
proof fn lemma_still_met(before: Seq<Seq<usize>>, after: Seq<Seq<usize>>, k: int, from: int)
    requires
        k > 0,
        met(before, k),
        before.len() > 0,
        before.len() == after.len(),
        forall|x: int, y: int|
            0 <= x < before.len() && 0 <= y < 256 && (x < before.len() - 1 || y < from)
                ==> #[trigger] after[x][y] == before[x][y],
        forall|y: int| from <= y < 256 ==> (#[trigger] before[before.len() - 1][y]) == 0,
    ensures
        met(after, k),
{
    let (r, b) = choose|r: int, b: int| #[trigger] first_met(before, k, r, b);
    if r == before.len() - 1 && b >= from {
        assert(before[before.len() - 1][b] == 0);
    }
    assert(after[r][b] == before[r][b]);
    assert forall|x: int, y: int|
        0 <= x <= r && 0 <= y < 256 && (x < r || y < b) implies (#[trigger] after[x][y]) < k by {
        assert(after[x][y] == before[x][y]);
        assert(before[x][y] < k);
    }
    assert(first_met(after, k, r, b));
}

/// A number that was met is still met when a table comes behind.
proof fn lemma_met_behind(tables: Seq<Seq<usize>>, more: Seq<usize>, k: int)
    requires
        met(tables, k),
    ensures
        met(tables.push(more), k),
{
    let (r, b) = choose|r: int, b: int| #[trigger] first_met(tables, k, r, b);
    let after = tables.push(more);
    assert forall|x: int, y: int|
        0 <= x <= r && 0 <= y < 256 && (x < r || y < b) implies (#[trigger] after[x][y]) < k by {
        assert(after[x] == tables[x]);
        assert(tables[x][y] < k);
    }
    assert(first_met(after, k, r, b));
}

/// Filling in a number that is known, or the next new one, keeps the order.
proof fn lemma_filled(
    done: Seq<Seq<usize>>,
    t0: Seq<usize>,
    t1: Seq<usize>,
    before: int,
    after: int,
    id: usize,
    lo: int,
    hi: int,
)
    requires
        t0.len() == 256,
        t1.len() == 256,
        0 <= lo <= hi < 256,
        done.len() < before,
        before <= after <= before + 1,
        0 < id <= after,
        after == before + 1 ==> id == after,
        forall|x: int, y: int|
            0 <= x < done.len() && 0 <= y < 256 ==> (#[trigger] done[x][y]) <= before,
        forall|y: int| 0 <= y < 256 ==> (#[trigger] t0[y]) <= before,
        forall|y: int| lo <= y < 256 ==> #[trigger] t0[y] == 0,
        forall|y: int| lo <= y <= hi ==> #[trigger] t1[y] == id,
        forall|y: int| 0 <= y < 256 && !(lo <= y <= hi) ==> #[trigger] t1[y] == t0[y],
        forall|k: int| 2 <= k <= before ==> #[trigger] met(done.push(t0), k),
    ensures
        forall|k: int| 2 <= k <= after ==> #[trigger] met(done.push(t1), k),
{
    let a = done.push(t0);
    let b = done.push(t1);
    assert forall|k: int| 2 <= k <= after implies #[trigger] met(b, k) by {
        if k <= before {
            assert(met(a, k));
            assert forall|x: int, y: int|
                0 <= x < a.len() && 0 <= y < 256 && (x < a.len() - 1 || y < lo) implies
                #[trigger] b[x][y] == a[x][y] by {
                if x < done.len() {
                    assert(a[x] == done[x] && b[x] == done[x]);
                } else {
                    assert(t1[y] == t0[y]);
                }
            }
            assert forall|y: int| lo <= y < 256 implies (#[trigger] a[a.len() - 1][y]) == 0 by {
                assert(t0[y] == 0);
            }
            lemma_still_met(a, b, k, lo);
        } else {
            let r = done.len() as int;
            assert(b[r][lo] == t1[lo]);
            assert forall|x: int, y: int|
                0 <= x <= r && 0 <= y < 256 && (x < r || y < lo) implies (#[trigger] b[x][y]) < k by {
                if x < r {
                    assert(b[x] == done[x]);
                    assert(done[x][y] <= before);
                } else {
                    assert(t1[y] == t0[y]);
                }
            }
            assert(first_met(b, k, r, lo));
        }
    }
}

/// Some string leads from the first state to that of the number.
pub open spec fn reached(rows: Seq<Row>, k: int) -> bool {
    exists|w: Seq<u8>| #[trigger] run_rows(rows, 1, w) == k
}

pub proof fn lemma_run_joined(rows: Seq<Row>, id: int, u: Seq<u8>, v: Seq<u8>)
    ensures
        run_rows(rows, id, u + v) == run_rows(rows, run_rows(rows, id, u), v),
    decreases u.len(),
{
    if u.len() == 0 || id == 0 {
        assert(u.len() == 0 ==> u + v =~= v);
    } else {
        assert((u + v).skip(1) =~= u.skip(1) + v);
        assert((u + v)[0] == u[0]);
        lemma_run_joined(rows, rows[id - 1].table@[u[0] as int] as int, u.skip(1), v);
    }
}

/// Every state that is numbered as it is met can be reached.
pub proof fn lemma_met_is_reached(rows: Seq<Row>, k: int)
    requires
        numbered_as_met(rows),
        1 <= k <= rows.len(),
    ensures
        reached(rows, k),
    decreases k,
{
    if k == 1 {
        assert(run_rows(rows, 1, Seq::empty()) == 1);
    } else {
        let tables = tables_of(rows, rows.len());
        assert(met(tables, k));
        let (r, b) = choose|r: int, b: int| #[trigger] first_met(tables, k, r, b);
        lemma_met_is_reached(rows, r + 1);
        let w = choose|w: Seq<u8>| #[trigger] run_rows(rows, 1, w) == r + 1;
        let one = seq![b as u8];
        lemma_run_joined(rows, 1, w, one);
        reveal_with_fuel(run_rows, 2);
        assert(one[0] as int == b);
        assert(rows[r].table@[b] == k);
        assert(run_rows(rows, 1, w + one) == k);
    }
}

/// The automaton can be in the state `q` when it has read `w`.
pub open spec fn led_to(nfa: Nfa, w: Seq<u8>, q: int) -> bool {
    0 <= q < nfa.states@.len() && graph::path(nfa::edges(nfa.states@), nfa.start as int, w, q)
}

/// The two strings lead the automaton to the same set of states.
pub open spec fn led_alike(nfa: Nfa, u: Seq<u8>, v: Seq<u8>) -> bool {
    forall|q: int| #[trigger] led_to(nfa, u, q) <==> led_to(nfa, v, q)
}

/// No two sets are the same, and none is empty.
spec fn sets_apart(sets: Seq<Vec<bool>>) -> bool {
    &&& forall|i: int, j: int|
        0 <= i < j < sets.len() ==> (#[trigger] sets[i])@ != (#[trigger] sets[j])@
    &&& forall|i: int| 0 <= i < sets.len() ==> #[trigger] marks_some(sets[i]@)
}

/// Some state is marked.
spec fn marks_some(marks: Seq<bool>) -> bool {
    exists|q: int| 0 <= q < marks.len() && #[trigger] marks[q]
}

/// A set that was not among those found before is apart from them.
proof fn lemma_apart_push(sets: Seq<Vec<bool>>, set: Vec<bool>)
    requires
        sets_apart(sets),
        marks_some(set@),
        forall|k: int| 0 <= k < sets.len() ==> (#[trigger] sets[k])@ != set@,
    ensures
        sets_apart(sets.push(set)),
{
    let all = sets.push(set);
    assert forall|i: int, j: int| 0 <= i < j < all.len() implies (#[trigger] all[i])@ != (
    #[trigger] all[j])@ by {
        assert(all[i] == sets[i]);
        if j < sets.len() {
            assert(all[j] == sets[j]);
        }
    }
    assert forall|i: int| 0 <= i < all.len() implies #[trigger] marks_some(all[i]@) by {
        if i < sets.len() {
            assert(marks_some(sets[i]@));
        }
    }
}

/// The closure of some states marks one.
proof fn lemma_marks_seed(states: Seq<NfaState>, seeds: Seq<usize>, marks: Seq<bool>)
    requires
        seeds.len() > 0,
        seeds[0] < states.len(),
        marks.len() == states.len(),
        forall|q: int|
            0 <= q < states.len() ==> (#[trigger] marks[q] <==> eps_reached(states, seeds, q)),
    ensures
        marks_some(marks),
{
    let t = seeds[0] as int;
    graph::lemma_here(nfa::edges(states), t);
    assert(seeds.contains(seeds[0]));
    assert(graph::path(nfa::edges(states), seeds[0] as int, Seq::empty(), t));
    assert(marks[t]);
}

/// Strings come to the same state exactly if they lead to the same set.
proof fn lemma_led(
    nfa: Nfa,
    sets: Seq<Vec<bool>>,
    rows: Seq<Row>,
    seeds: Seq<usize>,
    u: Seq<u8>,
    v: Seq<u8>,
)
    requires
        nfa::closed(nfa.states@),
        nfa.start < nfa.states@.len(),
        sets.len() > 0,
        found_ok(nfa.states@, sets, rows, rows.len() as int),
        sets_apart(sets),
        seeds.len() == 1,
        seeds[0] == nfa.start,
        forall|q: int|
            0 <= q < nfa.states@.len() ==> (#[trigger] sets[0]@[q] <==> eps_reached(
                nfa.states@,
                seeds,
                q,
            )),
    ensures
        run_rows(rows, 1, u) == run_rows(rows, 1, v) <==> led_alike(nfa, u, v),
{
    let states = nfa.states@;
    let first = sets[0]@;
    let start = nfa.start as int;
    assert(set_closed(states, first));
    lemma_run(states, sets, rows, 0, u);
    lemma_run(states, sets, rows, 0, v);
    let a = run_rows(rows, 1, u);
    let b = run_rows(rows, 1, v);
    assert forall|q: int| 0 <= q < states.len() implies (from_set(states, first, u, q)
        <==> #[trigger] led_to(nfa, u, q)) && (from_set(states, first, v, q) <==> led_to(
        nfa,
        v,
        q,
    )) by {
        lemma_from_start(states, seeds, first, start, u, q);
        lemma_from_start(states, seeds, first, start, v, q);
    }
    if a == b {
        assert forall|q: int| #[trigger] led_to(nfa, u, q) <==> led_to(nfa, v, q) by {
            if 0 <= q < states.len() {
                assert(led_to(nfa, u, q) <==> from_set(states, first, u, q));
                if a > 0 {
                    assert(sets[a - 1]@[q] <==> from_set(states, first, u, q));
                } else {
                    assert(!from_set(states, first, u, q) && !from_set(states, first, v, q));
                }
            }
        }
    }
    if led_alike(nfa, u, v) {
        if a > 0 && b > 0 {
            let (x, y) = (sets[a - 1]@, sets[b - 1]@);
            assert(set_closed(states, x) && set_closed(states, y));
            assert(x =~= y) by {
                assert forall|q: int| 0 <= q < x.len() implies x[q] == y[q] by {
                    assert(led_to(nfa, u, q) <==> led_to(nfa, v, q));
                }
            }
        } else if a > 0 {
            let x = sets[a - 1]@;
            assert(set_closed(states, x));
            assert(marks_some(sets[a - 1]@));
            let q = choose|q: int| 0 <= q < x.len() && #[trigger] x[q];
            assert(led_to(nfa, u, q) <==> led_to(nfa, v, q));
        } else if b > 0 {
            let y = sets[b - 1]@;
            assert(set_closed(states, y));
            assert(marks_some(sets[b - 1]@));
            let q = choose|q: int| 0 <= q < y.len() && #[trigger] y[q];
            assert(led_to(nfa, u, q) <==> led_to(nfa, v, q));
        }
    }
}

/// A string comes to no state exactly if it leads nowhere.
proof fn lemma_led_on(
    nfa: Nfa,
    sets: Seq<Vec<bool>>,
    rows: Seq<Row>,
    seeds: Seq<usize>,
    w: Seq<u8>,
)
    requires
        nfa::closed(nfa.states@),
        nfa.start < nfa.states@.len(),
        sets.len() > 0,
        found_ok(nfa.states@, sets, rows, rows.len() as int),
        sets_apart(sets),
        seeds.len() == 1,
        seeds[0] == nfa.start,
        forall|q: int|
            0 <= q < nfa.states@.len() ==> (#[trigger] sets[0]@[q] <==> eps_reached(
                nfa.states@,
                seeds,
                q,
            )),
    ensures
        run_rows(rows, 1, w) == 0 <==> forall|q: int| !#[trigger] led_to(nfa, w, q),
{
    let states = nfa.states@;
    let first = sets[0]@;
    assert(set_closed(states, first));
    lemma_run(states, sets, rows, 0, w);
    let a = run_rows(rows, 1, w);
    assert forall|q: int| 0 <= q < states.len() implies (from_set(states, first, w, q)
        <==> #[trigger] led_to(nfa, w, q)) by {
        lemma_from_start(states, seeds, first, nfa.start as int, w, q);
    }
    if a == 0 {
        assert forall|q: int| !#[trigger] led_to(nfa, w, q) by {
            if 0 <= q < states.len() {
                assert(!from_set(states, first, w, q));
            }
        }
    } else {
        let x = sets[a - 1]@;
        assert(set_closed(states, x));
        assert(marks_some(sets[a - 1]@));
        let q = choose|q: int| 0 <= q < x.len() && #[trigger] x[q];
        assert(led_to(nfa, w, q));
    }
}

/// Determinise: each state stands for the set of automaton states that the
/// input read so far can have led to.
pub fn subset_construct(nfa: &Nfa) -> (r: Vec<Row>)
    requires
        nfa::closed(nfa.states@),
        nfa.start < nfa.states@.len(),
    ensures
        rows_ok(r@),
        numbered_as_met(r@),
        forall|w: Seq<u8>| #[trigger]
            run_rows(r@, 1, w) == 0 <==> forall|q: int| !#[trigger] led_to(*nfa, w, q),
        forall|u: Seq<u8>, v: Seq<u8>|
            #[trigger] run_rows(r@, 1, u) == #[trigger] run_rows(r@, 1, v) <==> led_alike(
                *nfa,
                u,
                v,
            ),
        forall|w: Seq<u8>| #[trigger] best_on(*nfa, w, kind_of(outcome(r@, 1, w))),
{
    let ghost states = nfa.states@;
    let ghost g = nfa::edges(states);
    let mut seeds: Vec<usize> = Vec::new();
    seeds.push(nfa.start);
    let start_set = epsilon_closure(&nfa.states, &seeds);
    let mut sets: Vec<Vec<bool>> = Vec::new();
    let mut rows: Vec<Row> = Vec::new();
    let accept = smallest_accept(&nfa.states, &start_set);
    rows.push(Row { table: zero_table(), accept });
    let ghost first = start_set@;
    proof {
        lemma_marks_seed(states, seeds@, first);
        lemma_apart_push(sets@, start_set);
    }
    sets.push(start_set);
    let mut i: usize = 0;
    assert(nfa.states@.len() == nfa.states.len());
    while i < rows.len()
        invariant
            states == nfa.states@,
            g == nfa::edges(states),
            nfa::closed(states),
            states.len() <= usize::MAX,
            i <= rows@.len(),
            sets@.len() > 0,
            sets@[0]@ == first,
            found_ok(states, sets@, rows@, i as int),
            sets_apart(sets@),
            forall|k: int|
                2 <= k <= rows@.len() ==> #[trigger] met(tables_of(rows@, i as nat), k),
        decreases usize::MAX - i,
    {
        let ghost marks = sets@[i as int]@;
        let edges = outgoing(&nfa.states, &sets[i]);
        let parts = partition_ranges(&edges);
        let mut table = zero_table();
        let mut p: usize = 0;
        let ghost done = tables_of(rows@, i as nat);
        proof {
            assert forall|k: int| 2 <= k <= rows@.len() implies #[trigger] met(
                done.push(table@),
                k,
            ) by {
                lemma_met_behind(done, table@, k);
            }
        }
        while p < parts.len()
            invariant
                states == nfa.states@,
                g == nfa::edges(states),
                nfa::closed(states),
                states.len() <= usize::MAX,
                i < rows@.len(),
                sets@.len() > 0,
                sets@[0]@ == first,
                found_ok(states, sets@, rows@, i as int),
                sets_apart(sets@),
                marks == sets@[i as int]@,
                forall|b: u8, t: usize| #[trigger]
                    active(edges@, b, t) <==> step_target(states, marks, b, t as int),
                is_partition(edges@, 256, parts@),
                p <= parts@.len(),
                table@.len() == 256,
                done == tables_of(rows@, i as nat),
                forall|k: int| 2 <= k <= rows@.len() ==> #[trigger] met(
                    done.push(table@),
                    k,
                ),
                forall|x: int|
                    0 <= x < 256 && (p == 0 || parts@[p - 1].0.1 < x) ==> #[trigger] table@[x] == 0,
                forall|b: int| 0 <= b < 256 ==> #[trigger] table@[b] <= rows@.len(),
                forall|b: u8|
                    table@[b as int] != 0 ==> #[trigger] row_ok(
                        states,
                        sets@,
                        marks,
                        table@,
                        b,
                    ),
                forall|b: u8, k: int|
                    0 <= k < p && (#[trigger] parts@[k]).0.0 <= b <= parts@[k].0.1
                        ==> #[trigger] table@[b as int] != 0,
            decreases parts@.len() - p,
        {
            let (lo, hi) = parts[p].0;
            assert(is_active_set(edges@, lo, parts@[p as int].1@));
            assert forall|k: int| 0 <= k < parts@[p as int].1@.len() implies
                #[trigger] parts@[p as int].1@[k] < states.len() by {
                let t = parts@[p as int].1@[k];
                assert(parts@[p as int].1@.contains(t));
                assert(active(edges@, lo, t));
                let s = choose|s: int|
                    0 <= s < marks.len() && marks[s] && #[trigger] g.contains(
                        (s, Some(lo), t as int),
                    );
            }
            let closed = epsilon_closure(&nfa.states, &parts[p].1);
            let ghost cv = closed@;
            assert forall|b: u8| lo <= b <= hi implies #[trigger] is_step(states, marks, b, cv) by {
                assert(is_active_set(edges@, b, parts@[p as int].1@));
                lemma_closure_is_step(states, marks, edges@, parts@[p as int].1@, b, cv);
            }
            let ghost count = rows@.len() as int;
            let id: usize = match find_set(&sets, &closed) {
                Some(k) => {
                    assert(sets@.len() == sets.len());
                    k + 1
                },
                None => {
                    let accept = smallest_accept(&nfa.states, &closed);
                    let row = Row { table: zero_table(), accept };
                    let ghost sets0 = sets@;
                    let ghost rows1 = rows@;
                    rows.push(row);
                    let count = rows.len();
                    proof {
                        assert(count == rows1.len() + 1);
                        lemma_found_push(states, sets@, rows1, i as int, closed, row);
                        assert(parts@[p as int].1@.len() > 0);
                        lemma_marks_seed(states, parts@[p as int].1@, closed@);
                        lemma_apart_push(sets@, closed);
                    }
                    sets.push(closed);
                    assert(tables_of(rows@, i as nat) =~= tables_of(rows1, i as nat));
                    proof {
                        assert forall|b: u8| table@[b as int] != 0 implies #[trigger] row_ok(
                            states,
                            sets@,
                            marks,
                            table@,
                            b,
                        ) by {
                            assert(row_ok(states, sets0, marks, table@, b));
                            let id = table@[b as int];
                            assert(sets@[id - 1] == sets0[id - 1]);
                        }
                    }
                    count
                },
            };
            assert(sets@[id - 1]@ == cv);
            let ghost t0 = table@;
            let mut b: usize = lo as usize;
            while b <= hi as usize
                invariant
                    lo <= b <= hi + 1,
                    table@.len() == 256,
                    sets@.len() == rows@.len(),
                    0 < id <= rows@.len(),
                    sets@[id - 1]@ == cv,
                    t0.len() == 256,
                    forall|x: u8|
                        lo <= x <= hi ==> #[trigger] is_step(states, marks, x, cv),
                    forall|x: int|
                        0 <= x < 256 && !(lo <= x < b) ==> #[trigger] table@[x] == t0[x],
                    forall|x: int| lo <= x < b ==> #[trigger] table@[x] == id,
                decreases hi + 1 - b,
            {
                table.set(b, id);
                b += 1;
            }
            proof {
                assert forall|x: u8| table@[x as int] != 0 implies #[trigger] row_ok(
                    states,
                    sets@,
                    marks,
                    table@,
                    x,
                ) by {
                    if lo <= x <= hi {
                        assert(table@[x as int] == id);
                        assert(is_step(states, marks, x, cv));
                    } else {
                        assert(table@[x as int] == t0[x as int]);
                        assert(row_ok(states, sets@, marks, t0, x));
                    }
                }
                assert forall|x: u8, k: int|
                    0 <= k < p + 1 && (#[trigger] parts@[k]).0.0 <= x <= parts@[k].0.1 implies
                    #[trigger] table@[x as int] != 0 by {
                    if lo <= x <= hi {
                        assert(table@[x as int] == id);
                    } else {
                        assert(table@[x as int] == t0[x as int]);
                    }
                }
                assert forall|x: int| 0 <= x < 256 implies #[trigger] table@[x]
                    <= rows@.len() by {
                    if lo <= x <= hi {
                        assert(table@[x] == id);
                    } else {
                        assert(table@[x] == t0[x]);
                    }
                }
                assert forall|x: int| 0 <= x < 256 && hi < x implies #[trigger] table@[x]
                    == 0 by {
                    assert(table@[x] == t0[x]);
                }
                lemma_filled(done, t0, table@, count, rows@.len() as int, id, lo as int, hi as int);
            }
            p += 1;
        }
        let ghost rows0 = rows@;
        let accept = rows[i].accept;
        proof {
            assert forall|b: u8| #[trigger] row_ok(states, sets@, marks, table@, b) by {
                if table@[b as int] == 0 {
                    assert forall|t: int| !#[trigger] step_target(states, marks, b, t) by {
                        if step_target(states, marks, b, t) {
                            let s = choose|s: int|
                                0 <= s < marks.len() && marks[s] && #[trigger] g.contains(
                                    (s, Some(b), t),
                                );
                            let u = t as usize;
                            assert(u as int == t);
                            assert(active(edges@, b, u));
                            let k = choose|k: int|
                                0 <= k < parts@.len() && (#[trigger] parts@[k]).0.0 <= b
                                    <= parts@[k].0.1;
                            assert(table@[b as int] != 0);
                        }
                    }
                }
            }
        }
        let ghost last = table@;
        rows.set(i, Row { table, accept });
        assert(tables_of(rows@, (i + 1) as nat) =~= done.push(last));
        proof {
            assert forall|k: int, b: u8| 0 <= k < i + 1 implies #[trigger] row_ok(
                states,
                sets@,
                sets@[k]@,
                rows@[k].table@,
                b,
            ) by {
                if k < i {
                    assert(row_ok(states, sets@, sets@[k]@, rows0[k].table@, b));
                }
            }
            assert forall|k: int, b: int| 0 <= k < rows@.len() && 0 <= b < 256 implies
                #[trigger] rows@[k].table@[b] <= rows@.len() by {
                if k != i {
                    assert(rows0[k].table@[b] <= rows0.len());
                }
            }
        }
        i += 1;
    }
    proof {
        assert forall|u: Seq<u8>, v: Seq<u8>|
            #[trigger] run_rows(rows@, 1, u) == #[trigger] run_rows(rows@, 1, v)
                <==> led_alike(*nfa, u, v) by {
            lemma_led(*nfa, sets@, rows@, seeds@, u, v);
        }
        assert forall|w: Seq<u8>| #[trigger]
            run_rows(rows@, 1, w) == 0 <==> forall|q: int| !#[trigger] led_to(*nfa, w, q) by {
            lemma_led_on(*nfa, sets@, rows@, seeds@, w);
        }
        assert forall|w: Seq<u8>| #[trigger]
            best_on(*nfa, w, kind_of(outcome(rows@, 1, w))) by {
            lemma_run(states, sets@, rows@, 0, w);
            let r = run_rows(rows@, 1, w);
            assert forall|q: int| 0 <= q < states.len() implies (#[trigger] from_set(
                states,
                first,
                w,
                q,
            ) <==> graph::path(g, nfa.start as int, w, q)) by {
                lemma_from_start(states, seeds@, first, nfa.start as int, w, q);
            }
            if r == 0 {
                assert forall|k: u16| !#[trigger] nfa::accepts(*nfa, w, k) by {
                    if nfa::accepts(*nfa, w, k) {
                        let q = choose|q: int|
                            0 <= q < states.len() && #[trigger] states[q].accept == Some(k)
                                && graph::path(g, nfa.start as int, w, q);
                        assert(from_set(states, first, w, q));
                    }
                }
            } else {
                let a = rows@[r - 1].accept;
                let set = sets@[r - 1]@;
                assert(is_best(states, set, a));
                assert forall|k: u16| #[trigger] nfa::accepts(*nfa, w, k) <==> exists|q: int|
                    0 <= q < set.len() && set[q] && (#[trigger] states[q]).accept == Some(
                        k,
                    ) by {
                    if nfa::accepts(*nfa, w, k) {
                        let q = choose|q: int|
                            0 <= q < states.len() && #[trigger] states[q].accept == Some(k)
                                && graph::path(g, nfa.start as int, w, q);
                        assert(from_set(states, first, w, q));
                        assert(set[q]);
                    }
                    if exists|q: int|
                        0 <= q < set.len() && set[q] && (#[trigger] states[q]).accept == Some(
                            k,
                        ) {
                        let q = choose|q: int|
                            0 <= q < set.len() && set[q] && (#[trigger] states[q]).accept
                                == Some(k);
                        assert(from_set(states, first, w, q));
                        assert(states[q].accept == Some(k));
                    }
                }
                match a {
                    None => {},
                    Some(k) => {
                        assert(nfa::accepts(*nfa, w, k));
                    },
                }
            }
        }
    }
    rows
}

/// Reading from the closure of the start state is reading from the start state.
proof fn lemma_from_start(
    states: Seq<NfaState>,
    seeds: Seq<usize>,
    first: Seq<bool>,
    start: int,
    w: Seq<u8>,
    q: int,
)
    requires
        0 <= start < states.len(),
        seeds.len() == 1,
        seeds[0] == start,
        first.len() == states.len(),
        forall|x: int|
            0 <= x < states.len() ==> (#[trigger] first[x] <==> eps_reached(states, seeds, x)),
    ensures
        from_set(states, first, w, q) <==> graph::path(nfa::edges(states), start, w, q),
{
    let g = nfa::edges(states);
    if graph::path(g, start, w, q) {
        graph::lemma_here(g, start);
        assert(seeds.contains(seeds[0]));
        assert(graph::path(g, seeds[0] as int, Seq::empty(), start));
        assert(first[start]);
    }
    if from_set(states, first, w, q) {
        let x = choose|x: int|
            0 <= x < first.len() && first[x] && #[trigger] graph::path(g, x, w, q);
        let p = choose|p: usize|
            seeds.contains(p) && #[trigger] graph::path(g, p as int, Seq::empty(), x);
        graph::lemma_concat(g, p as int, Seq::empty(), x, w, q);
        assert(Seq::<u8>::empty() + w =~= w);
    }
}

} // verus!
