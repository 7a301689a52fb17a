//! Reachability among numbered states.
use vstd::prelude::*;

verus! {

/// States, each with those that it refers to.
pub type Edges = Seq<(u32, Seq<u32>)>;

/// State `m` refers to state `s`.
pub open spec fn refers(edges: Edges, m: u32, s: u32) -> bool {
    exists|i: int| 0 <= i < edges.len() && (#[trigger] edges[i]).0 == m && edges[i].1.contains(s)
}

/// The state is reached from an entry point in at most `n` steps.
pub open spec fn reached_in(edges: Edges, entries: Seq<u32>, s: u32, n: nat) -> bool
    decreases n,
{
    if n == 0 {
        entries.contains(s)
    } else {
        ||| reached_in(edges, entries, s, (n - 1) as nat)
        ||| exists|m: u32|
            reached_in(edges, entries, m, (n - 1) as nat) && #[trigger] refers(edges, m, s)
    }
}

/// The state is reached from an entry point.
pub open spec fn reached(edges: Edges, entries: Seq<u32>, s: u32) -> bool {
    exists|n: nat| #[trigger] reached_in(edges, entries, s, n)
}

/// An entry point is reached.
pub proof fn lemma_entry_reached(edges: Edges, entries: Seq<u32>, s: u32)
    requires
        entries.contains(s),
    ensures
        reached(edges, entries, s),
{
    assert(reached_in(edges, entries, s, 0));
}

/// What a reached state refers to is reached.
pub proof fn lemma_reached_step(edges: Edges, entries: Seq<u32>, m: u32, s: u32)
    requires
        reached(edges, entries, m),
        refers(edges, m, s),
    ensures
        reached(edges, entries, s),
{
    let n = choose|n: nat| #[trigger] reached_in(edges, entries, m, n);
    assert(reached_in(edges, entries, s, n + 1)) by {
        assert(((n + 1) - 1) as nat == n);
        assert(reached_in(edges, entries, m, ((n + 1) - 1) as nat) && refers(edges, m, s));
    }
}

/// A set that has the entry points and what its members refer to has all that
/// is reached.
proof fn lemma_reached_within(edges: Edges, entries: Seq<u32>, seen: Seq<u32>, s: u32, n: nat)
    requires
        forall|e: u32| #[trigger] entries.contains(e) ==> seen.contains(e),
        forall|m: u32, t: u32| seen.contains(m) && #[trigger] refers(edges, m, t) ==> seen.contains(t),
        reached_in(edges, entries, s, n),
    ensures
        seen.contains(s),
    decreases n,
{
    if n > 0 {
        if reached_in(edges, entries, s, (n - 1) as nat) {
            lemma_reached_within(edges, entries, seen, s, (n - 1) as nat);
        } else {
            let m = choose|m: u32|
                reached_in(edges, entries, m, (n - 1) as nat) && #[trigger] refers(edges, m, s);
            lemma_reached_within(edges, entries, seen, m, (n - 1) as nat);
        }
    }
}

/// What a list of edges says.
pub open spec fn edges_view(v: Seq<(u32, Vec<u32>)>) -> Edges {
    Seq::new(v.len(), |i: int| (v[i].0, v[i].1@))
}

/// True iff the list holds the id.
pub fn has_id(l: &Vec<u32>, s: u32) -> (r: bool)
    ensures
        r == l@.contains(s),
{
    let mut i: usize = 0;
    while i < l.len()
        invariant
            i <= l@.len(),
            forall|m: int| 0 <= m < i ==> #[trigger] l@[m] != s,
        decreases l@.len() - i,
    {
        if l[i] == s {
            return true;
        }
        i += 1;
    }
    false
}

/// The states that a state refers to.
fn targets_of(edges: &Vec<(u32, Vec<u32>)>, m: u32) -> (r: Vec<u32>)
    ensures
        forall|s: u32| #[trigger] r@.contains(s) <==> refers(edges_view(edges@), m, s),
{
    let ghost ev = edges_view(edges@);
    let mut r: Vec<u32> = Vec::new();
    let mut i: usize = 0;
    while i < edges.len()
        invariant
            i <= edges@.len(),
            ev == edges_view(edges@),
            forall|s: u32| #[trigger]
                r@.contains(s) <==> exists|q: int|
                    0 <= q < i && (#[trigger] ev[q]).0 == m && ev[q].1.contains(s),
        decreases edges@.len() - i,
    {
        let ghost before = r@;
        let ghost here = ev[i as int];
        assert(here == (edges@[i as int].0, edges@[i as int].1@));
        if edges[i].0 == m {
            let l = &edges[i].1;
            let mut j: usize = 0;
            while j < l.len()
                invariant
                    j <= l@.len(),
                    r@ == before + l@.take(j as int),
                decreases l@.len() - j,
            {
                r.push(l[j]);
                assert(r@ =~= before + l@.take(j + 1));
                j += 1;
            }
            assert(l@.take(j as int) =~= l@);
        }
        proof {
            assert forall|s: u32| #[trigger] r@.contains(s) <==> exists|q: int|
                0 <= q < i + 1 && (#[trigger] ev[q]).0 == m && ev[q].1.contains(s) by {
                let l = here.1;
                if here.0 == m {
                    assert(r@ == before + l);
                    if r@.contains(s) {
                        let x = choose|x: int| 0 <= x < r@.len() && r@[x] == s;
                        if x < before.len() {
                            assert(before[x] == s);
                            assert(before.contains(s));
                        } else {
                            assert(l[x - before.len()] == s);
                            assert(ev[i as int].1.contains(s));
                        }
                    }
                    if l.contains(s) {
                        let x = choose|x: int| 0 <= x < l.len() && l[x] == s;
                        assert(r@[before.len() + x] == s);
                    }
                    if before.contains(s) {
                        let x = choose|x: int| 0 <= x < before.len() && before[x] == s;
                        assert(r@[x] == s);
                    }
                }
                if before.contains(s) {
                    let q = choose|q: int|
                        0 <= q < i && (#[trigger] ev[q]).0 == m && ev[q].1.contains(s);
                    assert(ev[q].0 == m);
                }
                if exists|q: int|
                    0 <= q < i + 1 && (#[trigger] ev[q]).0 == m && ev[q].1.contains(s) {
                    let q = choose|q: int|
                        0 <= q < i + 1 && (#[trigger] ev[q]).0 == m && ev[q].1.contains(s);
                    if q < i {
                        assert(before.contains(s));
                    }
                }
            }
        }
        i += 1;
    }
    r
}

/// Every state that some entry point reaches.
pub fn reach_all(edges: &Vec<(u32, Vec<u32>)>, entries: &Vec<u32>) -> (r: Vec<u32>)
    ensures
        forall|s: u32| #[trigger]
            r@.contains(s) <==> reached(edges_view(edges@), entries@, s),
{
    let ghost sv = edges_view(edges@);
    let ghost ev = entries@;
    let mut seen: Vec<u32> = Vec::new();
    let mut queue: Vec<u32> = Vec::new();
    let mut i: usize = 0;
    while i < entries.len()
        invariant
            i <= entries@.len(),
            ev == entries@,
            queue@ == ev.take(i as int),
        decreases entries@.len() - i,
    {
        queue.push(entries[i]);
        assert(ev.take(i + 1) =~= ev.take(i as int).push(ev[i as int]));
        i += 1;
    }
    assert(queue@ =~= ev);
    let ghost full = Set::<u32>::new(|s: u32| true);
    proof {
        lemma_ids_finite();
        assert forall|s: u32| #[trigger] queue@.contains(s) implies reached(sv, ev, s) by {
            lemma_entry_reached(sv, ev, s);
        }
    }
    let mut head: usize = 0;
    while head < queue.len()
        invariant
            head <= queue@.len(),
            sv == edges_view(edges@),
            ev == entries@,
            full == Set::<u32>::new(|s: u32| true),
            full.finite(),
            seen@.no_duplicates(),
            forall|s: u32| #[trigger] queue@.contains(s) ==> reached(sv, ev, s),
            forall|s: u32| #[trigger] seen@.contains(s) ==> reached(sv, ev, s),
            forall|e: u32| #[trigger] ev.contains(e) ==> queue@.contains(e),
            forall|j: int| 0 <= j < head ==> seen@.contains(#[trigger] queue@[j]),
            forall|m: u32, t: u32|
                seen@.contains(m) && #[trigger] refers(sv, m, t) ==> queue@.contains(t)
                    || seen@.contains(t),
        decreases full.len() - seen@.len(), queue@.len() - head,
    {
        let id = queue[head];
        let ghost queue0 = queue@;
        let ghost seen0 = seen@;
        assert(queue@.contains(queue@[head as int]));
        head += 1;
        if !has_id(&seen, id) {
            seen.push(id);
            proof {
                lemma_push_contains(seen0, id);
                lemma_room(seen@, full);
            }
            let targets = targets_of(edges, id);
            let ghost tv = targets@;
            let mut n: usize = 0;
            while n < targets.len()
                invariant
                    n <= targets@.len(),
                    tv == targets@,
                    head <= queue@.len(),
                    queue0.len() <= queue@.len(),
                    forall|j: int| 0 <= j < queue0.len() ==> #[trigger] queue@[j] == queue0[j],
                    forall|s: u32| #[trigger]
                        queue@.contains(s) ==> queue0.contains(s) || tv.contains(s),
                    forall|s: u32| #[trigger] queue0.contains(s) ==> queue@.contains(s),
                    forall|j: int|
                        0 <= j < n ==> queue@.contains(#[trigger] tv[j]) || seen@.contains(tv[j]),
                decreases targets@.len() - n,
            {
                let t = targets[n];
                if !has_id(&seen, t) {
                    let ghost q1 = queue@;
                    queue.push(t);
                    proof {
                        lemma_push_contains(q1, t);
                        assert(tv.contains(tv[n as int]));
                    }
                }
                n += 1;
            }
            proof {
                assert forall|s: u32| #[trigger] queue@.contains(s) implies reached(sv, ev, s) by {
                    if !queue0.contains(s) {
                        assert(tv.contains(s));
                        lemma_reached_step(sv, ev, id, s);
                    }
                }
                assert forall|m: u32, t: u32|
                    seen@.contains(m) && #[trigger] refers(sv, m, t) implies queue@.contains(t)
                    || seen@.contains(t) by {
                    if m == id {
                        assert(tv.contains(t));
                        let j = choose|j: int| 0 <= j < tv.len() && tv[j] == t;
                        assert(queue@.contains(tv[j]) || seen@.contains(tv[j]));
                    } else {
                        assert(seen0.contains(m));
                    }
                }
                assert forall|j: int| 0 <= j < head implies seen@.contains(
                    #[trigger] queue@[j],
                ) by {
                    assert(queue@[j] == queue0[j]);
                    if j < head - 1 {
                        assert(seen0.contains(queue0[j]));
                    }
                }
            }
        }
    }
    proof {
        assert forall|s: u32| queue@.contains(s) implies seen@.contains(s) by {
            let j = choose|j: int| 0 <= j < queue@.len() && queue@[j] == s;
            assert(seen@.contains(queue@[j]));
        }
        assert forall|s: u32| #[trigger] seen@.contains(s) <==> reached(sv, ev, s) by {
            if reached(sv, ev, s) {
                let n = choose|n: nat| #[trigger] reached_in(sv, ev, s, n);
                lemma_reached_within(sv, ev, seen@, s, n);
            }
        }
    }
    seen
}

/// There are finitely many ids.
proof fn lemma_ids_finite()
    ensures
        Set::<u32>::new(|s: u32| true).finite(),
{
    let full = Set::<u32>::new(|s: u32| true);
    let ints = vstd::set_lib::set_int_range(0, 0x1_0000_0000);
    vstd::set_lib::lemma_int_range(0, 0x1_0000_0000);
    let f = |i: int| i as u32;
    ints.lemma_map_finite(f);
    assert(full =~= ints.map(f)) by {
        assert forall|s: u32| ints.map(f).contains(s) by {
            assert(ints.contains(s as int) && f(s as int) == s);
        }
    }
}

proof fn lemma_push_contains(l: Seq<u32>, x: u32)
    ensures
        forall|s: u32| #[trigger] l.push(x).contains(s) <==> l.contains(s) || s == x,
        !l.contains(x) && l.no_duplicates() ==> l.push(x).no_duplicates(),
{
    let r = l.push(x);
    assert forall|s: u32| #[trigger] r.contains(s) <==> l.contains(s) || s == x by {
        if l.contains(s) {
            let j = choose|j: int| 0 <= j < l.len() && l[j] == s;
            assert(r[j] == s);
        }
        assert(r[l.len() as int] == x);
        if r.contains(s) {
            let j = choose|j: int| 0 <= j < r.len() && r[j] == s;
            if j < l.len() {
                assert(l[j] == s);
            }
        }
    }
    if !l.contains(x) && l.no_duplicates() {
        assert forall|i: int, j: int|
            0 <= i < r.len() && 0 <= j < r.len() && i != j implies r[i] != r[j] by {
            if i == l.len() {
                assert(l.contains(l[j]));
            } else if j == l.len() {
                assert(l.contains(l[i]));
            }
        }
    }
}

/// A list without repetitions is no longer than there are ids.
proof fn lemma_room(l: Seq<u32>, full: Set<u32>)
    requires
        l.no_duplicates(),
        full == Set::<u32>::new(|s: u32| true),
        full.finite(),
    ensures
        l.len() <= full.len(),
{
    l.unique_seq_to_set();
    vstd::set_lib::lemma_len_subset(l.to_set(), full);
}

} // verus!
