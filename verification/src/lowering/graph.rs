//! Labelled graphs and the strings spelled along their paths.
//!
//! An edge carries a byte, or no label at all; a path spells the bytes of its
//! edges in order. The lemmas compose the paths of a graph from those of its
//! parts, which is how the automata of compound patterns are shown correct.
use vstd::prelude::*;

verus! {

/// An edge: source, label (`None` for an edge that consumes nothing), target.
pub type Edge = (int, Option<u8>, int);

/// A path of exactly `n` edges leads from `s` to `t` and spells `w`.
pub open spec fn reach(g: Set<Edge>, s: int, w: Seq<u8>, t: int, n: nat) -> bool
    decreases n,
{
    if n == 0 {
        s == t && w.len() == 0
    } else {
        ||| exists|m: int|
            #[trigger] g.contains((s, None::<u8>, m)) && reach(g, m, w, t, (n - 1) as nat)
        ||| w.len() > 0 && exists|m: int|
            #[trigger] g.contains((s, Some(w[0]), m)) && reach(g, m, w.skip(1), t, (n - 1) as nat)
    }
}

/// A path leads from `s` to `t` and spells `w`.
pub open spec fn path(g: Set<Edge>, s: int, w: Seq<u8>, t: int) -> bool {
    exists|n: nat| #[trigger] reach(g, s, w, t, n)
}

pub proof fn lemma_here(g: Set<Edge>, s: int)
    ensures
        path(g, s, Seq::empty(), s),
{
    assert(reach(g, s, Seq::<u8>::empty(), s, 0));
}

pub proof fn lemma_eps_step(g: Set<Edge>, s: int, m: int, w: Seq<u8>, t: int)
    requires
        g.contains((s, None::<u8>, m)),
        path(g, m, w, t),
    ensures
        path(g, s, w, t),
{
    let n = choose|n: nat| #[trigger] reach(g, m, w, t, n);
    assert(reach(g, s, w, t, n + 1)) by {
        assert(((n + 1) - 1) as nat == n);
        assert(g.contains((s, None::<u8>, m)) && reach(g, m, w, t, ((n + 1) - 1) as nat));
    }
}

pub proof fn lemma_byte_step(g: Set<Edge>, s: int, m: int, w: Seq<u8>, t: int)
    requires
        w.len() > 0,
        g.contains((s, Some(w[0]), m)),
        path(g, m, w.skip(1), t),
    ensures
        path(g, s, w, t),
{
    let n = choose|n: nat| #[trigger] reach(g, m, w.skip(1), t, n);
    assert(reach(g, s, w, t, n + 1)) by {
        assert(((n + 1) - 1) as nat == n);
        assert(g.contains((s, Some(w[0]), m)) && reach(g, m, w.skip(1), t, ((n + 1) - 1) as nat));
    }
}

/// Paths compose.
pub proof fn lemma_concat(g: Set<Edge>, a: int, u: Seq<u8>, b: int, v: Seq<u8>, c: int)
    requires
        path(g, a, u, b),
        path(g, b, v, c),
    ensures
        path(g, a, u + v, c),
{
    let n = choose|n: nat| #[trigger] reach(g, a, u, b, n);
    lemma_concat_from(g, a, u, b, n, v, c);
}

proof fn lemma_concat_from(
    g: Set<Edge>,
    a: int,
    u: Seq<u8>,
    b: int,
    n: nat,
    v: Seq<u8>,
    c: int,
)
    requires
        reach(g, a, u, b, n),
        path(g, b, v, c),
    ensures
        path(g, a, u + v, c),
    decreases n,
{
    if n == 0 {
        assert(u + v =~= v);
    } else if exists|m: int|
        #[trigger] g.contains((a, None::<u8>, m)) && reach(g, m, u, b, (n - 1) as nat) {
        let m = choose|m: int|
            #[trigger] g.contains((a, None::<u8>, m)) && reach(g, m, u, b, (n - 1) as nat);
        lemma_concat_from(g, m, u, b, (n - 1) as nat, v, c);
        lemma_eps_step(g, a, m, u + v, c);
    } else {
        let m = choose|m: int|
            #[trigger] g.contains((a, Some(u[0]), m)) && reach(g, m, u.skip(1), b, (n - 1) as nat);
        lemma_concat_from(g, m, u.skip(1), b, (n - 1) as nat, v, c);
        assert((u + v).skip(1) =~= u.skip(1) + v);
        assert((u + v)[0] == u[0]);
        lemma_byte_step(g, a, m, u + v, c);
    }
}

/// Within a region that `h` does not leave, whose outgoing edges are in `g`
/// too, every path of `h` is one of `g`.
pub proof fn lemma_region(g: Set<Edge>, h: Set<Edge>, r: Set<int>, s: int, w: Seq<u8>, t: int)
    requires
        r.contains(s),
        forall|e: Edge|
            #![trigger h.contains(e)]
            h.contains(e) && r.contains(e.0) ==> g.contains(e) && r.contains(e.2),
        path(h, s, w, t),
    ensures
        path(g, s, w, t),
        r.contains(t),
{
    let n = choose|n: nat| #[trigger] reach(h, s, w, t, n);
    lemma_region_from(g, h, r, s, w, t, n);
}

proof fn lemma_region_from(
    g: Set<Edge>,
    h: Set<Edge>,
    r: Set<int>,
    s: int,
    w: Seq<u8>,
    t: int,
    n: nat,
)
    requires
        r.contains(s),
        forall|e: Edge|
            #![trigger h.contains(e)]
            h.contains(e) && r.contains(e.0) ==> g.contains(e) && r.contains(e.2),
        reach(h, s, w, t, n),
    ensures
        path(g, s, w, t),
        r.contains(t),
    decreases n,
{
    if n == 0 {
        assert(w =~= Seq::<u8>::empty());
        lemma_here(g, s);
    } else if exists|m: int|
        #[trigger] h.contains((s, None::<u8>, m)) && reach(h, m, w, t, (n - 1) as nat) {
        let m = choose|m: int|
            #[trigger] h.contains((s, None::<u8>, m)) && reach(h, m, w, t, (n - 1) as nat);
        lemma_region_from(g, h, r, m, w, t, (n - 1) as nat);
        lemma_eps_step(g, s, m, w, t);
    } else {
        let m = choose|m: int|
            #[trigger] h.contains((s, Some(w[0]), m)) && reach(h, m, w.skip(1), t, (n - 1) as nat);
        lemma_region_from(g, h, r, m, w.skip(1), t, (n - 1) as nat);
        lemma_byte_step(g, s, m, w, t);
    }
}

/// Adding edges keeps every path.
pub proof fn lemma_mono(g: Set<Edge>, h: Set<Edge>, s: int, w: Seq<u8>, t: int)
    requires
        path(g, s, w, t),
        forall|e: Edge| #![trigger g.contains(e)] g.contains(e) ==> h.contains(e),
    ensures
        path(h, s, w, t),
{
    lemma_region(h, g, Set::full(), s, w, t);
}

/// A node without outgoing edges is reached from itself by nothing but the
/// empty path.
pub proof fn lemma_sink(g: Set<Edge>, s: int, w: Seq<u8>, t: int)
    requires
        forall|e: Edge| #![trigger g.contains(e)] g.contains(e) ==> e.0 != s,
        path(g, s, w, t),
    ensures
        w.len() == 0,
        s == t,
{
    let n = choose|n: nat| #[trigger] reach(g, s, w, t, n);
    if n > 0 {
        if exists|m: int|
            #[trigger] g.contains((s, None::<u8>, m)) && reach(g, m, w, t, (n - 1) as nat) {
        } else {
            let m = choose|m: int|
                #[trigger] g.contains((s, Some(w[0]), m)) && reach(
                    g,
                    m,
                    w.skip(1),
                    t,
                    (n - 1) as nat,
                );
            assert(g.contains((s, Some(w[0]), m)));
        }
    }
}

/// `h` joins two regions by a single unlabelled edge from `e1` to `s2`: a path
/// from the first region to the second is a path to `e1`, then one from `s2`.
pub proof fn lemma_seq(
    g: Set<Edge>,
    h: Set<Edge>,
    r1: Set<int>,
    s1: int,
    e1: int,
    s2: int,
    w: Seq<u8>,
    e2: int,
)
    requires
        r1.contains(s1),
        !r1.contains(e2),
        forall|e: Edge|
            #![trigger h.contains(e)]
            h.contains(e) && r1.contains(e.0) ==> (g.contains(e) && r1.contains(e.2)) || e == (
                e1,
                None::<u8>,
                s2,
            ),
        path(h, s1, w, e2),
    ensures
        exists|i: int|
            0 <= i <= w.len() && path(g, s1, #[trigger] w.take(i), e1) && path(
                h,
                s2,
                w.skip(i),
                e2,
            ),
{
    let n = choose|n: nat| #[trigger] reach(h, s1, w, e2, n);
    lemma_seq_from(g, h, r1, s1, e1, s2, w, e2, n);
}

proof fn lemma_seq_from(
    g: Set<Edge>,
    h: Set<Edge>,
    r1: Set<int>,
    s1: int,
    e1: int,
    s2: int,
    w: Seq<u8>,
    e2: int,
    n: nat,
)
    requires
        r1.contains(s1),
        !r1.contains(e2),
        forall|e: Edge|
            #![trigger h.contains(e)]
            h.contains(e) && r1.contains(e.0) ==> (g.contains(e) && r1.contains(e.2)) || e == (
                e1,
                None::<u8>,
                s2,
            ),
        reach(h, s1, w, e2, n),
    ensures
        exists|i: int|
            0 <= i <= w.len() && path(g, s1, #[trigger] w.take(i), e1) && path(
                h,
                s2,
                w.skip(i),
                e2,
            ),
    decreases n,
{
    if n == 0 {
        assert(false);
    } else if exists|m: int|
        #[trigger] h.contains((s1, None::<u8>, m)) && reach(h, m, w, e2, (n - 1) as nat) {
        let m = choose|m: int|
            #[trigger] h.contains((s1, None::<u8>, m)) && reach(h, m, w, e2, (n - 1) as nat);
        let e: Edge = (s1, None::<u8>, m);
        if g.contains(e) && r1.contains(m) {
            lemma_seq_from(g, h, r1, m, e1, s2, w, e2, (n - 1) as nat);
            let i = choose|i: int|
                0 <= i <= w.len() && path(g, m, #[trigger] w.take(i), e1) && path(
                    h,
                    s2,
                    w.skip(i),
                    e2,
                );
            lemma_eps_step(g, s1, m, w.take(i), e1);
        } else {
            assert(w.take(0) =~= Seq::<u8>::empty());
            assert(w.skip(0) =~= w);
            lemma_here(g, e1);
            assert(path(g, s1, w.take(0), e1));
        }
    } else {
        let m = choose|m: int|
            #[trigger] h.contains((s1, Some(w[0]), m)) && reach(
                h,
                m,
                w.skip(1),
                e2,
                (n - 1) as nat,
            );
        lemma_seq_from(g, h, r1, m, e1, s2, w.skip(1), e2, (n - 1) as nat);
        let i = choose|i: int|
            0 <= i <= w.skip(1).len() && path(g, m, #[trigger] w.skip(1).take(i), e1) && path(
                h,
                s2,
                w.skip(1).skip(i),
                e2,
            );
        assert(w.take(i + 1).skip(1) =~= w.skip(1).take(i));
        assert(w.skip(1).skip(i) =~= w.skip(i + 1));
        assert(w.take(i + 1)[0] == w[0]);
        lemma_byte_step(g, s1, m, w.take(i + 1), e1);
    }
}

/// `h` extends the region `r` of `g` by edges from `e` to the new sink `t`,
/// one for each byte of `lo..=hi`: a path to `t` spells what a path to `e`
/// does, then one such byte.
pub proof fn lemma_chain(
    g: Set<Edge>,
    h: Set<Edge>,
    r: Set<int>,
    s: int,
    e: int,
    t: int,
    lo: u8,
    hi: u8,
    w: Seq<u8>,
)
    requires
        r.contains(s),
        !r.contains(t),
        forall|x: Edge|
            #![trigger h.contains(x)]
            h.contains(x) ==> x.0 != t && (r.contains(x.0) ==> (g.contains(x) && r.contains(x.2))
                || (x.0 == e && x.2 == t && x.1 is Some && lo <= x.1->0 <= hi)),
        path(h, s, w, t),
    ensures
        w.len() > 0,
        path(g, s, w.drop_last(), e),
        lo <= w.last() <= hi,
{
    let n = choose|n: nat| #[trigger] reach(h, s, w, t, n);
    lemma_chain_from(g, h, r, s, e, t, lo, hi, w, n);
}

proof fn lemma_chain_from(
    g: Set<Edge>,
    h: Set<Edge>,
    r: Set<int>,
    s: int,
    e: int,
    t: int,
    lo: u8,
    hi: u8,
    w: Seq<u8>,
    n: nat,
)
    requires
        r.contains(s),
        !r.contains(t),
        forall|x: Edge|
            #![trigger h.contains(x)]
            h.contains(x) ==> x.0 != t && (r.contains(x.0) ==> (g.contains(x) && r.contains(x.2))
                || (x.0 == e && x.2 == t && x.1 is Some && lo <= x.1->0 <= hi)),
        reach(h, s, w, t, n),
    ensures
        w.len() > 0,
        path(g, s, w.drop_last(), e),
        lo <= w.last() <= hi,
    decreases n,
{
    if n == 0 {
        assert(false);
    } else if exists|m: int|
        #[trigger] h.contains((s, None::<u8>, m)) && reach(h, m, w, t, (n - 1) as nat) {
        let m = choose|m: int|
            #[trigger] h.contains((s, None::<u8>, m)) && reach(h, m, w, t, (n - 1) as nat);
        lemma_chain_from(g, h, r, m, e, t, lo, hi, w, (n - 1) as nat);
        lemma_eps_step(g, s, m, w.drop_last(), e);
    } else {
        let m = choose|m: int|
            #[trigger] h.contains((s, Some(w[0]), m)) && reach(h, m, w.skip(1), t, (n - 1) as nat);
        let x: Edge = (s, Some(w[0]), m);
        if g.contains(x) && r.contains(m) {
            lemma_chain_from(g, h, r, m, e, t, lo, hi, w.skip(1), (n - 1) as nat);
            assert(w.drop_last().skip(1) =~= w.skip(1).drop_last());
            lemma_byte_step(g, s, m, w.drop_last(), e);
        } else {
            assert(path(h, t, w.skip(1), t));
            lemma_sink(h, t, w.skip(1), t);
            assert(w.drop_last() =~= Seq::<u8>::empty());
            lemma_here(g, e);
        }
    }
}

/// `h` adds a branch to `g`: an unlabelled edge from `s` to `fs`, and one from
/// `fe` to the sink `e`. A path from `s` to `e` takes the branch or is old.
pub proof fn lemma_alt(
    g: Set<Edge>,
    gf: Set<Edge>,
    h: Set<Edge>,
    r: Set<int>,
    rf: Set<int>,
    s: int,
    e: int,
    fs: int,
    fe: int,
    w: Seq<u8>,
)
    requires
        !r.contains(s),
        s != e,
        !rf.contains(e),
        rf.contains(fs),
        forall|x: Edge|
            #![trigger h.contains(x)]
            h.contains(x) ==> {
                &&& x.0 != e
                &&& x.0 == s ==> (g.contains(x) && r.contains(x.2)) || x == (s, None::<u8>, fs)
                &&& r.contains(x.0) ==> g.contains(x) && r.contains(x.2)
                &&& rf.contains(x.0) ==> (gf.contains(x) && rf.contains(x.2)) || x == (
                    fe,
                    None::<u8>,
                    e,
                )
            },
        path(h, s, w, e),
    ensures
        path(g, s, w, e) || path(gf, fs, w, fe),
{
    let n = choose|n: nat| #[trigger] reach(h, s, w, e, n);
    assert(n > 0);
    if exists|m: int|
        #[trigger] h.contains((s, None::<u8>, m)) && reach(h, m, w, e, (n - 1) as nat) {
        let m = choose|m: int|
            #[trigger] h.contains((s, None::<u8>, m)) && reach(h, m, w, e, (n - 1) as nat);
        let x: Edge = (s, None::<u8>, m);
        assert(path(h, m, w, e));
        if g.contains(x) && r.contains(m) {
            lemma_region(g, h, r, m, w, e);
            lemma_eps_step(g, s, m, w, e);
        } else {
            lemma_seq(gf, h, rf, fs, fe, e, w, e);
            let i = choose|i: int|
                0 <= i <= w.len() && path(gf, fs, #[trigger] w.take(i), fe) && path(
                    h,
                    e,
                    w.skip(i),
                    e,
                );
            lemma_sink(h, e, w.skip(i), e);
            assert(w.take(i) =~= w);
        }
    } else {
        let m = choose|m: int|
            #[trigger] h.contains((s, Some(w[0]), m)) && reach(h, m, w.skip(1), e, (n - 1) as nat);
        assert(path(h, m, w.skip(1), e));
        lemma_region(g, h, r, m, w.skip(1), e);
        lemma_byte_step(g, s, m, w, e);
    }
}

} // verus!
