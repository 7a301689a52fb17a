//! An automaton that tracks which beginnings of forbidden strings the input
//! read so far ends in.
use vstd::prelude::*;

use crate::lowering::language;

verus! {

/// Aho-Corasick automaton over a set of byte strings, with every transition
/// resolved. State 0 is the root.
pub struct AcAutomaton {
    /// `goto[s][b]` is the state after reading byte `b` in state `s`.
    pub goto: Vec<Vec<usize>>,
    /// Whether some forbidden string ends where each state is entered.
    pub accept: Vec<bool>,
    /// The beginning of a forbidden string that each state stands for.
    pub nodes: Vec<Vec<u8>>,
}

/// A string that ends in the node, and in no longer beginning of a forbidden
/// string, can be left here for the literal `next`: none of the forbidden
/// strings that it ends in the beginning of goes on in `next`.
pub open spec fn may_end(pats: Seq<Seq<u8>>, node: Seq<u8>, next: Seq<u8>) -> bool {
    language::neg_body(pats, node, next)
}

/// The views of a list of byte strings.
pub open spec fn pats_view(pats: Seq<Vec<u8>>) -> Seq<Seq<u8>> {
    Seq::new(pats.len(), |i: int| pats[i]@)
}

/// Some node stands for `x`.
spec fn is_node(nodes: Seq<Vec<u8>>, x: Seq<u8>) -> bool {
    exists|i: int| 0 <= i < nodes.len() && (#[trigger] nodes[i])@ == x
}

/// The nodes stand for the empty string and the beginnings of the forbidden
/// strings, each once; the root stands for the empty string.
spec fn nodes_ok(nodes: Seq<Vec<u8>>, pats: Seq<Seq<u8>>) -> bool {
    &&& nodes.len() > 0
    &&& nodes[0]@.len() == 0
    &&& forall|i: int| 0 < i < nodes.len() ==> (#[trigger] nodes[i])@.len() > 0
    &&& forall|i: int, j: int|
        0 <= i < j < nodes.len() ==> (#[trigger] nodes[i])@ != (#[trigger] nodes[j])@
    &&& forall|x: Seq<u8>| x.len() > 0 ==> (#[trigger] is_node(nodes, x) <==> language::begins_some(
        pats,
        x,
    ))
}

/// Node `u` stands for the longest end of `w` that a node stands for.
spec fn tracks(nodes: Seq<Vec<u8>>, u: int, w: Seq<u8>) -> bool {
    &&& 0 <= u < nodes.len()
    &&& nodes[u]@.is_suffix_of(w)
    &&& forall|i: int|
        0 <= i <= w.len() && is_node(nodes, #[trigger] w.skip(i)) ==> w.len() - i
            <= nodes[u]@.len()
}

/// The index of the first node that stands for `x[from..]`.
fn find_node(nodes: &Vec<Vec<u8>>, x: &Vec<u8>, from: usize) -> (r: Option<usize>)
    requires
        from <= x@.len(),
    ensures
        r matches Some(i) ==> i < nodes@.len() && nodes@[i as int]@ == x@.skip(from as int),
        r is None <==> !is_node(nodes@, x@.skip(from as int)),
{
    let mut i: usize = 0;
    while i < nodes.len()
        invariant
            i <= nodes@.len(),
            from <= x@.len(),
            forall|k: int| 0 <= k < i ==> (#[trigger] nodes@[k])@ != x@.skip(from as int),
        decreases nodes@.len() - i,
    {
        let node = &nodes[i];
        let n = x.len();
        let mut same = node.len() == n - from;
        let mut j: usize = 0;
        while same && j < node.len()
            invariant
                same ==> node@.len() == x@.len() - from,
                same ==> j <= node@.len(),
                same ==> forall|k: int| 0 <= k < j ==> node@[k] == x@.skip(from as int)[k],
                !same ==> node@ != x@.skip(from as int),
                node@.len() == x@.len() - from || !same,
                from <= x@.len(),
                n == x@.len(),
            decreases node@.len() - j, (if same { 1int } else { 0int }),
        {
            if node[j] != x[from + j] {
                same = false;
                assert(x@.skip(from as int)[j as int] == x@[from + j]);
            } else {
                j += 1;
            }
        }
        if same {
            assert(node@ =~= x@.skip(from as int));
            return Some(i);
        }
        i += 1;
    }
    None
}

/// Of what is left of `w` from `i` on, with `next`, and `p` one begins with the
/// other.
fn meets_at(w: &Vec<u8>, next: &Vec<u8>, i: usize, p: &Vec<u8>) -> (r: bool)
    requires
        i < w@.len(),
    ensures
        r == language::meets((w@ + next@).skip(i as int), p@),
{
    let ghost y = (w@ + next@).skip(i as int);
    let n = w.len();
    let left = n - i;
    let mut m: usize = 0;
    while m < p.len() && (m < left || m - left < next.len())
        invariant
            m <= p@.len(),
            m <= y.len(),
            i < w@.len(),
            n == w@.len(),
            left == n - i,
            y == (w@ + next@).skip(i as int),
            forall|c: int| 0 <= c < m ==> #[trigger] y[c] == p@[c],
        decreases p@.len() - m,
    {
        let b = if m < left {
            w[i + m]
        } else {
            next[m - left]
        };
        assert(b == y[m as int]);
        if b != p[m] {
            proof {
                if p@.is_prefix_of(y) {
                    assert(y.subrange(0, p@.len() as int)[m as int] == y[m as int]);
                }
                if y.is_prefix_of(p@) {
                    assert(p@.subrange(0, y.len() as int)[m as int] == p@[m as int]);
                }
            }
            return false;
        }
        m += 1;
    }
    proof {
        if m == p@.len() {
            assert(p@ =~= y.subrange(0, p@.len() as int));
        } else {
            assert(m == y.len());
            assert(y =~= p@.subrange(0, y.len() as int));
        }
    }
    true
}

/// True iff a repeated negated lookahead matches `w` where the literal `next`
/// comes after it.
pub(crate) fn avoids(pats: &Vec<Vec<u8>>, w: &Vec<u8>, next: &Vec<u8>) -> (r: bool)
    ensures
        r == language::neg_body(pats_view(pats@), w@, next@),
{
    let ghost pv = pats_view(pats@);
    let ghost y = w@ + next@;
    let mut i: usize = 0;
    while i < w.len()
        invariant
            i <= w@.len(),
            pv == pats_view(pats@),
            y == w@ + next@,
            forall|c: int, k: int|
                #![trigger y.skip(c), pv[k]]
                0 <= c < i && 0 <= k < pv.len() && pv[k].len() > 0 ==> !language::meets(
                    y.skip(c),
                    pv[k],
                ),
        decreases w@.len() - i,
    {
        let mut k: usize = 0;
        while k < pats.len()
            invariant
                i < w@.len(),
                k <= pats@.len(),
                pv == pats_view(pats@),
                y == w@ + next@,
                forall|c: int|
                    0 <= c < k && (#[trigger] pv[c]).len() > 0 ==> !language::meets(
                        y.skip(i as int),
                        pv[c],
                    ),
            decreases pats@.len() - k,
        {
            assert(pv[k as int] == pats@[k as int]@);
            if pats[k].len() > 0 && meets_at(w, next, i, &pats[k]) {
                assert(language::meets((w@ + next@).skip(i as int), pv[k as int]));
                return false;
            }
            k += 1;
        }
        i += 1;
    }
    true
}

impl AcAutomaton {
    /// Every transition leads to a state, and the root is not accepting.
    pub open spec fn wf(self) -> bool {
        &&& self.goto@.len() == self.accept@.len()
        &&& self.goto@.len() == self.nodes@.len()
        &&& self.goto@.len() > 0
        &&& !self.accept@[0]
        &&& forall|s: int|
            0 <= s < self.goto@.len() ==> (#[trigger] self.goto@[s])@.len() == 256
        &&& forall|s: int, b: int|
            0 <= s < self.goto@.len() && 0 <= b < 256 ==> #[trigger] self.goto@[s]@[b]
                < self.goto@.len()
    }

    /// The state after reading `w` from state `s`, unless a forbidden string
    /// was completed on the way.
    pub open spec fn run(self, s: int, w: Seq<u8>) -> Option<int>
        decreases w.len(),
    {
        if w.len() == 0 {
            Some(s)
        } else {
            let t = self.goto@[s]@[w[0] as int] as int;
            if self.accept@[t] {
                None
            } else {
                self.run(t, w.skip(1))
            }
        }
    }

    /// The state after reading `w` from state `s`.
    pub open spec fn read(self, s: int, w: Seq<u8>) -> int
        decreases w.len(),
    {
        if w.len() == 0 {
            s
        } else {
            self.read(self.goto@[s]@[w[0] as int] as int, w.skip(1))
        }
    }

    /// The automaton decides what a repeated negated lookahead over `pats`
    /// matches: the strings that can be read without completing one of them,
    /// and left where they come to.
    pub open spec fn decides(self, pats: Seq<Seq<u8>>) -> bool {
        forall|w: Seq<u8>, next: Seq<u8>| #[trigger]
            language::neg_body(pats, w, next) <==> self.reads(pats, w, next)
    }

    /// The string is read without completing a forbidden one, and can be left
    /// for `next` where it comes to.
    pub open spec fn reads(self, pats: Seq<Seq<u8>>, w: Seq<u8>, next: Seq<u8>) -> bool {
        self.run(0, w) matches Some(t) && may_end(pats, self.nodes@[t]@, next)
    }

    /// The state that a string leads to is accepting iff the string ends in a
    /// non-empty one of `pats`.
    pub open spec fn spots(self, pats: Seq<Seq<u8>>) -> bool {
        forall|w: Seq<u8>|
            0 <= #[trigger] self.read(0, w) < self.goto@.len() && self.accept@[self.read(0, w)]
                == language::hit_at(pats, w, w.len() as int)
    }

    /// The automaton follows the nodes: a transition leads to the longest end
    /// of the string read that is a node, and a state is accepting iff a
    /// forbidden string ends there.
    spec fn follows(self, nodes: Seq<Vec<u8>>, pats: Seq<Seq<u8>>) -> bool {
        &&& self.wf()
        &&& self.nodes@ == nodes
        &&& forall|s: int, b: u8|
            0 <= s < nodes.len() ==> goes(
                nodes,
                nodes[s]@.push(b),
                #[trigger] self.goto@[s]@[b as int] as int,
            )
        &&& forall|s: int|
            0 <= s < nodes.len() ==> (#[trigger] self.accept@[s] == language::hit_at(
                pats,
                nodes[s]@,
                nodes[s]@.len() as int,
            ))
    }

    /// Build the automaton of a set of byte strings. Empty strings are
    /// passed over.
    pub fn build(pats: &Vec<Vec<u8>>) -> (r: Self)
        ensures
            r.wf(),
            r.decides(pats_view(pats@)),
            r.spots(pats_view(pats@)),
            language::beginnings(pats_view(pats@)).finite(),
            r.goto@.len() == language::beginnings(pats_view(pats@)).len(),
    {
        let nodes = collect_nodes(pats);
        let ghost pv = pats_view(pats@);
        let mut goto: Vec<Vec<usize>> = Vec::new();
        let mut accept: Vec<bool> = Vec::new();
        let mut s: usize = 0;
        while s < nodes.len()
            invariant
                s <= nodes@.len(),
                pv == pats_view(pats@),
                nodes_ok(nodes@, pv),
                goto@.len() == s,
                accept@.len() == s,
                forall|k: int| 0 <= k < s ==> (#[trigger] goto@[k])@.len() == 256,
                forall|k: int, b: u8|
                    0 <= k < s ==> goes(
                        nodes@,
                        nodes@[k]@.push(b),
                        #[trigger] goto@[k]@[b as int] as int,
                    ),
                forall|k: int|
                    0 <= k < s ==> (#[trigger] accept@[k] == language::hit_at(
                        pv,
                        nodes@[k]@,
                        nodes@[k]@.len() as int,
                    )),
            decreases nodes@.len() - s,
        {
            let row = transitions(&nodes, s, Ghost(pv));
            let hit = ends_in_pattern(pats, &nodes[s]);
            goto.push(row);
            accept.push(hit);
            s += 1;
        }
        let ghost nv = nodes@;
        let r = AcAutomaton { goto, accept, nodes };
        proof {
            assert(!r.accept@[0]) by {
                if language::hit_at(pv, nv[0]@, 0) {
                    let k = choose|k: int|
                        0 <= k < pv.len() && pv[k].len() > 0 && #[trigger] language::ends_at(
                            pv[k],
                            nv[0]@,
                            0,
                        );
                    assert(false);
                }
            }
            assert forall|s: int, b: int| 0 <= s < r.goto@.len() && 0 <= b < 256 implies
                #[trigger] r.goto@[s]@[b] < r.goto@.len() by {
                assert(goes(nv, nv[s]@.push(b as u8), r.goto@[s]@[(b as u8) as int] as int));
            }
            assert(r.follows(nv, pv));
            assert forall|w: Seq<u8>, next: Seq<u8>| #[trigger]
                language::neg_body(pv, w, next) <==> r.reads(pv, w, next) by {
                lemma_decides(r, nv, pv, w, next);
            }
            assert forall|w: Seq<u8>|
                0 <= #[trigger] r.read(0, w) < r.goto@.len() && r.accept@[r.read(0, w)]
                    == language::hit_at(pv, w, w.len() as int) by {
                let e = Seq::<u8>::empty();
                assert(nv[0]@ =~= e);
                assert(tracks(nv, 0, e));
                lemma_read(r, nv, pv, 0, e, w);
                assert(e + w =~= w);
                lemma_hit(nv, pv, r.read(0, w), w);
            }
            lemma_node_count(nv, pv);
        }
        r
    }
}

/// `t` is the node of the longest end of `x` that is a node.
spec fn goes(nodes: Seq<Vec<u8>>, x: Seq<u8>, t: int) -> bool {
    &&& 0 <= t < nodes.len()
    &&& nodes[t]@.len() <= x.len()
    &&& nodes[t]@ == x.skip(x.len() - nodes[t]@.len())
    &&& forall|j: int|
        0 <= j < x.len() - nodes[t]@.len() ==> !is_node(nodes, #[trigger] x.skip(j))
}

/// The transitions of one state.
fn transitions(nodes: &Vec<Vec<u8>>, s: usize, Ghost(pv): Ghost<Seq<Seq<u8>>>) -> (row: Vec<usize>)
    requires
        s < nodes@.len(),
        nodes_ok(nodes@, pv),
    ensures
        row@.len() == 256,
        forall|b: u8| goes(nodes@, nodes@[s as int]@.push(b), #[trigger] row@[b as int] as int),
{
    let mut row: Vec<usize> = Vec::new();
    let mut b: usize = 0;
    while b < 256
        invariant
            b <= 256,
            s < nodes@.len(),
            nodes_ok(nodes@, pv),
            row@.len() == b,
            forall|k: u8|
                k < b ==> goes(nodes@, nodes@[s as int]@.push(k), #[trigger] row@[k as int] as int),
        decreases 256 - b,
    {
        let mut x: Vec<u8> = Vec::new();
        let mut i: usize = 0;
        while i < nodes[s].len()
            invariant
                s < nodes@.len(),
                i <= nodes@[s as int]@.len(),
                x@ == nodes@[s as int]@.take(i as int),
            decreases nodes@[s as int]@.len() - i,
        {
            x.push(nodes[s][i]);
            i += 1;
        }
        x.push(b as u8);
        assert(x@ =~= nodes@[s as int]@.push(b as u8));
        let mut from: usize = 0;
        let mut found: Option<usize> = None;
        while found.is_none() && from < x.len()
            invariant
                nodes_ok(nodes@, pv),
                from <= x@.len(),
                forall|j: int| 0 <= j < from ==> !is_node(nodes@, #[trigger] x@.skip(j)),
                found matches Some(t) ==> t < nodes@.len() && nodes@[t as int]@ == x@.skip(
                    from as int,
                ),
            decreases x@.len() - from, (if found is None { 1int } else { 0int }),
        {
            found = find_node(nodes, &x, from);
            if found.is_none() {
                from += 1;
            }
        }
        let t: usize = match found {
            Some(t) => t,
            None => {
                assert(x@.skip(x@.len() as int) =~= nodes@[0]@);
                0
            },
        };
        row.push(t);
        b += 1;
    }
    row
}

/// Some non-empty forbidden string ends `x`.
fn ends_in_pattern(pats: &Vec<Vec<u8>>, x: &Vec<u8>) -> (r: bool)
    ensures
        r == language::hit_at(pats_view(pats@), x@, x@.len() as int),
{
    let ghost pv = pats_view(pats@);
    let mut k: usize = 0;
    while k < pats.len()
        invariant
            k <= pats@.len(),
            pv == pats_view(pats@),
            forall|m: int|
                0 <= m < k ==> !((#[trigger] pv[m]).len() > 0 && language::ends_at(
                    pv[m],
                    x@,
                    x@.len() as int,
                )),
        decreases pats@.len() - k,
    {
        let p = &pats[k];
        assert(p@ == pv[k as int]);
        if p.len() > 0 && p.len() <= x.len() {
            let n = x.len();
            let off = n - p.len();
            let mut same = true;
            let mut i: usize = 0;
            while same && i < p.len()
                invariant
                    i <= p@.len(),
                    off + p@.len() == x@.len(),
                    n == x@.len(),
                    same ==> forall|m: int| 0 <= m < i ==> p@[m] == x@[off + m],
                    !same ==> x@.subrange(off as int, x@.len() as int) != p@,
                decreases p@.len() - i, (if same { 1int } else { 0int }),
            {
                if p[i] != x[off + i] {
                    same = false;
                    assert(x@.subrange(off as int, x@.len() as int)[i as int] == x@[off + i]);
                } else {
                    i += 1;
                }
            }
            if same {
                assert(x@.subrange(off as int, x@.len() as int) =~= p@);
                assert(language::ends_at(pv[k as int], x@, x@.len() as int));
                return true;
            }
        }
        k += 1;
    }
    false
}

/// The beginnings of the forbidden strings, in the order in which they first
/// occur, behind the empty string.
fn collect_nodes(pats: &Vec<Vec<u8>>) -> (nodes: Vec<Vec<u8>>)
    ensures
        nodes_ok(nodes@, pats_view(pats@)),
{
    let ghost pv = pats_view(pats@);
    let mut nodes: Vec<Vec<u8>> = Vec::new();
    nodes.push(Vec::new());
    let mut k: usize = 0;
    while k < pats.len()
        invariant
            k <= pats@.len(),
            pv == pats_view(pats@),
            nodes@.len() > 0,
            nodes@[0]@.len() == 0,
            forall|i: int| 0 < i < nodes@.len() ==> (#[trigger] nodes@[i])@.len() > 0,
            forall|i: int, j: int|
                0 <= i < j < nodes@.len() ==> (#[trigger] nodes@[i])@ != (#[trigger] nodes@[j])@,
            forall|i: int|
                0 < i < nodes@.len() ==> language::begins_some(pv, (#[trigger] nodes@[i])@),
            forall|m: int, l: int|
                0 <= m < k && 0 < l <= pv[m].len() ==> is_node(nodes@, #[trigger] pv[m].take(l)),
        decreases pats@.len() - k,
    {
        let p = &pats[k];
        assert(p@ == pv[k as int]);
        let mut prefix: Vec<u8> = Vec::new();
        let mut l: usize = 0;
        while l < p.len()
            invariant
                k < pats@.len(),
                pv == pats_view(pats@),
                p@ == pv[k as int],
                l <= p@.len(),
                prefix@ == p@.take(l as int),
                nodes@.len() > 0,
                nodes@[0]@.len() == 0,
                forall|i: int| 0 < i < nodes@.len() ==> (#[trigger] nodes@[i])@.len() > 0,
                forall|i: int, j: int|
                    0 <= i < j < nodes@.len() ==> (#[trigger] nodes@[i])@ != (
                    #[trigger] nodes@[j])@,
                forall|i: int|
                    0 < i < nodes@.len() ==> language::begins_some(pv, (#[trigger] nodes@[i])@),
                forall|m: int, j: int|
                    0 <= m < k && 0 < j <= pv[m].len() ==> is_node(
                        nodes@,
                        #[trigger] pv[m].take(j),
                    ),
                forall|j: int| 0 < j <= l ==> is_node(nodes@, #[trigger] p@.take(j)),
            decreases p@.len() - l,
        {
            prefix.push(p[l]);
            l += 1;
            assert(prefix@ =~= p@.take(l as int));
            assert(prefix@.skip(0) =~= prefix@);
            let ghost before = nodes@;
            if find_node(&nodes, &prefix, 0).is_none() {
                let mut node: Vec<u8> = Vec::new();
                let mut i: usize = 0;
                while i < prefix.len()
                    invariant
                        i <= prefix@.len(),
                        node@ == prefix@.take(i as int),
                    decreases prefix@.len() - i,
                {
                    node.push(prefix[i]);
                    i += 1;
                }
                assert(node@ =~= prefix@);
                nodes.push(node);
                proof {
                    assert(prefix@.is_prefix_of(pv[k as int]));
                    assert(language::begins_some(pv, node@));
                    assert(nodes@[before.len() as int]@ == p@.take(l as int));
                    assert forall|x: Seq<u8>| is_node(before, x) implies is_node(nodes@, x) by {
                        let i = choose|i: int| 0 <= i < before.len() && (#[trigger] before[i])@ == x;
                        assert(nodes@[i]@ == x);
                    }
                }
            }
        }
        k += 1;
    }
    proof {
        assert forall|x: Seq<u8>| x.len() > 0 implies (#[trigger] is_node(nodes@, x)
            <==> language::begins_some(pv, x)) by {
            if is_node(nodes@, x) {
                let i = choose|i: int| 0 <= i < nodes@.len() && (#[trigger] nodes@[i])@ == x;
                assert(i > 0);
            }
            if language::begins_some(pv, x) {
                let m = choose|m: int| 0 <= m < pv.len() && x.is_prefix_of(#[trigger] pv[m]);
                assert(x =~= pv[m].take(x.len() as int));
            }
        }
    }
    nodes
}

proof fn lemma_step(
    nodes: Seq<Vec<u8>>,
    pats: Seq<Seq<u8>>,
    u: int,
    w: Seq<u8>,
    b: u8,
    t: int,
)
    requires
        nodes_ok(nodes, pats),
        tracks(nodes, u, w),
        goes(nodes, nodes[u]@.push(b), t),
    ensures
        tracks(nodes, t, w.push(b)),
{
    let x = nodes[u]@.push(b);
    let y = w.push(b);
    let nu = nodes[u]@;
    assert(nu =~= w.skip(w.len() - nu.len()));
    assert forall|i: int| 0 <= i <= x.len() implies #[trigger] x.skip(i) =~= y.skip(
        y.len() - x.len() + i,
    ) by {
        assert forall|k: int| 0 <= k < x.len() - i implies x.skip(i)[k] == y.skip(
            y.len() - x.len() + i,
        )[k] by {
            if i + k < nu.len() {
                assert(nu[i + k] == w.skip(w.len() - nu.len())[i + k]);
            }
        }
    }
    let nt = nodes[t]@;
    assert(nt == x.skip(x.len() - nt.len()));
    assert(nt =~= y.skip(y.len() - nt.len()));
    assert(nt.is_suffix_of(y));
    assert forall|i: int| 0 <= i <= y.len() && is_node(nodes, #[trigger] y.skip(i)) implies y.len()
        - i <= nt.len() by {
        if i < y.len() {
            let z = y.skip(i);
            assert(language::begins_some(pats, z));
            let k = choose|k: int| 0 <= k < pats.len() && z.is_prefix_of(#[trigger] pats[k]);
            let z1 = w.skip(i);
            assert(z1 =~= z.drop_last());
            if z1.len() > 0 {
                assert(z1.is_prefix_of(pats[k]));
                assert(language::begins_some(pats, z1));
                assert(is_node(nodes, z1));
            } else {
                assert(nodes[0]@ =~= z1);
            }
            assert(is_node(nodes, w.skip(i)));
            assert(w.len() - i <= nu.len());
            let j = x.len() - z.len();
            assert(x.skip(j) == y.skip(i));
            if j < x.len() - nt.len() {
                assert(!is_node(nodes, x.skip(j)));
            }
        }
    }
}

proof fn lemma_hit(nodes: Seq<Vec<u8>>, pats: Seq<Seq<u8>>, u: int, w: Seq<u8>)
    requires
        nodes_ok(nodes, pats),
        tracks(nodes, u, w),
    ensures
        language::hit_at(pats, w, w.len() as int) == language::hit_at(
            pats,
            nodes[u]@,
            nodes[u]@.len() as int,
        ),
{
    let n = nodes[u]@;
    let d = w.len() - n.len();
    assert(n =~= w.skip(d));
    if language::hit_at(pats, w, w.len() as int) {
        let k = choose|k: int|
            0 <= k < pats.len() && pats[k].len() > 0 && #[trigger] language::ends_at(
                pats[k],
                w,
                w.len() as int,
            );
        let p = pats[k];
        let i = w.len() - p.len();
        assert(w.skip(i) =~= p);
        assert(p.is_prefix_of(pats[k]));
        assert(language::begins_some(pats, p));
        assert(is_node(nodes, w.skip(i)));
        assert(n.subrange(n.len() - p.len(), n.len() as int) =~= p);
        assert(language::ends_at(pats[k], n, n.len() as int));
    }
    if language::hit_at(pats, n, n.len() as int) {
        let k = choose|k: int|
            0 <= k < pats.len() && pats[k].len() > 0 && #[trigger] language::ends_at(
                pats[k],
                n,
                n.len() as int,
            );
        let p = pats[k];
        assert(w.subrange(w.len() - p.len(), w.len() as int) =~= n.subrange(
            n.len() - p.len(),
            n.len() as int,
        ));
        assert(language::ends_at(pats[k], w, w.len() as int));
    }
}

/// Whether a forbidden string ends at a position does not depend on what
/// follows.
proof fn lemma_hit_prefix(pats: Seq<Seq<u8>>, w: Seq<u8>, v: Seq<u8>, j: int)
    requires
        0 <= j <= w.len(),
    ensures
        language::hit_at(pats, w + v, j) == language::hit_at(pats, w, j),
{
    assert forall|k: int| 0 <= k < pats.len() implies #[trigger] language::ends_at(
        pats[k],
        w + v,
        j,
    ) == language::ends_at(pats[k], w, j) by {
        if pats[k].len() <= j {
            assert((w + v).subrange(j - pats[k].len(), j) =~= w.subrange(j - pats[k].len(), j));
        }
    }
    if language::hit_at(pats, w + v, j) {
        let k = choose|k: int|
            0 <= k < pats.len() && pats[k].len() > 0 && #[trigger] language::ends_at(
                pats[k],
                w + v,
                j,
            );
        assert(language::ends_at(pats[k], w, j));
    }
    if language::hit_at(pats, w, j) {
        let k = choose|k: int|
            0 <= k < pats.len() && pats[k].len() > 0 && #[trigger] language::ends_at(pats[k], w, j);
        assert(language::ends_at(pats[k], w + v, j));
    }
}

proof fn lemma_run(
    ac: AcAutomaton,
    nodes: Seq<Vec<u8>>,
    pats: Seq<Seq<u8>>,
    u: int,
    w: Seq<u8>,
    v: Seq<u8>,
)
    requires
        nodes_ok(nodes, pats),
        ac.follows(nodes, pats),
        tracks(nodes, u, w),
    ensures
        ac.run(u, v) is None <==> exists|j: int|
            w.len() < j <= w.len() + v.len() && #[trigger] language::hit_at(pats, w + v, j),
        ac.run(u, v) matches Some(t) ==> tracks(nodes, t, w + v),
    decreases v.len(),
{
    if v.len() == 0 {
        assert(w + v =~= w);
    } else {
        let b = v[0];
        let t = ac.goto@[u]@[b as int] as int;
        lemma_step(nodes, pats, u, w, b, t);
        lemma_hit(nodes, pats, t, w.push(b));
        let v1 = v.skip(1);
        assert(w.push(b) + v1 =~= w + v);
        lemma_hit_prefix(pats, w.push(b), v1, w.len() as int + 1);
        assert(language::hit_at(pats, w + v, w.len() as int + 1) == ac.accept@[t]);
        if !ac.accept@[t] {
            lemma_run(ac, nodes, pats, t, w.push(b), v1);
        }
    }
}

proof fn lemma_decides(
    ac: AcAutomaton,
    nodes: Seq<Vec<u8>>,
    pats: Seq<Seq<u8>>,
    w: Seq<u8>,
    next: Seq<u8>,
)
    requires
        nodes_ok(nodes, pats),
        ac.follows(nodes, pats),
    ensures
        language::neg_body(pats, w, next) <==> ac.reads(pats, w, next),
{
    let e = Seq::<u8>::empty();
    assert(tracks(nodes, 0, e)) by {
        assert(nodes[0]@ =~= e);
    }
    lemma_run(ac, nodes, pats, 0, e, w);
    assert(e + w =~= w);
    if language::neg_body(pats, w, next) {
        if ac.run(0, w) is None {
            let j = choose|j: int| 0 < j <= w.len() && #[trigger] language::hit_at(pats, w, j);
            let k = choose|k: int|
                0 <= k < pats.len() && pats[k].len() > 0 && #[trigger] language::ends_at(
                    pats[k],
                    w,
                    j,
                );
            let i = j - pats[k].len();
            assert(pats[k] =~= (w + next).skip(i).subrange(0, pats[k].len() as int));
            assert(language::meets((w + next).skip(i), pats[k]));
        }
        let t = ac.run(0, w)->0;
        let n = nodes[t]@;
        let d = w.len() - n.len();
        assert(n =~= w.skip(d));
        assert forall|i: int, k: int|
            #![trigger (n + next).skip(i), pats[k]]
            0 <= i < n.len() && 0 <= k < pats.len() && pats[k].len() > 0 implies !language::meets(
            (n + next).skip(i),
            pats[k],
        ) by {
            assert((n + next).skip(i) =~= (w + next).skip(d + i));
        }
    }
    if ac.reads(pats, w, next) {
        let t = ac.run(0, w)->0;
        assert forall|i: int, k: int|
            #![trigger (w + next).skip(i), pats[k]]
            0 <= i < w.len() && 0 <= k < pats.len() && pats[k].len() > 0 implies !language::meets(
            (w + next).skip(i),
            pats[k],
        ) by {
            lemma_meets(nodes, pats, t, w, next, i, k);
        }
    }
}

/// No forbidden string begins in `w` if none is completed in it and none goes
/// on behind the longest end of `w` that is a node.
proof fn lemma_meets(
    nodes: Seq<Vec<u8>>,
    pats: Seq<Seq<u8>>,
    t: int,
    w: Seq<u8>,
    next: Seq<u8>,
    i: int,
    k: int,
)
    requires
        nodes_ok(nodes, pats),
        tracks(nodes, t, w),
        0 <= i < w.len(),
        0 <= k < pats.len(),
        pats[k].len() > 0,
        may_end(pats, nodes[t]@, next),
        forall|j: int| 0 < j <= w.len() ==> !#[trigger] language::hit_at(pats, w, j),
    ensures
        !language::meets((w + next).skip(i), pats[k]),
{
    let p = pats[k];
    let x = w.skip(i);
    let y = (w + next).skip(i);
    assert(y =~= x + next);
    if language::meets(y, p) && p.len() <= x.len() {
        if !p.is_prefix_of(y) {
            assert(y.is_prefix_of(p));
            assert(y =~= p);
            assert(p.is_prefix_of(y));
        }
        assert(w.subrange(i, i + p.len()) =~= y.subrange(0, p.len() as int));
        assert(language::ends_at(pats[k], w, i + p.len()));
        assert(language::hit_at(pats, w, i + p.len()));
    } else if language::meets(y, p) {
        assert(x.is_prefix_of(p)) by {
            if p.is_prefix_of(y) {
                assert(x =~= p.subrange(0, x.len() as int)) by {
                    assert forall|c: int| 0 <= c < x.len() implies x[c] == p[c] by {
                        assert(p == y.subrange(0, p.len() as int));
                        assert(y.subrange(0, p.len() as int)[c] == y[c]);
                    }
                }
            } else {
                assert(x =~= p.subrange(0, x.len() as int)) by {
                    assert forall|c: int| 0 <= c < x.len() implies x[c] == p[c] by {
                        assert(y == p.subrange(0, y.len() as int));
                        assert(p.subrange(0, y.len() as int)[c] == p[c]);
                    }
                }
            }
        }
        assert(language::begins_some(pats, x));
        assert(is_node(nodes, w.skip(i)));
        let n = nodes[t]@;
        let d = w.len() - n.len();
        assert(n =~= w.skip(d));
        assert((n + next).skip(i - d) =~= y);
        assert(language::meets((n + next).skip(i - d), pats[k]));
    }
}

/// Reading stays within the states.
pub proof fn lemma_run_within(ac: AcAutomaton, u: int, w: Seq<u8>)
    requires
        ac.wf(),
        0 <= u < ac.goto@.len(),
    ensures
        ac.run(u, w) matches Some(t) ==> 0 <= t < ac.goto@.len(),
    decreases w.len(),
{
    if w.len() > 0 {
        let t = ac.goto@[u]@[w[0] as int] as int;
        assert(0 <= t < ac.goto@.len());
        lemma_run_within(ac, t, w.skip(1));
    }
}

/// Reading on keeps to the longest end of the string read that is a node.
proof fn lemma_read(
    ac: AcAutomaton,
    nodes: Seq<Vec<u8>>,
    pats: Seq<Seq<u8>>,
    u: int,
    w: Seq<u8>,
    v: Seq<u8>,
)
    requires
        nodes_ok(nodes, pats),
        ac.follows(nodes, pats),
        tracks(nodes, u, w),
    ensures
        tracks(nodes, ac.read(u, v), w + v),
    decreases v.len(),
{
    if v.len() == 0 {
        assert(w + v =~= w);
    } else {
        let b = v[0];
        let t = ac.goto@[u]@[b as int] as int;
        lemma_step(nodes, pats, u, w, b, t);
        assert(w.push(b) + v.skip(1) =~= w + v);
        lemma_read(ac, nodes, pats, t, w.push(b), v.skip(1));
    }
}

/// There are as many nodes as beginnings.
proof fn lemma_node_count(nodes: Seq<Vec<u8>>, pats: Seq<Seq<u8>>)
    requires
        nodes_ok(nodes, pats),
    ensures
        language::beginnings(pats).finite(),
        language::beginnings(pats).len() == nodes.len(),
{
    let views = pats_view(nodes);
    assert(views.no_duplicates());
    views.unique_seq_to_set();
    vstd::seq_lib::seq_to_set_is_finite(views);
    assert forall|x: Seq<u8>| views.to_set().contains(x) <==> language::beginnings(pats).contains(
        x,
    ) by {
        if x.len() == 0 {
            assert(views[0] =~= x);
            assert(views.contains(x));
        } else {
            assert(is_node(nodes, x) <==> language::begins_some(pats, x));
            if is_node(nodes, x) {
                let i = choose|i: int| 0 <= i < nodes.len() && (#[trigger] nodes[i])@ == x;
                assert(views[i] == x);
            }
            if views.contains(x) {
                let i = choose|i: int| 0 <= i < views.len() && views[i] == x;
                assert(nodes[i]@ == x);
            }
        }
    }
    assert(views.to_set() =~= language::beginnings(pats));
}

} // verus!
