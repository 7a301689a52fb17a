//! Thompson-style construction of a nondeterministic automaton from token
//! patterns.
use vstd::prelude::*;

use crate::grammar::ir::{self, CharClass, ClassItem, ClassView, PatternView, TokenPattern};
use crate::lowering::aho_corasick::{self, AcAutomaton};
use crate::lowering::graph::{self, Edge};
use crate::lowering::language;
use crate::lowering::table::TokenInfo;
use crate::lowering::utf8_ranges;
use crate::names;

verus! {

/// One automaton state.
pub struct NfaState {
    /// Inclusive byte ranges and the state entered on any byte of the range.
    pub range_trans: Vec<((u8, u8), usize)>,
    /// States entered without reading.
    pub epsilon: Vec<usize>,
    /// Token kind accepted here, if any.
    pub accept: Option<u16>,
}

/// An automaton with its start state.
pub struct Nfa {
    pub states: Vec<NfaState>,
    pub start: usize,
}

/// The two ends of a part of the automaton.
pub struct NfaFragment {
    pub start: usize,
    pub end: usize,
}

/// An automaton under construction.
pub struct NfaBuilder {
    pub states: Vec<NfaState>,
}

impl NfaState {
    /// The state has an edge labelled `l` to `t`.
    pub open spec fn leads(self, l: Option<u8>, t: int) -> bool {
        match l {
            None => exists|i: int|
                0 <= i < self.epsilon@.len() && #[trigger] self.epsilon@[i] == t,
            Some(b) => exists|i: int|
                0 <= i < self.range_trans@.len() && (#[trigger] self.range_trans@[i]).1 == t
                    && self.range_trans@[i].0.0 <= b <= self.range_trans@[i].0.1,
        }
    }
}

/// Repetition flavour of a negated lookahead.
#[derive(Clone, Copy, Debug, PartialEq, Eq, Structural)]
pub enum NegLookRep {
    Star,
    Plus,
}

impl NegLookRep {
    /// The repeated negated lookahead.
    pub open spec fn pattern(self, c: ClassView, strings: Seq<Seq<char>>) -> PatternView {
        match self {
            NegLookRep::Star => PatternView::Star(Box::new(PatternView::NegLook(c, strings))),
            NegLookRep::Plus => PatternView::Plus(Box::new(PatternView::NegLook(c, strings))),
        }
    }
}

/// The edges between the states.
pub open spec fn edges(states: Seq<NfaState>) -> Set<Edge> {
    Set::new(|e: Edge| 0 <= e.0 < states.len() && states[e.0].leads(e.1, e.2))
}

/// Every edge leads to a state.
pub open spec fn closed(states: Seq<NfaState>) -> bool {
    forall|e: Edge| #[trigger] edges(states).contains(e) ==> 0 <= e.2 < states.len()
}

/// The edges labelled with the bytes of `lo..=hi` from `s` to `t`.
pub open spec fn range_edges(s: int, lo: u8, hi: u8, t: int) -> Set<Edge> {
    Set::new(|e: Edge| e.0 == s && e.2 == t && e.1 is Some && lo <= e.1->0 <= hi)
}

/// The states with index in `lo..hi`.
pub open spec fn between(lo: int, hi: int) -> Set<int> {
    Set::new(|i: int| lo <= i < hi)
}

/// `new` extends `old`: the old states are as they were, and the new ones
/// lead only to one another and accept nothing.
pub open spec fn extends(old: Seq<NfaState>, new: Seq<NfaState>) -> bool {
    &&& old.len() <= new.len()
    &&& forall|i: int| 0 <= i < old.len() ==> #[trigger] new[i] == old[i]
    &&& forall|i: int| old.len() <= i < new.len() ==> (#[trigger] new[i]).accept is None
    &&& forall|e: Edge|
        #[trigger] edges(new).contains(e) && e.0 >= old.len() ==> old.len() <= e.2 < new.len()
}

/// The fragment of `new` beyond `old` spells exactly the strings of `p`.
pub open spec fn fragment_of(
    old: Seq<NfaState>,
    new: Seq<NfaState>,
    f: NfaFragment,
    p: PatternView,
) -> bool {
    &&& extends(old, new)
    &&& old.len() <= f.start < new.len()
    &&& old.len() <= f.end < new.len()
    &&& forall|w: Seq<u8>|
        #[trigger] language::lang(p, w) <==> graph::path(
            edges(new),
            f.start as int,
            w,
            f.end as int,
        )
}

/// The old states have the edges that they had.
/// The fragment of `new` beyond `old` spells exactly the strings of `p` where
/// the literal `next` comes after it.
pub open spec fn fragment_next(
    old: Seq<NfaState>,
    new: Seq<NfaState>,
    f: NfaFragment,
    p: PatternView,
    next: Seq<u8>,
) -> bool {
    &&& extends(old, new)
    &&& old.len() <= f.start < new.len()
    &&& old.len() <= f.end < new.len()
    &&& forall|w: Seq<u8>| #[trigger]
        language::item_lang(p, next, w) <==> graph::path(
            edges(new),
            f.start as int,
            w,
            f.end as int,
        )
}

proof fn lemma_extends_edges(old: Seq<NfaState>, new: Seq<NfaState>, e: Edge)
    requires
        extends(old, new),
    ensures
        e.0 < old.len() ==> edges(new).contains(e) == edges(old).contains(e),
        edges(old).contains(e) ==> edges(new).contains(e),
{
    if 0 <= e.0 < old.len() {
        assert(new[e.0] == old[e.0]);
    }
}

/// A longer extension of an extension extends.
proof fn lemma_extends_trans(a: Seq<NfaState>, b: Seq<NfaState>, c: Seq<NfaState>)
    requires
        extends(a, b),
        extends(b, c),
    ensures
        extends(a, c),
{
    assert forall|i: int| 0 <= i < a.len() implies #[trigger] c[i] == a[i] by {
        assert(b[i] == a[i]);
    }
    assert forall|i: int| a.len() <= i < c.len() implies (#[trigger] c[i]).accept is None by {
        if i < b.len() {
            assert(c[i] == b[i]);
        }
    }
    assert forall|e: Edge| #[trigger]
        edges(c).contains(e) && e.0 >= a.len() implies a.len() <= e.2 < c.len() by {
        lemma_extends_edges(b, c, e);
        if e.0 < b.len() {
            assert(edges(b).contains(e));
        }
    }
}

/// New states may get edges to new states.
proof fn lemma_extends_more(base: Seq<NfaState>, a: Seq<NfaState>, b: Seq<NfaState>, from: int)
    requires
        extends(base, a),
        base.len() <= from < a.len(),
        a.len() == b.len(),
        forall|i: int| 0 <= i < a.len() && i != from ==> #[trigger] b[i] == a[i],
        b[from].accept == a[from].accept,
        forall|e: Edge| #[trigger]
            edges(b).contains(e) ==> edges(a).contains(e) || base.len() <= e.2 < a.len(),
    ensures
        extends(base, b),
{
    assert forall|i: int| 0 <= i < base.len() implies #[trigger] b[i] == base[i] by {
        assert(a[i] == base[i]);
    }
    assert forall|i: int| base.len() <= i < b.len() implies (#[trigger] b[i]).accept is None by {
        assert(a[i].accept is None);
    }
    assert forall|e: Edge| #[trigger]
        edges(b).contains(e) && e.0 >= base.len() implies base.len() <= e.2 < b.len() by {
        if edges(a).contains(e) {
        }
    }
}

/// A branch added between `s` and `e` adds the strings of the branch.
proof fn lemma_branch(
    base: Seq<NfaState>,
    before: Seq<NfaState>,
    mid: Seq<NfaState>,
    after: Seq<NfaState>,
    s: int,
    e: int,
    f: NfaFragment,
)
    requires
        extends(base, before),
        base.len() <= s < before.len(),
        base.len() <= e < before.len(),
        s != e,
        forall|x: Edge| #[trigger]
            edges(before).contains(x) && x.0 >= base.len() ==> x.2 != s && x.0 != e,
        extends(before, mid),
        before.len() <= f.start < mid.len(),
        before.len() <= f.end < mid.len(),
        edges(after) == edges(mid).insert((s, None::<u8>, f.start as int)).insert(
            (f.end as int, None::<u8>, e),
        ),
    ensures
        forall|x: Edge| #[trigger]
            edges(after).contains(x) && x.0 >= base.len() ==> x.2 != s && x.0 != e,
        forall|w: Seq<u8>| #[trigger]
            graph::path(edges(after), s, w, e) <==> graph::path(edges(before), s, w, e)
                || graph::path(edges(mid), f.start as int, w, f.end as int),
{
    let g = edges(before);
    let gf = edges(mid);
    let h = edges(after);
    let fs = f.start as int;
    let fe = f.end as int;
    let r = Set::new(|i: int| base.len() <= i < before.len() && i != s);
    let rf = between(before.len() as int, mid.len() as int);
    assert forall|x: Edge| #[trigger] h.contains(x) implies {
        &&& x.0 != e
        &&& x.0 == s ==> (g.contains(x) && r.contains(x.2)) || x == (s, None::<u8>, fs)
        &&& r.contains(x.0) ==> g.contains(x) && r.contains(x.2)
        &&& rf.contains(x.0) ==> (gf.contains(x) && rf.contains(x.2)) || x == (fe, None::<u8>, e)
    } by {
        lemma_extends_edges(before, mid, x);
    }
    assert forall|x: Edge| #[trigger]
        h.contains(x) && x.0 >= base.len() implies x.2 != s && x.0 != e by {
        lemma_extends_edges(before, mid, x);
    }
    assert forall|w: Seq<u8>| #[trigger]
        graph::path(h, s, w, e) <==> graph::path(g, s, w, e) || graph::path(gf, fs, w, fe) by {
        if graph::path(h, s, w, e) {
            graph::lemma_alt(g, gf, h, r, rf, s, e, fs, fe, w);
        }
        if graph::path(g, s, w, e) {
            assert forall|x: Edge| #[trigger] g.contains(x) implies h.contains(x) by {
                lemma_extends_edges(before, mid, x);
            }
            graph::lemma_mono(g, h, s, w, e);
        }
        if graph::path(gf, fs, w, fe) {
            graph::lemma_mono(gf, h, fs, w, fe);
            graph::lemma_here(h, e);
            assert(h.contains((fe, None::<u8>, e)));
            graph::lemma_eps_step(h, fe, e, Seq::empty(), e);
            graph::lemma_concat(h, fs, w, fe, Seq::empty(), e);
            assert(w + Seq::<u8>::empty() =~= w);
            assert(h.contains((s, None::<u8>, fs)));
            graph::lemma_eps_step(h, s, fs, w, e);
        }
    }
}

impl NfaBuilder {
    pub fn new() -> (r: Self)
        ensures
            r.states@.len() == 0,
    {
        NfaBuilder { states: Vec::new() }
    }

    /// Adds a state without edges.
    fn new_state(&mut self) -> (r: usize)
        ensures
            r == old(self).states@.len(),
            final(self).states@.len() == r + 1,
            final(self).states@.drop_last() == old(self).states@,
            final(self).states@[r as int].accept is None,
            edges(final(self).states@) == edges(old(self).states@),
            forall|base: Seq<NfaState>|
                extends(base, old(self).states@) ==> #[trigger] extends(base, final(self).states@),
    {
        self.states.push(NfaState { range_trans: Vec::new(), epsilon: Vec::new(), accept: None });
        proof {
            assert(self.states@.drop_last() =~= old(self).states@);
            let n = old(self).states@.len() as int;
            assert forall|e: Edge| edges(self.states@).contains(e) == edges(
                old(self).states@,
            ).contains(e) by {
                if 0 <= e.0 < n {
                    assert(self.states@[e.0] == old(self).states@[e.0]);
                }
                assert(!self.states@[n].leads(e.1, e.2));
            }
            assert(edges(self.states@) =~= edges(old(self).states@));
            assert forall|base: Seq<NfaState>| extends(base, old(self).states@) implies #[trigger] extends(
                base,
                self.states@,
            ) by {
                assert forall|i: int| 0 <= i < base.len() implies #[trigger] self.states@[i]
                    == base[i] by {
                    assert(old(self).states@[i] == base[i]);
                }
                assert forall|i: int| base.len() <= i < self.states@.len() implies (
                #[trigger] self.states@[i]).accept is None by {
                    if i < n {
                        assert(old(self).states@[i].accept is None);
                    }
                }
                assert forall|e: Edge| #[trigger]
                    edges(self.states@).contains(e) && e.0 >= base.len() implies base.len() <= e.2
                    < self.states@.len() by {
                    assert(edges(old(self).states@).contains(e));
                }
            }
        }
        self.states.len() - 1
    }

    fn add_epsilon(&mut self, from: usize, to: usize)
        requires
            from < old(self).states@.len(),
        ensures
            final(self).states@.len() == old(self).states@.len(),
            forall|i: int|
                0 <= i < old(self).states@.len() && i != from ==> #[trigger] final(self).states@[i]
                    == old(self).states@[i],
            final(self).states@[from as int].accept == old(self).states@[from as int].accept,
            edges(final(self).states@) == edges(old(self).states@).insert(
                (from as int, None::<u8>, to as int),
            ),
            forall|base: Seq<NfaState>|
                extends(base, old(self).states@) && base.len() <= from && base.len() <= to
                    < old(self).states@.len() ==> #[trigger] extends(base, final(self).states@),
    {
        let ghost before = self.states@;
        self.states[from].epsilon.push(to);
        proof {
            let after = self.states@;
            let f = from as int;
            let be = before[f].epsilon@;
            assert(after[f].epsilon@ == be.push(to));
            assert forall|e: Edge| edges(after).contains(e) == edges(before).insert(
                (f, None::<u8>, to as int),
            ).contains(e) by {
                if e.0 == f && e.1 is None {
                    if after[f].leads(None, e.2) {
                        let i = choose|i: int|
                            0 <= i < after[f].epsilon@.len() && #[trigger] after[f].epsilon@[i]
                                == e.2;
                        if i < be.len() {
                            assert(be[i] == e.2);
                        }
                    }
                    if before[f].leads(None, e.2) {
                        let i = choose|i: int| 0 <= i < be.len() && #[trigger] be[i] == e.2;
                        assert(after[f].epsilon@[i] == e.2);
                    }
                    assert(after[f].epsilon@[be.len() as int] == to);
                }
            }
            assert(edges(after) =~= edges(before).insert((f, None::<u8>, to as int)));
            assert forall|base: Seq<NfaState>|
                extends(base, before) && base.len() <= from && base.len() <= to
                    < before.len() implies #[trigger] extends(base, after) by {
                lemma_extends_more(base, before, after, f);
            }
        }
    }

    fn add_range(&mut self, from: usize, lo: u8, hi: u8, to: usize)
        requires
            from < old(self).states@.len(),
        ensures
            final(self).states@.len() == old(self).states@.len(),
            forall|i: int|
                0 <= i < old(self).states@.len() && i != from ==> #[trigger] final(self).states@[i]
                    == old(self).states@[i],
            final(self).states@[from as int].accept == old(self).states@[from as int].accept,
            edges(final(self).states@) == edges(old(self).states@).union(
                range_edges(from as int, lo, hi, to as int),
            ),
            forall|base: Seq<NfaState>|
                extends(base, old(self).states@) && base.len() <= from && base.len() <= to
                    < old(self).states@.len() ==> #[trigger] extends(base, final(self).states@),
    {
        let ghost before = self.states@;
        self.states[from].range_trans.push(((lo, hi), to));
        proof {
            let after = self.states@;
            let f = from as int;
            let br = before[f].range_trans@;
            assert(after[f].range_trans@ == br.push(((lo, hi), to)));
            assert forall|e: Edge| edges(after).contains(e) == edges(before).union(
                range_edges(f, lo, hi, to as int),
            ).contains(e) by {
                assert(edges(before).union(range_edges(f, lo, hi, to as int)).contains(e) == (edges(
                    before,
                ).contains(e) || range_edges(f, lo, hi, to as int).contains(e)));
                assert(after[f].epsilon@ == before[f].epsilon@);
                if e.0 == f && e.1 is None {
                    assert(after[f].leads(None, e.2) == before[f].leads(None, e.2));
                }
                if e.0 == f && e.1 is Some {
                    let b = e.1->0;
                    assert(e.1 == Some(b));
                    if after[f].leads(Some(b), e.2) {
                        let i = choose|i: int|
                            0 <= i < after[f].range_trans@.len() && (
                            #[trigger] after[f].range_trans@[i]).1 == e.2
                                && after[f].range_trans@[i].0.0 <= b
                                <= after[f].range_trans@[i].0.1;
                        if i < br.len() {
                            assert(br[i] == after[f].range_trans@[i]);
                            assert(before[f].leads(Some(b), e.2));
                        } else {
                            assert(range_edges(f, lo, hi, to as int).contains(e));
                        }
                    }
                    if before[f].leads(Some(b), e.2) {
                        let i = choose|i: int|
                            0 <= i < br.len() && (#[trigger] br[i]).1 == e.2 && br[i].0.0 <= b
                                <= br[i].0.1;
                        assert(after[f].range_trans@[i] == br[i]);
                        assert(after[f].leads(Some(b), e.2));
                    }
                    if range_edges(f, lo, hi, to as int).contains(e) {
                        assert(after[f].range_trans@[br.len() as int].1 == e.2);
                        assert(after[f].leads(Some(b), e.2));
                    }
                }
            }
            assert(edges(after) =~= edges(before).union(range_edges(f, lo, hi, to as int)));
            assert forall|base: Seq<NfaState>|
                extends(base, before) && base.len() <= from && base.len() <= to
                    < before.len() implies #[trigger] extends(base, after) by {
                lemma_extends_more(base, before, after, f);
            }
        }
    }

    /// A chain of states that reads one byte of each range in order.
    fn compile_chain(&mut self, ranges: &Vec<(u8, u8)>) -> (f: NfaFragment)
        ensures
            extends(old(self).states@, final(self).states@),
            old(self).states@.len() <= f.start < final(self).states@.len(),
            old(self).states@.len() <= f.end < final(self).states@.len(),
            forall|w: Seq<u8>|
                #[trigger] utf8_ranges::ranges_lang(ranges@, w) <==> graph::path(
                    edges(final(self).states@),
                    f.start as int,
                    w,
                    f.end as int,
                ),
    {
        let ghost base = self.states@;
        let s = self.new_state();
        let mut cur: usize = s;
        let mut i: usize = 0;
        proof {
            let g = edges(self.states@);
            assert forall|w: Seq<u8>|
                #[trigger] utf8_ranges::ranges_lang(ranges@.take(0), w) <==> graph::path(
                    g,
                    s as int,
                    w,
                    cur as int,
                ) by {
                if w.len() == 0 {
                    assert(w =~= Seq::<u8>::empty());
                    graph::lemma_here(g, s as int);
                }
                if graph::path(g, s as int, w, cur as int) {
                    graph::lemma_sink(g, s as int, w, cur as int);
                }
            }
        }
        while i < ranges.len()
            invariant
                i <= ranges@.len(),
                extends(base, self.states@),
                s == base.len(),
                base.len() <= cur < self.states@.len(),
                forall|e: Edge| #[trigger]
                    edges(self.states@).contains(e) ==> e.0 != cur,
                forall|w: Seq<u8>|
                    #[trigger] utf8_ranges::ranges_lang(ranges@.take(i as int), w) <==> graph::path(
                        edges(self.states@),
                        s as int,
                        w,
                        cur as int,
                    ),
            decreases ranges@.len() - i,
        {
            let ghost g = edges(self.states@);
            let ghost n1 = self.states@.len() as int;
            let ghost mid = self.states@;
            let n = self.new_state();
            let (lo, hi) = ranges[i];
            self.add_range(cur, lo, hi, n);
            proof {
                let h = edges(self.states@);
                let r = between(base.len() as int, n1);
                assert forall|k: int| 0 <= k < base.len() implies #[trigger] self.states@[k]
                    == base[k] by {
                    assert(mid[k] == base[k]);
                }
                assert forall|k: int| base.len() <= k < self.states@.len() implies (
                #[trigger] self.states@[k]).accept is None by {
                    if k < n1 {
                        assert(mid[k].accept is None);
                    }
                }
                assert forall|w: Seq<u8>|
                    #[trigger] utf8_ranges::ranges_lang(ranges@.take(i + 1), w) <==> graph::path(
                        h,
                        s as int,
                        w,
                        n as int,
                    ) by {
                    let cs = ranges@.take(i + 1);
                    assert(cs.drop_last() =~= ranges@.take(i as int));
                    if graph::path(h, s as int, w, n as int) {
                        graph::lemma_chain(g, h, r, s as int, cur as int, n as int, lo, hi, w);
                        assert(utf8_ranges::ranges_lang(ranges@.take(i as int), w.drop_last()));
                        assert forall|k: int| 0 <= k < cs.len() implies (#[trigger] cs[k]).0
                            <= w[k] <= cs[k].1 by {
                            if k < i {
                                assert(ranges@.take(i as int)[k].0 <= w.drop_last()[k]);
                            }
                        }
                    }
                    if utf8_ranges::ranges_lang(cs, w) {
                        let u = w.drop_last();
                        assert forall|k: int|
                            0 <= k < ranges@.take(i as int).len() implies (
                        #[trigger] ranges@.take(i as int)[k]).0 <= u[k] <= ranges@.take(
                            i as int,
                        )[k].1 by {
                            assert(cs[k].0 <= w[k]);
                        }
                        assert(utf8_ranges::ranges_lang(ranges@.take(i as int), u));
                        graph::lemma_mono(g, h, s as int, u, cur as int);
                        let v = seq![w.last()];
                        assert(cs[i as int].0 <= w[i as int]);
                        assert(h.contains((cur as int, Some(v[0]), n as int)));
                        assert(v.skip(1) =~= Seq::<u8>::empty());
                        graph::lemma_here(h, n as int);
                        graph::lemma_byte_step(h, cur as int, n as int, v, n as int);
                        graph::lemma_concat(h, s as int, u, cur as int, v, n as int);
                        assert(u + v =~= w);
                    }
                }
            }
            cur = n;
            i += 1;
        }
        assert(ranges@.take(ranges@.len() as int) =~= ranges@);
        NfaFragment { start: s, end: cur }
    }

    /// Two states that are passed without reading.
    fn compile_empty(&mut self) -> (f: NfaFragment)
        ensures
            fragment_of(old(self).states@, final(self).states@, f, PatternView::Empty),
    {
        let ghost base = self.states@;
        let s = self.new_state();
        let e = self.new_state();
        let ghost mid = self.states@;
        self.add_epsilon(s, e);
        proof {
            let h = edges(self.states@);
            let (s, e) = (s as int, e as int);
            assert forall|w: Seq<u8>| #[trigger]
                language::lang(PatternView::Empty, w) <==> graph::path(h, s, w, e) by {
                if w.len() == 0 {
                    assert(w =~= Seq::<u8>::empty());
                    graph::lemma_here(h, e);
                    assert(h.contains((s, None::<u8>, e)));
                    graph::lemma_eps_step(h, s, e, w, e);
                }
                if graph::path(h, s, w, e) {
                    lemma_only_edge(h, s, e, w);
                }
            }
        }
        NfaFragment { start: s, end: e }
    }

    /// The alternation of byte-range sequences.
    fn compile_sequences(&mut self, seqs: &Vec<Vec<(u8, u8)>>) -> (f: NfaFragment)
        ensures
            extends(old(self).states@, final(self).states@),
            old(self).states@.len() <= f.start < final(self).states@.len(),
            old(self).states@.len() <= f.end < final(self).states@.len(),
            forall|w: Seq<u8>| #[trigger]
                utf8_ranges::any_ranges_lang(seqs@, w) <==> graph::path(
                    edges(final(self).states@),
                    f.start as int,
                    w,
                    f.end as int,
                ),
    {
        let ghost base = self.states@;
        let s = self.new_state();
        let e = self.new_state();
        let mut i: usize = 0;
        proof {
            let h = edges(self.states@);
            assert forall|w: Seq<u8>| #[trigger]
                utf8_ranges::first_ranges_lang(seqs@, 0, w) <==> graph::path(
                    h,
                    s as int,
                    w,
                    e as int,
                ) by {
                if graph::path(h, s as int, w, e as int) {
                    graph::lemma_sink(h, s as int, w, e as int);
                }
            }
        }
        while i < seqs.len()
            invariant
                i <= seqs@.len(),
                extends(base, self.states@),
                s == base.len(),
                e == base.len() + 1,
                e < self.states@.len(),
                forall|x: Edge| #[trigger]
                    edges(self.states@).contains(x) && x.0 >= base.len() ==> x.2 != s && x.0 != e,
                forall|w: Seq<u8>| #[trigger]
                    utf8_ranges::first_ranges_lang(seqs@, i as int, w) <==> graph::path(
                        edges(self.states@),
                        s as int,
                        w,
                        e as int,
                    ),
            decreases seqs@.len() - i,
        {
            let ghost before = self.states@;
            let f = self.compile_chain(&seqs[i]);
            let ghost mid = self.states@;
            proof {
                lemma_extends_trans(base, before, mid);
            }
            self.add_epsilon(s, f.start);
            self.add_epsilon(f.end, e);
            proof {
                lemma_branch(base, before, mid, self.states@, s as int, e as int, f);
                let h = edges(self.states@);
                assert forall|w: Seq<u8>| #[trigger]
                    utf8_ranges::first_ranges_lang(seqs@, i + 1, w) <==> graph::path(
                        h,
                        s as int,
                        w,
                        e as int,
                    ) by {
                    assert(utf8_ranges::first_ranges_lang(seqs@, i as int, w)
                        || utf8_ranges::ranges_lang(seqs@[i as int]@, w)
                        <==> utf8_ranges::first_ranges_lang(seqs@, i + 1, w)) by {
                        if utf8_ranges::ranges_lang(seqs@[i as int]@, w) {
                            assert(utf8_ranges::ranges_lang(seqs@[i as int]@, w));
                        }
                    }
                }
            }
            i += 1;
        }
        proof {
            assert forall|w: Seq<u8>| #[trigger]
                utf8_ranges::any_ranges_lang(seqs@, w) <==> graph::path(
                    edges(self.states@),
                    s as int,
                    w,
                    e as int,
                ) by {
                assert(utf8_ranges::any_ranges_lang(seqs@, w)
                    == utf8_ranges::first_ranges_lang(seqs@, seqs@.len() as int, w));
            }
        }
        NfaFragment { start: s, end: e }
    }

    /// Compile a pattern to a fragment of the automaton.
    pub fn compile(&mut self, pat: &TokenPattern) -> (f: NfaFragment)
        requires
            language::compilable(pat@),
        ensures
            fragment_of(old(self).states@, final(self).states@, f, pat@),
        decreases pat, 1nat,
    {
        match pat {
            TokenPattern::Empty => self.compile_empty(),
            TokenPattern::Opt(x) => {
                let ghost base = self.states@;
                let f = self.compile(x);
                let ghost mid = self.states@;
                let s = self.new_state();
                let e = self.new_state();
                let ghost top = self.states@;
                self.add_epsilon(s, f.start);
                self.add_epsilon(f.end, e);
                self.add_epsilon(s, e);
                proof {
                    let gf = edges(mid);
                    let h = edges(self.states@);
                    assert forall|w: Seq<u8>| #[trigger]
                        language::lang(pat@, w) <==> graph::path(h, s as int, w, e as int) by {
                        lemma_opt(
                            gf,
                            h,
                            between(base.len() as int, mid.len() as int),
                            s as int,
                            e as int,
                            f.start as int,
                            f.end as int,
                            w,
                        );
                        assert(language::lang(x@, w) <==> graph::path(
                            gf,
                            f.start as int,
                            w,
                            f.end as int,
                        ));
                    }
                }
                NfaFragment { start: s, end: e }
            },
            TokenPattern::Alt(xs) => self.compile_alt(xs),
            TokenPattern::Concat(xs) => self.compile_concat(xs),
            TokenPattern::Literal(lit) => {
                let bytes = lit.as_str().as_bytes();
                let mut ranges: Vec<(u8, u8)> = Vec::new();
                let mut i: usize = 0;
                while i < bytes.len()
                    invariant
                        i <= bytes@.len(),
                        ranges@.len() == i,
                        forall|k: int| 0 <= k < i ==> #[trigger] ranges@[k] == (bytes@[k], bytes@[k]),
                    decreases bytes@.len() - i,
                {
                    ranges.push((bytes[i], bytes[i]));
                    i += 1;
                }
                let f = self.compile_chain(&ranges);
                proof {
                    assert forall|w: Seq<u8>| #[trigger]
                        language::lang(pat@, w) <==> graph::path(
                            edges(self.states@),
                            f.start as int,
                            w,
                            f.end as int,
                        ) by {
                        assert(utf8_ranges::ranges_lang(ranges@, w) <==> w =~= bytes@) by {
                            if utf8_ranges::ranges_lang(ranges@, w) {
                                assert forall|k: int| 0 <= k < w.len() implies w[k] == bytes@[k] by {
                                    assert(ranges@[k].0 <= w[k] <= ranges@[k].1);
                                }
                            }
                        }
                    }
                }
                f
            },
            TokenPattern::Class(cc) => {
                let seqs = utf8_ranges::class_byte_seqs(cc);
                let f = self.compile_sequences(&seqs);
                proof {
                    assert forall|w: Seq<u8>| #[trigger]
                        language::lang(pat@, w) <==> graph::path(
                            edges(self.states@),
                            f.start as int,
                            w,
                            f.end as int,
                        ) by {
                        assert(utf8_ranges::any_ranges_lang(seqs@, w) == language::class_lang(
                            cc@,
                            w,
                        ));
                    }
                }
                f
            },
            TokenPattern::Star(x) => {
                if let TokenPattern::NegLook { chars, strings } = &**x {
                    proof {
                        let q = PatternView::NegLook(chars@, names::list_view(strings@));
                        assert(x@ == q);
                        assert(pat@ == NegLookRep::Star.pattern(chars@, names::list_view(strings@)));
                        assert(!language::compilable(q));
                        assert(language::repeatable(q));
                        assert(q->NegLook_0.items == chars.items@);
                    }
                    let f = self.compile_neg_look_repeated(
                        chars,
                        strings,
                        NegLookRep::Star,
                        &Vec::new(),
                    );
                    proof {
                        lemma_lone(pat@);
                    }
                    return f;
                }
                self.compile_star(x)
            },
            TokenPattern::Plus(x) => {
                if let TokenPattern::NegLook { chars, strings } = &**x {
                    proof {
                        let q = PatternView::NegLook(chars@, names::list_view(strings@));
                        assert(x@ == q);
                        assert(pat@ == NegLookRep::Plus.pattern(chars@, names::list_view(strings@)));
                        assert(!language::compilable(q));
                        assert(language::repeatable(q));
                        assert(q->NegLook_0.items == chars.items@);
                    }
                    let f = self.compile_neg_look_repeated(
                        chars,
                        strings,
                        NegLookRep::Plus,
                        &Vec::new(),
                    );
                    proof {
                        lemma_lone(pat@);
                    }
                    return f;
                }
                let ghost base = self.states@;
                let first = self.compile(x);
                let ghost before = self.states@;
                let star = self.compile_star(x);
                let ghost mid = self.states@;
                proof {
                    lemma_extends_trans(base, before, mid);
                }
                self.add_epsilon(first.end, star.start);
                proof {
                    let h = edges(self.states@);
                    assert forall|w: Seq<u8>| #[trigger]
                        language::lang(pat@, w) <==> graph::path(
                            h,
                            first.start as int,
                            w,
                            star.end as int,
                        ) by {
                        lemma_join(
                            base,
                            before,
                            mid,
                            self.states@,
                            first.start as int,
                            first.end as int,
                            star,
                            w,
                        );
                        assert forall|k: int| 0 <= k <= w.len() implies ((language::lang(
                            x@,
                            #[trigger] w.take(k),
                        ) && language::star_lang(x@, w.skip(k))) == (graph::path(
                            edges(before),
                            first.start as int,
                            w.take(k),
                            first.end as int,
                        ) && graph::path(
                            edges(mid),
                            star.start as int,
                            w.skip(k),
                            star.end as int,
                        ))) by {
                            assert(language::lang(PatternView::Star(Box::new(x@)), w.skip(k))
                                == language::star_lang(x@, w.skip(k)));
                        }
                    }
                }
                NfaFragment { start: first.start, end: star.end }
            },
            TokenPattern::Ref(_) => {
                assert(false);
                self.compile_empty()
            },
            TokenPattern::NegLook { .. } => {
                assert(false);
                self.compile_empty()
            },
        }
    }

    /// Any number of repetitions of a pattern that is no negated lookahead.
    fn compile_star(&mut self, x: &TokenPattern) -> (f: NfaFragment)
        requires
            language::compilable(x@),
            !(x@ is NegLook),
        ensures
            fragment_of(
                old(self).states@,
                final(self).states@,
                f,
                PatternView::Star(Box::new(x@)),
            ),
        decreases x, 2nat,
    {
        let ghost base = self.states@;
        let f = self.compile(x);
        let ghost mid = self.states@;
        let s = self.new_state();
        let e = self.new_state();
        self.add_epsilon(s, f.start);
        self.add_epsilon(f.end, s);
        self.add_epsilon(s, e);
        proof {
            let gf = edges(mid);
            let h = edges(self.states@);
            let rf = between(base.len() as int, mid.len() as int);
            let (s, e, fs, fe) = (s as int, e as int, f.start as int, f.end as int);
            assert forall|w: Seq<u8>| #[trigger]
                language::lang(PatternView::Star(Box::new(x@)), w) <==> graph::path(h, s, w, e) by {
                assert(language::lang(PatternView::Star(Box::new(x@)), w) == language::star_lang(
                    x@,
                    w,
                ));
                if graph::path(h, s, w, e) {
                    let n = choose|n: nat| #[trigger] graph::reach(h, s, w, e, n);
                    lemma_star(x@, gf, h, rf, s, e, fs, fe, s, w, n);
                }
                if language::star_lang(x@, w) {
                    lemma_star_back(x@, gf, h, rf, s, e, fs, fe, w);
                }
            }
        }
        NfaFragment { start: s, end: e }
    }

    /// Adds the transitions of the automaton's state `node` to the state
    /// `from`, one range for each run of bytes with the same target. Bytes
    /// that complete a forbidden string get none.
    fn add_grouped_byte_transitions(
        &mut self,
        from: usize,
        first: usize,
        ac: &AcAutomaton,
        node: usize,
    )
        requires
            ac.wf(),
            node < ac.goto@.len(),
            first + ac.goto@.len() <= old(self).states@.len(),
            from < old(self).states@.len(),
        ensures
            final(self).states@.len() == old(self).states@.len(),
            forall|i: int|
                0 <= i < old(self).states@.len() && i != from ==> #[trigger] final(self).states@[i]
                    == old(self).states@[i],
            final(self).states@[from as int].accept == old(self).states@[from as int].accept,
            edges(final(self).states@) == edges(old(self).states@).union(
                node_edges(*ac, from as int, first as int, node as int, 256),
            ),
            forall|base: Seq<NfaState>|
                extends(base, old(self).states@) && base.len() <= from && base.len()
                    <= first ==> #[trigger] extends(base, final(self).states@),
    {
        let ghost before = self.states@;
        let mut b: usize = 0;
        proof {
            assert(edges(self.states@) =~= edges(before).union(
                node_edges(*ac, from as int, first as int, node as int, 0),
            ));
        }
        while b < 256
            invariant
                ac.wf(),
                node < ac.goto@.len(),
                b <= 256,
                first + ac.goto@.len() <= before.len(),
                from < before.len(),
                self.states@.len() == before.len(),
                forall|i: int|
                    0 <= i < before.len() && i != from ==> #[trigger] self.states@[i] == before[i],
                self.states@[from as int].accept == before[from as int].accept,
                edges(self.states@) == edges(before).union(
                    node_edges(*ac, from as int, first as int, node as int, b as int),
                ),
                forall|base: Seq<NfaState>|
                    extends(base, before) && base.len() <= from && base.len()
                        <= first ==> #[trigger] extends(base, self.states@),
            decreases 256 - b,
        {
            let dest = ac.goto[node][b];
            let lo = b;
            let mut hi: usize = b;
            while hi + 1 < 256 && ac.goto[node][hi + 1] == dest
                invariant
                    ac.wf(),
                    node < ac.goto@.len(),
                    lo <= hi < 256,
                    forall|k: int| lo <= k <= hi ==> #[trigger] ac.goto@[node as int]@[k] == dest,
                decreases 256 - hi,
            {
                hi += 1;
            }
            let ghost cur = self.states@;
            if !ac.accept[dest] {
                assert(self.states@.len() == self.states.len());
                self.add_range(from, lo as u8, hi as u8, first + dest);
                proof {
                    assert forall|base: Seq<NfaState>|
                        extends(base, before) && base.len() <= from && base.len()
                            <= first implies #[trigger] extends(base, self.states@) by {
                        assert(extends(base, cur));
                    }
                }
            }
            proof {
                let old_edges = node_edges(*ac, from as int, first as int, node as int, lo as int);
                let new_edges = node_edges(*ac, from as int, first as int, node as int, hi + 1);
                let added = if ac.accept@[dest as int] {
                    Set::empty()
                } else {
                    range_edges(from as int, lo as u8, hi as u8, first + dest)
                };
                assert(new_edges =~= old_edges.union(added)) by {
                    assert forall|e: Edge| new_edges.contains(e) == old_edges.union(added).contains(
                        e,
                    ) by {
                        if e.1 is Some {
                            let k = e.1->0 as int;
                            if lo <= k <= hi {
                                assert(ac.goto@[node as int]@[k] == dest);
                            }
                        }
                    }
                }
                assert(edges(self.states@) =~= edges(before).union(new_edges));
            }
            b = hi + 1;
        }
    }

    /// The states of a repeated negated lookahead.
    fn compile_neg_look(
        &mut self,
        ac: &AcAutomaton,
        pats: &Vec<Vec<u8>>,
        next: &Vec<u8>,
        rep: NegLookRep,
        Ghost(c): Ghost<ClassView>,
        Ghost(strings): Ghost<Seq<Seq<char>>>,
    ) -> (f: NfaFragment)
        requires
            ac.wf(),
            aho_corasick::pats_view(pats@) == language::forbidden(c, strings),
            ac.decides(language::forbidden(c, strings)),
        ensures
            fragment_next(
                old(self).states@,
                final(self).states@,
                f,
                rep.pattern(c, strings),
                next@,
            ),
    {
        let ghost base = self.states@;
        let first = self.states.len();
        let n = ac.goto.len();
        let mut i: usize = 0;
        while i < n
            invariant
                i <= n,
                first == base.len(),
                self.states@.len() == base.len() + i,
                extends(base, self.states@),
                edges(self.states@) == edges(base),
            decreases n - i,
        {
            let _ = self.new_state();
            i += 1;
        }
        let start = self.new_state();
        let end = self.new_state();
        let entry = self.new_state();
        let ghost g0 = edges(base);
        match rep {
            NegLookRep::Star => {
                self.add_epsilon(start, first);
            },
            NegLookRep::Plus => {
                self.add_epsilon(start, entry);
                self.add_grouped_byte_transitions(entry, first, ac, 0);
            },
        }
        let ghost g1 = edges(self.states@);
        let mut s: usize = 0;
        let ghost ends = may_ends(*ac, language::forbidden(c, strings), next@);
        proof {
            assert(g1.union(nodes_edges(*ac, ends, first as int, end as int, 0)) =~= g1);
        }
        while s < n
            invariant
                ac.wf(),
                aho_corasick::pats_view(pats@) == language::forbidden(c, strings),
                ends == may_ends(*ac, language::forbidden(c, strings), next@),
                s <= n,
                n == ac.goto@.len(),
                first == base.len(),
                end == base.len() + n + 1,
                self.states@.len() == base.len() + n + 3,
                extends(base, self.states@),
                edges(self.states@) == g1.union(nodes_edges(*ac, ends, first as int, end as int, s as int)),
            decreases n - s,
        {
            if !ac.accept[s] {
                assert(self.states@.len() == self.states.len());
                if aho_corasick::avoids(pats, &ac.nodes[s], next) {
                    self.add_epsilon(first + s, end);
                }
                self.add_grouped_byte_transitions(first + s, first, ac, s);
            }
            proof {
                assert(edges(self.states@) =~= g1.union(nodes_edges(*ac, ends, first as int, end as int, s + 1)));
            }
            s += 1;
        }
        proof {
            let h = edges(self.states@);
            let (b0, st, en, ent) = (first as int, start as int, end as int, entry as int);
            assert forall|e: Edge| #[trigger] h.contains(e) implies (e.0 < b0 || (e.0 == st && e.1 is None && (rep is Star ==> e.2 == b0) && (rep is Plus ==> e.2
                == ent)) || (rep is Plus && node_edges(*ac, ent, b0, 0, 256).contains(e))
                || nodes_edges(*ac, ends, b0, en, n as int).contains(e)) by {
                if g0.contains(e) {
                    assert(e.0 < b0);
                }
            }
            assert forall|w: Seq<u8>| #[trigger]
                language::item_lang(rep.pattern(c, strings), next@, w) <==> graph::path(
                    h,
                    st,
                    w,
                    en,
                ) by {
                let pv = language::forbidden(c, strings);
                assert(language::neg_body(pv, w, next@) <==> ac.reads(pv, w, next@));
                assert(language::item_lang(rep.pattern(c, strings), next@, w)
                    <==> language::neg_body(pv, w, next@) && (rep is Plus ==> w.len() > 0));
                aho_corasick::lemma_run_within(*ac, 0, w);
                lemma_neg_look(*ac, ends, h, b0, st, en, ent, rep, w);
            }
        }
        NfaFragment { start, end }
    }

    /// A repeated negated lookahead: the automaton of its forbidden strings,
    /// entered at the root and left in any state that can be left for `next`,
    /// the literal that comes after it. With
    /// `+` a separate entry takes the first byte, so that the empty string is
    /// not matched.
    fn compile_neg_look_repeated(
        &mut self,
        chars: &CharClass,
        strings: &Vec<String>,
        rep: NegLookRep,
        next: &Vec<u8>,
    ) -> (f: NfaFragment)
        requires
            forall|i: int| 0 <= i < chars.items@.len() ==> (#[trigger] chars.items@[i]) is Char,
        ensures
            fragment_next(
                old(self).states@,
                final(self).states@,
                f,
                rep.pattern(chars@, names::list_view(strings@)),
                next@,
            ),
    {
        let pats = forbidden_patterns(chars, strings);
        let ac = AcAutomaton::build(&pats);
        self.compile_neg_look(
            &ac,
            &pats,
            next,
            rep,
            Ghost(chars@),
            Ghost(names::list_view(strings@)),
        )
    }

    /// The alternation of patterns.
    fn compile_alt(&mut self, xs: &Vec<TokenPattern>) -> (f: NfaFragment)
        requires
            language::compilable(PatternView::Alt(ir::patterns_view(xs@))),
        ensures
            fragment_of(
                old(self).states@,
                final(self).states@,
                f,
                PatternView::Alt(ir::patterns_view(xs@)),
            ),
        decreases xs, 0nat,
    {
        let ghost base = self.states@;
        let ghost views = ir::patterns_view(xs@);
        let s = self.new_state();
        let e = self.new_state();
        let mut i: usize = 0;
        proof {
            let h = edges(self.states@);
            assert forall|w: Seq<u8>| #[trigger]
                language::lang(PatternView::Alt(views.take(0)), w) <==> graph::path(
                    h,
                    s as int,
                    w,
                    e as int,
                ) by {
                if graph::path(h, s as int, w, e as int) {
                    graph::lemma_sink(h, s as int, w, e as int);
                }
            }
        }
        while i < xs.len()
            invariant
                i <= xs@.len(),
                views == ir::patterns_view(xs@),
                language::compilable(PatternView::Alt(views)),
                extends(base, self.states@),
                s == base.len(),
                e == base.len() + 1,
                e < self.states@.len(),
                forall|x: Edge| #[trigger]
                    edges(self.states@).contains(x) && x.0 >= base.len() ==> x.2 != s && x.0 != e,
                forall|w: Seq<u8>| #[trigger]
                    language::lang(PatternView::Alt(views.take(i as int)), w) <==> graph::path(
                        edges(self.states@),
                        s as int,
                        w,
                        e as int,
                    ),
            decreases xs@.len() - i,
        {
            let ghost before = self.states@;
            proof {
                language::lemma_compilable_parts(views);
            }
            assert(language::compilable(views[i as int]));
            let f = self.compile(&xs[i]);
            let ghost mid = self.states@;
            proof {
                lemma_extends_trans(base, before, mid);
            }
            self.add_epsilon(s, f.start);
            self.add_epsilon(f.end, e);
            proof {
                lemma_branch(base, before, mid, self.states@, s as int, e as int, f);
                let h = edges(self.states@);
                assert forall|w: Seq<u8>| #[trigger]
                    language::lang(PatternView::Alt(views.take(i + 1)), w) <==> graph::path(
                        h,
                        s as int,
                        w,
                        e as int,
                    ) by {
                    lemma_alt_more(views, i as int, w);
                    assert(language::lang(xs@[i as int]@, w) <==> graph::path(
                        edges(mid),
                        f.start as int,
                        w,
                        f.end as int,
                    ));
                }
            }
            i += 1;
        }
        assert(views.take(xs@.len() as int) =~= views);
        NfaFragment { start: s, end: e }
    }

    /// Compile a pattern that the literal `next` comes after.
    fn compile_item(&mut self, pat: &TokenPattern, next: &Vec<u8>) -> (f: NfaFragment)
        requires
            language::compilable(pat@),
        ensures
            fragment_next(old(self).states@, final(self).states@, f, pat@, next@),
        decreases pat, 2nat,
    {
        match pat {
            TokenPattern::Star(x) => {
                if let TokenPattern::NegLook { chars, strings } = &**x {
                    proof {
                        let q = PatternView::NegLook(chars@, names::list_view(strings@));
                        assert(x@ == q);
                        assert(pat@ == NegLookRep::Star.pattern(chars@, names::list_view(strings@)));
                        assert(!language::compilable(q));
                        assert(language::repeatable(q));
                        assert(q->NegLook_0.items == chars.items@);
                    }
                    return self.compile_neg_look_repeated(chars, strings, NegLookRep::Star, next);
                }
            },
            TokenPattern::Plus(x) => {
                if let TokenPattern::NegLook { chars, strings } = &**x {
                    proof {
                        let q = PatternView::NegLook(chars@, names::list_view(strings@));
                        assert(x@ == q);
                        assert(pat@ == NegLookRep::Plus.pattern(chars@, names::list_view(strings@)));
                        assert(!language::compilable(q));
                        assert(language::repeatable(q));
                        assert(q->NegLook_0.items == chars.items@);
                    }
                    return self.compile_neg_look_repeated(chars, strings, NegLookRep::Plus, next);
                }
            },
            _ => {},
        }
        let f = self.compile(pat);
        assert forall|w: Seq<u8>| #[trigger]
            language::item_lang(pat@, next@, w) <==> graph::path(
                edges(self.states@),
                f.start as int,
                w,
                f.end as int,
            ) by {
            assert(language::lang(pat@, w) == language::item_lang(pat@, next@, w));
        }
        f
    }

    /// The patterns in order.
    fn compile_concat(&mut self, xs: &Vec<TokenPattern>) -> (f: NfaFragment)
        requires
            language::compilable(PatternView::Concat(ir::patterns_view(xs@))),
        ensures
            fragment_of(
                old(self).states@,
                final(self).states@,
                f,
                PatternView::Concat(ir::patterns_view(xs@)),
            ),
        decreases xs, 0nat,
    {
        let ghost base = self.states@;
        let ghost views = ir::patterns_view(xs@);
        if xs.len() == 0 {
            let f = self.compile_empty();
            proof {
                assert forall|w: Seq<u8>| #[trigger]
                    language::lang(PatternView::Concat(views), w) <==> graph::path(
                        edges(self.states@),
                        f.start as int,
                        w,
                        f.end as int,
                    ) by {
                    language::lemma_concat_lang(views, w);
                    assert(language::lang(PatternView::Empty, w) == (w.len() == 0));
                }
            }
            return f;
        }
        proof {
            language::lemma_compilable_parts(views);
        }
        assert(language::compilable(views[0]));
        let lead = lead_of(xs, 1);
        let first = self.compile_item(&xs[0], &lead);
        let start = first.start;
        let mut end: usize = first.end;
        let mut i: usize = 1;
        proof {
            assert forall|w: Seq<u8>| #[trigger]
                language::concat_lang(views.take(1), language::lead_at(views, 1), w) <==> graph::path(
                    edges(self.states@),
                    start as int,
                    w,
                    end as int,
                ) by {
                lemma_concat_one(views, lead@, w);
                assert(language::item_lang(xs@[0]@, lead@, w) <==> graph::path(
                    edges(self.states@),
                    start as int,
                    w,
                    end as int,
                ));
            }
        }
        while i < xs.len()
            invariant
                1 <= i <= xs@.len(),
                views == ir::patterns_view(xs@),
                language::compilable(PatternView::Concat(views)),
                extends(base, self.states@),
                base.len() <= start < self.states@.len(),
                base.len() <= end < self.states@.len(),
                forall|w: Seq<u8>| #[trigger]
                    language::concat_lang(
                        views.take(i as int),
                        language::lead_at(views, i as int),
                        w,
                    ) <==> graph::path(
                        edges(self.states@),
                        start as int,
                        w,
                        end as int,
                    ),
            decreases xs@.len() - i,
        {
            let ghost before = self.states@;
            proof {
                language::lemma_compilable_parts(views);
            }
            assert(language::compilable(views[i as int]));
            let lead = lead_of(xs, i + 1);
            let f = self.compile_item(&xs[i], &lead);
            let ghost mid = self.states@;
            proof {
                lemma_extends_trans(base, before, mid);
            }
            self.add_epsilon(end, f.start);
            proof {
                let h = edges(self.states@);
                assert forall|w: Seq<u8>| #[trigger]
                    language::concat_lang(
                        views.take(i + 1),
                        language::lead_at(views, i + 1),
                        w,
                    ) <==> graph::path(
                        h,
                        start as int,
                        w,
                        f.end as int,
                    ) by {
                    lemma_join(base, before, mid, self.states@, start as int, end as int, f, w);
                    assert(views.take(i + 1).drop_last() =~= views.take(i as int));
                    assert(views.take(i + 1).last() == xs@[i as int]@);
                    assert forall|k: int| 0 <= k <= w.len() implies ((language::concat_lang(
                        views.take(i as int),
                        language::lead_at(views, i as int),
                        #[trigger] w.take(k),
                    ) && language::item_lang(xs@[i as int]@, lead@, w.skip(k))) == (graph::path(
                        edges(before),
                        start as int,
                        w.take(k),
                        end as int,
                    ) && graph::path(edges(mid), f.start as int, w.skip(k), f.end as int))) by {
                    }
                }
            }
            end = f.end;
            i += 1;
        }
        assert(views.take(xs@.len() as int) =~= views);
        proof {
            assert forall|w: Seq<u8>| #[trigger]
                language::lang(PatternView::Concat(views), w) <==> graph::path(
                    edges(self.states@),
                    start as int,
                    w,
                    end as int,
                ) by {
                language::lemma_concat_lang(views, w);
                assert(language::concat_lang(
                    views.take(xs@.len() as int),
                    language::lead_at(views, xs@.len() as int),
                    w,
                ) == language::lang(PatternView::Concat(views), w));
            }
        }
        NfaFragment { start, end }
    }
}

/// A single unlabelled edge leads from `s` to the sink `e`.
proof fn lemma_only_edge(h: Set<Edge>, s: int, e: int, w: Seq<u8>)
    requires
        s != e,
        forall|x: Edge| #[trigger] h.contains(x) && x.0 == s ==> x == (s, None::<u8>, e),
        forall|x: Edge| #[trigger] h.contains(x) ==> x.0 != e,
        graph::path(h, s, w, e),
    ensures
        w.len() == 0,
{
    let n = choose|n: nat| #[trigger] graph::reach(h, s, w, e, n);
    if exists|m: int| #[trigger]
        h.contains((s, None::<u8>, m)) && graph::reach(h, m, w, e, (n - 1) as nat) {
        let m = choose|m: int| #[trigger]
            h.contains((s, None::<u8>, m)) && graph::reach(h, m, w, e, (n - 1) as nat);
        assert(graph::path(h, e, w, e));
        graph::lemma_sink(h, e, w, e);
    } else {
        let m = choose|m: int| #[trigger]
            h.contains((s, Some(w[0]), m)) && graph::reach(h, m, w.skip(1), e, (n - 1) as nat);
        assert(h.contains((s, Some(w[0]), m)));
    }
}

/// One more alternative.
proof fn lemma_alt_more(views: Seq<PatternView>, i: int, w: Seq<u8>)
    requires
        0 <= i < views.len(),
    ensures
        language::lang(PatternView::Alt(views.take(i + 1)), w) <==> language::lang(
            PatternView::Alt(views.take(i)),
            w,
        ) || language::lang(views[i], w),
{
    let a = views.take(i);
    let b = views.take(i + 1);
    language::lemma_alt_lang(a, w);
    language::lemma_alt_lang(b, w);
    if language::lang(PatternView::Alt(a), w) {
        let k = choose|k: int| 0 <= k < a.len() && language::lang(#[trigger] a[k], w);
        assert(language::lang(b[k], w));
    }
    if language::lang(views[i], w) {
        assert(language::lang(b[i], w));
    }
    if language::lang(PatternView::Alt(b), w) {
        let k = choose|k: int| 0 <= k < b.len() && language::lang(#[trigger] b[k], w);
        if k < i {
            assert(language::lang(a[k], w));
        }
    }
}

/// The bytes of the literal at position `k`; none if there is none.
pub(crate) fn lead_of(xs: &Vec<TokenPattern>, k: usize) -> (r: Vec<u8>)
    ensures
        r@ == language::lead_at(ir::patterns_view(xs@), k as int),
{
    let mut r: Vec<u8> = Vec::new();
    if k < xs.len() {
        assert(ir::patterns_view(xs@)[k as int] == xs@[k as int]@);
        if let TokenPattern::Literal(lit) = &xs[k] {
            let bytes = lit.as_str().as_bytes();
            let mut i: usize = 0;
            while i < bytes.len()
                invariant
                    i <= bytes@.len(),
                    r@ == bytes@.take(i as int),
                decreases bytes@.len() - i,
            {
                r.push(bytes[i]);
                assert(r@ =~= bytes@.take(i + 1));
                i += 1;
            }
            assert(r@ =~= bytes@);
        }
    }
    r
}

/// A sequence of one pattern.
proof fn lemma_concat_one(views: Seq<PatternView>, next: Seq<u8>, w: Seq<u8>)
    requires
        views.len() > 0,
    ensures
        language::concat_lang(views.take(1), next, w) <==> language::item_lang(views[0], next, w),
{
    let one = views.take(1);
    assert(one.drop_last().len() == 0);
    assert(one.last() == views[0]);
    if language::item_lang(views[0], next, w) {
        assert(language::concat_lang(one.drop_last(), language::lead(one.last()), w.take(0)));
        assert(w.skip(0) =~= w);
    }
    if language::concat_lang(one, next, w) {
        let i = choose|i: int|
            0 <= i <= w.len() && language::concat_lang(
                one.drop_last(),
                language::lead(one.last()),
                #[trigger] w.take(i),
            ) && language::item_lang(one.last(), next, w.skip(i));
        assert(i == 0);
        assert(w.skip(0) =~= w);
    }
}

/// An unlabelled edge from the end of one fragment to the start of the next
/// spells a string of the first, then one of the second.
proof fn lemma_join(
    base: Seq<NfaState>,
    before: Seq<NfaState>,
    mid: Seq<NfaState>,
    after: Seq<NfaState>,
    start: int,
    end: int,
    f: NfaFragment,
    w: Seq<u8>,
)
    requires
        extends(base, before),
        base.len() <= start < before.len(),
        base.len() <= end < before.len(),
        extends(before, mid),
        before.len() <= f.start < mid.len(),
        before.len() <= f.end < mid.len(),
        edges(after) == edges(mid).insert((end, None::<u8>, f.start as int)),
    ensures
        graph::path(edges(after), start, w, f.end as int) <==> exists|k: int|
            0 <= k <= w.len() && graph::path(edges(before), start, #[trigger] w.take(k), end)
                && graph::path(edges(mid), f.start as int, w.skip(k), f.end as int),
{
    let g = edges(before);
    let gf = edges(mid);
    let h = edges(after);
    let fs = f.start as int;
    let fe = f.end as int;
    let r1 = between(base.len() as int, before.len() as int);
    let r2 = between(before.len() as int, mid.len() as int);
    assert forall|x: Edge| #[trigger] h.contains(x) && r1.contains(x.0) implies (g.contains(x)
        && r1.contains(x.2)) || x == (end, None::<u8>, fs) by {
        lemma_extends_edges(before, mid, x);
    }
    if graph::path(h, start, w, fe) {
        graph::lemma_seq(g, h, r1, start, end, fs, w, fe);
        let k = choose|k: int|
            0 <= k <= w.len() && graph::path(g, start, #[trigger] w.take(k), end) && graph::path(
                h,
                fs,
                w.skip(k),
                fe,
            );
        assert forall|x: Edge| #[trigger] h.contains(x) && r2.contains(x.0) implies gf.contains(x)
            && r2.contains(x.2) by {
            lemma_extends_edges(before, mid, x);
        }
        graph::lemma_region(gf, h, r2, fs, w.skip(k), fe);
        assert(graph::path(g, start, w.take(k), end));
    }
    if exists|k: int|
        0 <= k <= w.len() && graph::path(g, start, #[trigger] w.take(k), end) && graph::path(
            gf,
            fs,
            w.skip(k),
            fe,
        ) {
        let k = choose|k: int|
            0 <= k <= w.len() && graph::path(g, start, #[trigger] w.take(k), end) && graph::path(
                gf,
                fs,
                w.skip(k),
                fe,
            );
        assert forall|x: Edge| #[trigger] g.contains(x) implies h.contains(x) by {
            lemma_extends_edges(before, mid, x);
        }
        graph::lemma_mono(g, h, start, w.take(k), end);
        graph::lemma_mono(gf, h, fs, w.skip(k), fe);
        assert(h.contains((end, None::<u8>, fs)));
        graph::lemma_eps_step(h, end, fs, w.skip(k), fe);
        graph::lemma_concat(h, start, w.take(k), end, w.skip(k), fe);
        assert(w.take(k) + w.skip(k) =~= w);
    }
}

/// A fragment that can also be passed by.
proof fn lemma_opt(
    gf: Set<Edge>,
    h: Set<Edge>,
    rf: Set<int>,
    s: int,
    e: int,
    fs: int,
    fe: int,
    w: Seq<u8>,
)
    requires
        s != e,
        !rf.contains(s),
        !rf.contains(e),
        rf.contains(fs),
        forall|x: Edge| #[trigger] gf.contains(x) ==> x.0 != s && x.0 != e,
        forall|x: Edge| #[trigger] gf.contains(x) && rf.contains(x.0) ==> rf.contains(x.2),
        h == gf.insert((s, None::<u8>, fs)).insert((fe, None::<u8>, e)).insert(
            (s, None::<u8>, e),
        ),
        rf.contains(fe),
    ensures
        graph::path(h, s, w, e) <==> w.len() == 0 || graph::path(gf, fs, w, fe),
{
    let g: Set<Edge> = Set::empty().insert((s, None::<u8>, e));
    let r = Set::<int>::empty().insert(e);
    if graph::path(h, s, w, e) {
        graph::lemma_alt(g, gf, h, r, rf, s, e, fs, fe, w);
        if graph::path(g, s, w, e) {
            lemma_only_edge(g, s, e, w);
        }
    }
    graph::lemma_here(h, e);
    if w.len() == 0 {
        assert(w =~= Seq::<u8>::empty());
        assert(h.contains((s, None::<u8>, e)));
        graph::lemma_eps_step(h, s, e, w, e);
    }
    if graph::path(gf, fs, w, fe) {
        graph::lemma_mono(gf, h, fs, w, fe);
        assert(h.contains((fe, None::<u8>, e)));
        graph::lemma_eps_step(h, fe, e, Seq::empty(), e);
        graph::lemma_concat(h, fs, w, fe, Seq::empty(), e);
        assert(w + Seq::<u8>::empty() =~= w);
        assert(h.contains((s, None::<u8>, fs)));
        graph::lemma_eps_step(h, s, fs, w, e);
    }
}

/// `h` wraps a fragment of `gf` in a loop: `s` leads to its start and to the
/// sink `e`, and its end leads back to `s`.
spec fn loops(gf: Set<Edge>, h: Set<Edge>, rf: Set<int>, s: int, e: int, fs: int, fe: int) -> bool {
    &&& s != e
    &&& !rf.contains(s)
    &&& !rf.contains(e)
    &&& rf.contains(fs)
    &&& h == gf.insert((s, None::<u8>, fs)).insert((fe, None::<u8>, s)).insert((s, None::<u8>, e))
    &&& rf.contains(fe)
    &&& forall|x: Edge| #[trigger] gf.contains(x) ==> x.0 != s && x.0 != e
    &&& forall|x: Edge| #[trigger] gf.contains(x) && rf.contains(x.0) ==> rf.contains(x.2)
}

/// What the loop spells is a concatenation of strings of the fragment.
proof fn lemma_star(
    x: PatternView,
    gf: Set<Edge>,
    h: Set<Edge>,
    rf: Set<int>,
    s: int,
    e: int,
    fs: int,
    fe: int,
    q: int,
    w: Seq<u8>,
    n: nat,
)
    requires
        loops(gf, h, rf, s, e, fs, fe),
        forall|u: Seq<u8>| #[trigger]
            language::lang(x, u) <==> graph::path(gf, fs, u, fe),
        q == s || rf.contains(q),
        graph::reach(h, q, w, e, n),
    ensures
        q == s ==> language::star_lang(x, w),
        rf.contains(q) ==> exists|i: int|
            0 <= i <= w.len() && graph::path(gf, q, #[trigger] w.take(i), fe)
                && language::star_lang(x, w.skip(i)),
    decreases n,
{
    if n == 0 {
        assert(false);
    } else if exists|m: int| #[trigger]
        h.contains((q, None::<u8>, m)) && graph::reach(h, m, w, e, (n - 1) as nat) {
        let m = choose|m: int| #[trigger]
            h.contains((q, None::<u8>, m)) && graph::reach(h, m, w, e, (n - 1) as nat);
        if m == e {
            assert(graph::path(h, e, w, e));
            graph::lemma_sink(h, e, w, e);
        } else {
            lemma_star(x, gf, h, rf, s, e, fs, fe, m, w, (n - 1) as nat);
            if q == s {
                let i = choose|i: int|
                    0 <= i <= w.len() && graph::path(gf, fs, #[trigger] w.take(i), fe)
                        && language::star_lang(x, w.skip(i));
                assert(language::lang(x, w.take(i)));
                if i == 0 {
                    assert(w.skip(0) =~= w);
                }
            } else if m == s {
                assert(w.take(0) =~= Seq::<u8>::empty());
                assert(w.skip(0) =~= w);
                graph::lemma_here(gf, fe);
                assert(graph::path(gf, q, w.take(0), fe));
            } else {
                let i = choose|i: int|
                    0 <= i <= w.len() && graph::path(gf, m, #[trigger] w.take(i), fe)
                        && language::star_lang(x, w.skip(i));
                assert(gf.contains((q, None::<u8>, m)));
                graph::lemma_eps_step(gf, q, m, w.take(i), fe);
            }
        }
    } else {
        let m = choose|m: int| #[trigger]
            h.contains((q, Some(w[0]), m)) && graph::reach(h, m, w.skip(1), e, (n - 1) as nat);
        assert(gf.contains((q, Some(w[0]), m)));
        lemma_star(x, gf, h, rf, s, e, fs, fe, m, w.skip(1), (n - 1) as nat);
        let i = choose|i: int|
            0 <= i <= w.skip(1).len() && graph::path(gf, m, #[trigger] w.skip(1).take(i), fe)
                && language::star_lang(x, w.skip(1).skip(i));
        assert(w.take(i + 1).skip(1) =~= w.skip(1).take(i));
        assert(w.skip(1).skip(i) =~= w.skip(i + 1));
        graph::lemma_byte_step(gf, q, m, w.take(i + 1), fe);
    }
}

/// The loop spells every concatenation of strings of the fragment.
proof fn lemma_star_back(
    x: PatternView,
    gf: Set<Edge>,
    h: Set<Edge>,
    rf: Set<int>,
    s: int,
    e: int,
    fs: int,
    fe: int,
    w: Seq<u8>,
)
    requires
        loops(gf, h, rf, s, e, fs, fe),
        forall|u: Seq<u8>| #[trigger]
            language::lang(x, u) <==> graph::path(gf, fs, u, fe),
        language::star_lang(x, w),
    ensures
        graph::path(h, s, w, e),
    decreases w.len(),
{
    if w.len() == 0 {
        assert(w =~= Seq::<u8>::empty());
        graph::lemma_here(h, e);
        assert(h.contains((s, None::<u8>, e)));
        graph::lemma_eps_step(h, s, e, w, e);
    } else {
        let i = choose|i: int|
            0 < i <= w.len() && language::lang(x, #[trigger] w.take(i)) && language::star_lang(
                x,
                w.skip(i),
            );
        lemma_star_back(x, gf, h, rf, s, e, fs, fe, w.skip(i));
        graph::lemma_mono(gf, h, fs, w.take(i), fe);
        assert(h.contains((fe, None::<u8>, s)));
        graph::lemma_eps_step(h, fe, s, w.skip(i), e);
        graph::lemma_concat(h, fs, w.take(i), fe, w.skip(i), e);
        assert(w.take(i) + w.skip(i) =~= w);
        assert(h.contains((s, None::<u8>, fs)));
        graph::lemma_eps_step(h, s, fs, w, e);
    }
}

/// The edges from `from` for the first `k` bytes, as the automaton's state
/// `node` has them. Node `v` is the state `first + v`.
spec fn node_edges(ac: AcAutomaton, from: int, first: int, node: int, k: int) -> Set<Edge> {
    Set::new(
        |e: Edge|
            e.0 == from && e.1 is Some && (e.1->0 as int) < k && {
                let v = ac.goto@[node]@[e.1->0 as int] as int;
                e.2 == first + v && !ac.accept@[v]
            },
    )
}

/// Whether each state of the automaton can be left for `next`.
spec fn may_ends(ac: AcAutomaton, pats: Seq<Seq<u8>>, next: Seq<u8>) -> Seq<bool> {
    Seq::new(ac.nodes@.len(), |s: int| aho_corasick::may_end(pats, ac.nodes@[s]@, next))
}

/// The edges of the first `k` states of the automaton that are not accepting:
/// their transitions, and one to the end from each that can be left.
spec fn nodes_edges(ac: AcAutomaton, ends: Seq<bool>, first: int, end: int, k: int) -> Set<Edge> {
    Set::new(
        |e: Edge|
            0 <= e.0 - first < k && !ac.accept@[e.0 - first] && ((ends[e.0 - first] && e == (
                e.0,
                None::<u8>,
                end,
            )) || node_edges(ac, e.0, first, e.0 - first, 256).contains(e)),
    )
}

/// The string is read from `u` without completing a forbidden one, and can be
/// left where it comes to.
spec fn leaves(ac: AcAutomaton, ends: Seq<bool>, u: int, w: Seq<u8>) -> bool {
    ac.run(u, w) matches Some(t) && ends[t]
}

/// Nothing comes after a pattern by itself.
proof fn lemma_lone(p: PatternView)
    ensures
        forall|w: Seq<u8>| #[trigger]
            language::lang(p, w) == language::item_lang(p, Seq::empty(), w),
{
}

/// A path from the automaton's state `u` to the end spells a string that the
/// automaton can read from `u` without completing a forbidden one.
proof fn lemma_node_path(
    ac: AcAutomaton,
    ends: Seq<bool>,
    h: Set<Edge>,
    b0: int,
    en: int,
    u: int,
    w: Seq<u8>,
    k: nat,
)
    requires
        ac.wf(),
        0 <= u < ac.goto@.len(),
        !ac.accept@[u],
        en >= b0 + ac.goto@.len(),
        forall|e: Edge| #[trigger]
            h.contains(e) && b0 <= e.0 < b0 + ac.goto@.len() ==> nodes_edges(ac, ends, b0, en, ac.goto@.len() as int).contains(e),
        forall|e: Edge| #[trigger] h.contains(e) ==> e.0 != en,
        graph::reach(h, b0 + u, w, en, k),
    ensures
        leaves(ac, ends, u, w),
    decreases k,
{
    if k == 0 {
        assert(false);
    } else if exists|m: int| #[trigger]
        h.contains((b0 + u, None::<u8>, m)) && graph::reach(h, m, w, en, (k - 1) as nat) {
        let m = choose|m: int| #[trigger]
            h.contains((b0 + u, None::<u8>, m)) && graph::reach(h, m, w, en, (k - 1) as nat);
        assert(m == en);
        assert(graph::path(h, en, w, en));
        graph::lemma_sink(h, en, w, en);
    } else {
        let m = choose|m: int| #[trigger]
            h.contains((b0 + u, Some(w[0]), m)) && graph::reach(
                h,
                m,
                w.skip(1),
                en,
                (k - 1) as nat,
            );
        let v = ac.goto@[u]@[w[0] as int] as int;
        assert(m == b0 + v);
        assert(v < ac.goto@.len());
        lemma_node_path(ac, ends, h, b0, en, v, w.skip(1), (k - 1) as nat);
    }
}

/// A string that the automaton can read from `u` without completing a
/// forbidden one is spelled by a path.
proof fn lemma_node_path_back(
    ac: AcAutomaton,
    ends: Seq<bool>,
    h: Set<Edge>,
    b0: int,
    en: int,
    u: int,
    w: Seq<u8>,
)
    requires
        ac.wf(),
        0 <= u < ac.goto@.len(),
        !ac.accept@[u],
        forall|e: Edge|
            nodes_edges(ac, ends, b0, en, ac.goto@.len() as int).contains(e) ==> #[trigger] h.contains(e),
        leaves(ac, ends, u, w),
    ensures
        graph::path(h, b0 + u, w, en),
    decreases w.len(),
{
    if w.len() == 0 {
        assert(w =~= Seq::<u8>::empty());
        graph::lemma_here(h, en);
        let e: Edge = (b0 + u, None::<u8>, en);
        assert(nodes_edges(ac, ends, b0, en, ac.goto@.len() as int).contains(e));
        assert(h.contains(e));
        graph::lemma_eps_step(h, b0 + u, en, w, en);
    } else {
        let v = ac.goto@[u]@[w[0] as int] as int;
        assert(v < ac.goto@.len());
        lemma_node_path_back(ac, ends, h, b0, en, v, w.skip(1));
        let e: Edge = (b0 + u, Some(w[0]), b0 + v);
        assert(nodes_edges(ac, ends, b0, en, ac.goto@.len() as int).contains(e));
        assert(h.contains(e));
        graph::lemma_byte_step(h, b0 + u, b0 + v, w, en);
    }
}

/// The states of a repeated negated lookahead spell what the automaton can
/// read from its root without completing a forbidden string.
proof fn lemma_neg_look(
    ac: AcAutomaton,
    ends: Seq<bool>,
    h: Set<Edge>,
    b0: int,
    st: int,
    en: int,
    ent: int,
    rep: NegLookRep,
    w: Seq<u8>,
)
    requires
        ac.wf(),
        st == b0 + ac.goto@.len(),
        en == st + 1,
        ent == st + 2,
        b0 >= 0,
        forall|e: Edge| #[trigger]
            h.contains(e) ==> (e.0 < b0 || (e.0 == st && e.1 is None
                && (rep is Star ==> e.2 == b0) && (rep is Plus ==> e.2 == ent)) || (rep is Plus
                && node_edges(ac, ent, b0, 0, 256).contains(e)) || nodes_edges(
                ac,
                ends,
                b0,
                en,
                ac.goto@.len() as int,
            ).contains(e)),
        rep is Star ==> h.contains((st, None::<u8>, b0)),
        rep is Plus ==> h.contains((st, None::<u8>, ent)),
        forall|e: Edge|
            nodes_edges(ac, ends, b0, en, ac.goto@.len() as int).contains(e) ==> #[trigger] h.contains(e),
        rep is Plus ==> forall|e: Edge|
            node_edges(ac, ent, b0, 0, 256).contains(e) ==> #[trigger] h.contains(e),
    ensures
        graph::path(h, st, w, en) <==> leaves(ac, ends, 0, w) && (rep is Plus ==> w.len() > 0),
{
    if graph::path(h, st, w, en) {
        let n = choose|n: nat| #[trigger] graph::reach(h, st, w, en, n);
        assert(n > 0);
        let m = if rep is Star {
            b0
        } else {
            ent
        };
        assert(graph::reach(h, m, w, en, (n - 1) as nat));
        if rep is Star {
            lemma_node_path(ac, ends, h, b0, en, 0, w, (n - 1) as nat);
        } else {
            let n1 = (n - 1) as nat;
            assert(n1 > 0);
            assert(!exists|m: int| #[trigger]
                h.contains((ent, None::<u8>, m)) && graph::reach(h, m, w, en, (n1 - 1) as nat));
            let k = choose|k: int| #[trigger]
                h.contains((ent, Some(w[0]), k)) && graph::reach(
                    h,
                    k,
                    w.skip(1),
                    en,
                    (n1 - 1) as nat,
                );
            let v = ac.goto@[0]@[w[0] as int] as int;
            assert(k == b0 + v);
            assert(v < ac.goto@.len());
            lemma_node_path(ac, ends, h, b0, en, v, w.skip(1), (n1 - 1) as nat);
        }
    }
    if leaves(ac, ends, 0, w) && (rep is Plus ==> w.len() > 0) {
        if rep is Star {
            lemma_node_path_back(ac, ends, h, b0, en, 0, w);
            graph::lemma_eps_step(h, st, b0, w, en);
        } else {
            let v = ac.goto@[0]@[w[0] as int] as int;
            assert(v < ac.goto@.len());
            lemma_node_path_back(ac, ends, h, b0, en, v, w.skip(1));
            let e: Edge = (ent, Some(w[0]), b0 + v);
            assert(node_edges(ac, ent, b0, 0, 256).contains(e));
            assert(h.contains(e));
            graph::lemma_byte_step(h, ent, b0 + v, w, en);
            graph::lemma_eps_step(h, st, ent, w, en);
        }
    }
}

/// The byte strings that a negated lookahead forbids.
pub(crate) fn forbidden_patterns(chars: &CharClass, strings: &Vec<String>) -> (r: Vec<Vec<u8>>)
    ensures
        aho_corasick::pats_view(r@) == language::forbidden(chars@, names::list_view(strings@)),
{
    let mut r: Vec<Vec<u8>> = Vec::new();
    let mut i: usize = 0;
    while i < chars.items.len()
        invariant
            i <= chars.items@.len(),
            r@.len() == i,
            forall|k: int|
                0 <= k < i ==> (#[trigger] r@[k])@ == language::forbidden_codepoint(
                    chars.items@[k],
                ),
        decreases chars.items@.len() - i,
    {
        let pat = match chars.items[i] {
            ClassItem::Char(c) => if c <= 0x10FFFF && (c < 0xD800 || c > 0xDFFF) {
                utf8_ranges::encode(c)
            } else {
                utf8_ranges::encode(0)
            },
            ClassItem::Range(_, _) => Vec::new(),
        };
        assert(pat@ == language::forbidden_codepoint(chars.items@[i as int]));
        r.push(pat);
        i += 1;
    }
    let ghost n = chars.items@.len() as int;
    let mut j: usize = 0;
    while j < strings.len()
        invariant
            j <= strings@.len(),
            n == chars.items@.len(),
            r@.len() == n + j,
            forall|k: int|
                0 <= k < n ==> (#[trigger] r@[k])@ == language::forbidden_codepoint(
                    chars.items@[k],
                ),
            forall|k: int|
                n <= k < n + j ==> (#[trigger] r@[k])@ == vstd::utf8::encode_utf8(
                    strings@[k - n]@,
                ),
        decreases strings@.len() - j,
    {
        let src = strings[j].as_str().as_bytes();
        let mut bytes: Vec<u8> = Vec::new();
        let mut m: usize = 0;
        while m < src.len()
            invariant
                m <= src@.len(),
                bytes@ == src@.take(m as int),
            decreases src@.len() - m,
        {
            bytes.push(src[m]);
            m += 1;
        }
        assert(bytes@ =~= src@);
        r.push(bytes);
        j += 1;
    }
    proof {
        assert(aho_corasick::pats_view(r@) =~= language::forbidden(
            chars@,
            names::list_view(strings@),
        ));
    }
    r
}

/// The automaton reaches an accepting state of kind `k` on `w`.
pub open spec fn accepts(nfa: Nfa, w: Seq<u8>, k: u16) -> bool {
    exists|q: int|
        0 <= q < nfa.states@.len() && #[trigger] nfa.states@[q].accept == Some(k) && graph::path(
            edges(nfa.states@),
            nfa.start as int,
            w,
            q,
        )
}

/// Some token of kind `k` matches `w`.
pub open spec fn token_matches(tokens: Seq<TokenInfo>, w: Seq<u8>, k: u16) -> bool {
    exists|i: int|
        0 <= i < tokens.len() && (#[trigger] tokens[i]).kind == k && language::lang(
            tokens[i].pattern@,
            w,
        )
}

/// The lexer can be built from every token.
pub open spec fn tokens_compilable(tokens: Seq<TokenInfo>) -> bool {
    forall|i: int| 0 <= i < tokens.len() ==> language::compilable((#[trigger] tokens[i]).pattern@)
}

/// What the first `n` tokens contributed: each has a fragment behind the start
/// state that nothing but the start state leads into.
spec fn joined(tokens: Seq<TokenInfo>, n: int, states: Seq<NfaState>, ends: Seq<int>) -> bool {
    &&& states.len() > 0
    &&& states[0].accept is None
    &&& ends.len() == n
    &&& closed(states)
    &&& forall|i: int|
        0 <= i < n ==> 0 < #[trigger] ends[i] < states.len() && states[ends[i]].accept == Some(
            tokens[i].kind,
        )
    &&& forall|q: int|
        0 <= q < states.len() && (#[trigger] states[q]).accept is Some ==> ends.contains(q)
    &&& forall|i: int, w: Seq<u8>|
        #![trigger ends[i], language::lang(tokens[i].pattern@, w)]
        0 <= i < n ==> (graph::path(edges(states), 0, w, ends[i]) <==> language::lang(
            tokens[i].pattern@,
            w,
        ))
    &&& forall|e: Edge| #[trigger] edges(states).contains(e) ==> e.2 != 0
}

/// One more fragment leaves the paths to the earlier ends as they were, and
/// adds the paths through the fragment.
proof fn lemma_join_token(
    before: Seq<NfaState>,
    mid: Seq<NfaState>,
    after: Seq<NfaState>,
    f: NfaFragment,
    w: Seq<u8>,
    t: int,
)
    requires
        before.len() > 0,
        closed(before),
        forall|e: Edge| #[trigger] edges(before).contains(e) ==> e.2 != 0,
        extends(before, mid),
        before.len() <= f.start < mid.len(),
        edges(after) == edges(mid).insert((0int, None::<u8>, f.start as int)),
    ensures
        0 <= t < before.len() ==> (graph::path(edges(after), 0, w, t) <==> graph::path(
            edges(before),
            0,
            w,
            t,
        )),
        before.len() <= t < mid.len() ==> (graph::path(edges(after), 0, w, t) <==> graph::path(
            edges(mid),
            f.start as int,
            w,
            t,
        )),
{
    let g = edges(before);
    let gf = edges(mid);
    let h = edges(after);
    let fs = f.start as int;
    let r = Set::new(|i: int| 0 < i < before.len());
    let rf = between(before.len() as int, mid.len() as int);
    assert forall|x: Edge| #[trigger] h.contains(x) implies {
        &&& r.contains(x.0) ==> g.contains(x) && r.contains(x.2)
        &&& rf.contains(x.0) ==> gf.contains(x) && rf.contains(x.2)
        &&& x.0 == 0 ==> (g.contains(x) && r.contains(x.2)) || x == (0int, None::<u8>, fs)
    } by {
        lemma_extends_edges(before, mid, x);
    }
    assert forall|x: Edge| #[trigger] g.contains(x) implies h.contains(x) by {
        lemma_extends_edges(before, mid, x);
    }
    if graph::path(h, 0, w, t) {
        let n = choose|n: nat| #[trigger] graph::reach(h, 0, w, t, n);
        if n == 0 {
            assert(w =~= Seq::<u8>::empty());
            graph::lemma_here(g, 0);
        } else if exists|m: int| #[trigger]
            h.contains((0int, None::<u8>, m)) && graph::reach(h, m, w, t, (n - 1) as nat) {
            let m = choose|m: int| #[trigger]
                h.contains((0int, None::<u8>, m)) && graph::reach(h, m, w, t, (n - 1) as nat);
            assert(graph::path(h, m, w, t));
            let x: Edge = (0int, None::<u8>, m);
            if g.contains(x) && r.contains(m) {
                graph::lemma_region(g, h, r, m, w, t);
                graph::lemma_eps_step(g, 0, m, w, t);
            } else {
                graph::lemma_region(gf, h, rf, fs, w, t);
            }
        } else {
            let m = choose|m: int| #[trigger]
                h.contains((0int, Some(w[0]), m)) && graph::reach(
                    h,
                    m,
                    w.skip(1),
                    t,
                    (n - 1) as nat,
                );
            assert(graph::path(h, m, w.skip(1), t));
            graph::lemma_region(g, h, r, m, w.skip(1), t);
            graph::lemma_byte_step(g, 0, m, w, t);
        }
    }
    if graph::path(g, 0, w, t) {
        graph::lemma_mono(g, h, 0, w, t);
    }
    if graph::path(gf, fs, w, t) {
        graph::lemma_mono(gf, h, fs, w, t);
        assert(h.contains((0int, None::<u8>, fs)));
        graph::lemma_eps_step(h, 0, fs, w, t);
    }
}

/// Builds one automaton for all tokens: a start state leads to the fragment
/// of each, whose end accepts the token's kind.
pub fn build_nfa(tokens: &Vec<TokenInfo>) -> (nfa: Nfa)
    requires
        tokens_compilable(tokens@),
    ensures
        closed(nfa.states@),
        nfa.start < nfa.states@.len(),
        forall|w: Seq<u8>, k: u16| #[trigger]
            accepts(nfa, w, k) <==> token_matches(tokens@, w, k),
{
    let mut b = NfaBuilder::new();
    let start = b.new_state();
    let ghost mut ends: Seq<int> = Seq::empty();
    let mut i: usize = 0;
    while i < tokens.len()
        invariant
            i <= tokens@.len(),
            tokens_compilable(tokens@),
            start == 0,
            joined(tokens@, i as int, b.states@, ends),
        decreases tokens@.len() - i,
    {
        let ghost before = b.states@;
        let ghost ends0 = ends;
        assert(language::compilable(tokens@[i as int].pattern@));
        let frag = b.compile(&tokens[i].pattern);
        let ghost mid = b.states@;
        b.add_epsilon(start, frag.start);
        let ghost linked = b.states@;
        b.states[frag.end].accept = Some(tokens[i].kind);
        proof {
            let after = b.states@;
            assert(edges(after) =~= edges(linked)) by {
                assert forall|e: Edge| edges(after).contains(e) == edges(linked).contains(e) by {
                    if 0 <= e.0 < after.len() {
                        assert(after[e.0].epsilon == linked[e.0].epsilon);
                        assert(after[e.0].range_trans == linked[e.0].range_trans);
                        assert(after[e.0].leads(e.1, e.2) == linked[e.0].leads(e.1, e.2));
                    }
                }
            }
            ends = ends0.push(frag.end as int);
            assert forall|k: int| 0 <= k < i + 1 implies 0 < #[trigger] ends[k] < after.len()
                && after[ends[k]].accept == Some(tokens@[k].kind) by {
                if k < i {
                    assert(ends[k] == ends0[k]);
                    assert(mid[ends0[k]] == before[ends0[k]]);
                }
            }
            assert forall|q: int|
                0 <= q < after.len() && (#[trigger] after[q]).accept is Some implies ends.contains(
                q,
            ) by {
                if q == frag.end {
                    assert(ends[i as int] == q);
                } else {
                    assert(linked[q] == after[q]);
                    assert(mid[q].accept == linked[q].accept);
                    assert(q < before.len());
                    assert(mid[q] == before[q]);
                    let k = choose|k: int| 0 <= k < ends0.len() && ends0[k] == q;
                    assert(ends[k] == q);
                }
            }
            assert forall|k: int, w: Seq<u8>|
                #![trigger ends[k], language::lang(tokens@[k].pattern@, w)]
                0 <= k < i + 1 implies (graph::path(edges(after), 0, w, ends[k])
                <==> language::lang(tokens@[k].pattern@, w)) by {
                lemma_join_token(before, mid, after, frag, w, ends[k]);
                if k < i {
                    assert(ends[k] == ends0[k]);
                }
            }
            assert forall|e: Edge| #[trigger] edges(after).contains(e) implies e.2 != 0 && 0 <= e.2
                < after.len() by {
                lemma_extends_edges(before, mid, e);
            }
        }
        i += 1;
    }
    let nfa = Nfa { states: b.states, start };
    proof {
        assert forall|w: Seq<u8>, k: u16| #[trigger]
            accepts(nfa, w, k) <==> token_matches(tokens@, w, k) by {
            if accepts(nfa, w, k) {
                let q = choose|q: int|
                    0 <= q < nfa.states@.len() && #[trigger] nfa.states@[q].accept == Some(k)
                        && graph::path(edges(nfa.states@), nfa.start as int, w, q);
                let m = choose|m: int| 0 <= m < ends.len() && ends[m] == q;
                assert(ends[m] == q);
                assert(language::lang(tokens@[m].pattern@, w));
                assert(tokens@[m].kind == k);
            }
            if token_matches(tokens@, w, k) {
                let m = choose|m: int|
                    0 <= m < tokens@.len() && (#[trigger] tokens@[m]).kind == k && language::lang(
                        tokens@[m].pattern@,
                        w,
                    );
                let q = ends[m];
                assert(graph::path(edges(nfa.states@), 0, w, q));
                assert(nfa.states@[q].accept == Some(k));
            }
        }
    }
    nfa
}

} // verus!
