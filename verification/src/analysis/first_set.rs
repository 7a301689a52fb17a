//! Sets of token-name sequences, and their length-bounded operations.
use vstd::prelude::*;

use crate::names::{self, Rank};

verus! {

/// A sequence of token names.
pub type NameSeq = Seq<Seq<char>>;

/// A set of token-name sequences in ascending order. The empty sequence is
/// "ε": what has it can be passed without a token.
#[derive(Debug, PartialEq, Eq)]
pub struct FirstSet {
    seqs: Vec<Vec<String>>,
}

/// The views of a list of sequences.
pub open spec fn seqs_view(v: Seq<Vec<String>>) -> Seq<NameSeq> {
    Seq::new(v.len(), |i: int| names::list_view(v[i]@))
}

impl FirstSet {
    /// The sequences in order.
    pub closed spec fn list(self) -> Seq<NameSeq> {
        seqs_view(self.seqs@)
    }

    /// The sequences.
    pub open spec fn view(self) -> Set<NameSeq> {
        self.list().to_set()
    }

    /// The sequences are in strictly ascending order.
    pub open spec fn wf(self) -> bool {
        forall|i: int, j: int|
            0 <= i < j < self.list().len() ==> names::list_less(
                #[trigger] self.list()[i],
                #[trigger] self.list()[j],
            )
    }

    /// The empty set.
    pub fn new() -> (r: Self)
        ensures
            r.wf(),
            r@ == Set::<NameSeq>::empty(),
            r.list().len() == 0,
    {
        let r = FirstSet { seqs: Vec::new() };
        assert(r@ =~= Set::<NameSeq>::empty());
        r
    }

    /// The number of sequences.
    pub fn len(&self) -> (n: usize)
        ensures
            n == self.list().len(),
    {
        self.seqs.len()
    }

    /// True iff the set is empty.
    pub fn is_empty(&self) -> (r: bool)
        ensures
            r == (self.list().len() == 0),
            r == (self@ == Set::<NameSeq>::empty()),
    {
        proof {
            if self.list().len() > 0 {
                assert(self.list().contains(self.list()[0]));
                assert(self@.contains(self.list()[0]));
            } else {
                assert(self@ =~= Set::<NameSeq>::empty());
            }
        }
        self.seqs.len() == 0
    }

    /// The sequence at position `i` of the order.
    pub fn get(&self, i: usize) -> (r: &Vec<String>)
        requires
            i < self.list().len(),
        ensures
            names::list_view(r@) == self.list()[i as int],
            self@.contains(names::list_view(r@)),
    {
        assert(self.list().contains(self.list()[i as int]));
        &self.seqs[i]
    }

    /// True iff the set holds `seq`.
    pub fn contains(&self, seq: &Vec<String>) -> (r: bool)
        ensures
            r == self@.contains(names::list_view(seq@)),
    {
        let ghost x = names::list_view(seq@);
        let mut i: usize = 0;
        while i < self.seqs.len()
            invariant
                x == names::list_view(seq@),
                i <= self.seqs@.len(),
                forall|k: int| 0 <= k < i ==> #[trigger] self.list()[k] != x,
            decreases self.seqs@.len() - i,
        {
            if names::rank_list(&self.seqs[i], seq) == Rank::Same {
                assert(self.list()[i as int] == x);
                assert(self.list().contains(x));
                return true;
            }
            assert(self.list()[i as int] != x);
            i += 1;
        }
        assert(!self.list().contains(x));
        false
    }

    /// Adds `seq`; true if it was not there.
    pub fn insert(&mut self, seq: Vec<String>) -> (fresh: bool)
        requires
            old(self).wf(),
        ensures
            final(self).wf(),
            final(self)@ == old(self)@.insert(names::list_view(seq@)),
            fresh == !old(self)@.contains(names::list_view(seq@)),
            final(self).list().len() == old(self).list().len() + if fresh { 1int } else { 0 },
    {
        let ghost before = self.list();
        let ghost x = names::list_view(seq@);
        let mut at: usize = 0;
        let mut r = Rank::Before;
        while at < self.seqs.len() && r == Rank::Before
            invariant
                x == names::list_view(seq@),
                self.list() == before,
                at <= self.seqs@.len(),
                before.len() == self.seqs@.len(),
                forall|k: int| 0 <= k < at ==> names::list_less(#[trigger] before[k], x),
                r == Rank::Same ==> at < before.len() && before[at as int] == x,
                r == Rank::After ==> at < before.len() && names::list_less(x, before[at as int]),
            decreases self.seqs@.len() - at, (if r == Rank::Before { 1int } else { 0int }),
        {
            r = names::rank_list(&self.seqs[at], &seq);
            assert(before[at as int] == names::list_view(self.seqs@[at as int]@));
            if r == Rank::Before {
                at += 1;
            }
        }
        if r == Rank::Same {
            assert(before[at as int] == x);
            assert(before.contains(x));
            assert(self@ =~= self@.insert(x));
            return false;
        }
        self.seqs.insert(at, seq);
        proof {
            let after = self.list();
            assert(after =~= before.insert(at as int, x));
            lemma_insert_sorted(before, at as int, x);
            assert(self@ =~= old(self)@.insert(x)) by {
                assert forall|y: NameSeq| after.contains(y) <==> before.contains(y) || y == x by {
                    names::lemma_insert_contains(before, at as int, x, y);
                }
            }
        }
        true
    }

    /// Adds every sequence of `other`; true if one was not there.
    pub fn extend(&mut self, other: &FirstSet) -> (grew: bool)
        requires
            old(self).wf(),
        ensures
            final(self).wf(),
            final(self)@ == old(self)@.union(other@),
            grew == !other@.subset_of(old(self)@),
            final(self).list().len() >= old(self).list().len(),
            grew ==> final(self).list().len() > old(self).list().len(),
            !grew ==> final(self)@ == old(self)@,
    {
        let ghost before = self@;
        let ghost n0 = self.list().len();
        let mut grew = false;
        let mut i: usize = 0;
        proof {
            assert(other.list().take(0).to_set() =~= Set::<NameSeq>::empty());
            assert(self@ =~= before.union(other.list().take(0).to_set()));
        }
        while i < other.seqs.len()
            invariant
                i <= other.seqs@.len(),
                other.list().len() == other.seqs@.len(),
                self.wf(),
                self@ == before.union(other.list().take(i as int).to_set()),
                grew == !other.list().take(i as int).to_set().subset_of(before),
                self.list().len() >= n0,
                grew ==> self.list().len() > n0,
                !grew ==> self.list().len() == n0,
            decreases other.seqs@.len() - i,
        {
            let ghost x = other.list()[i as int];
            let ghost t0 = other.list().take(i as int);
            let ghost t1 = other.list().take(i + 1);
            let ghost cur = self@;
            let fresh = self.insert(clone_seq(&other.seqs[i]));
            proof {
                assert(t1 =~= t0.push(x));
                lemma_push_set(t0, x);
                assert(self@ =~= before.union(t1.to_set()));
                if fresh {
                    assert(!before.contains(x));
                    assert(t1.to_set().contains(x));
                } else if !grew {
                    assert(cur.contains(x));
                    assert(before.contains(x));
                }
            }
            grew = grew || fresh;
            i += 1;
        }
        proof {
            assert(other.list().take(i as int) =~= other.list());
            if !grew {
                assert(self@ =~= before);
            }
        }
        grew
    }
}

/// Adding at the end adds to the set of elements.
pub proof fn lemma_push_set<A>(s: Seq<A>, x: A)
    ensures
        s.push(x).to_set() == s.to_set().insert(x),
{
    let t = s.push(x);
    assert forall|y: A| t.contains(y) <==> s.contains(y) || y == x by {
        if s.contains(y) {
            let k = choose|k: int| 0 <= k < s.len() && s[k] == y;
            assert(t[k] == y);
        }
        assert(t[s.len() as int] == x);
        if t.contains(y) {
            let k = choose|k: int| 0 <= k < t.len() && t[k] == y;
            if k < s.len() {
                assert(s[k] == y);
            }
        }
    }
    assert(t.to_set() =~= s.to_set().insert(x));
}

/// Copies a sequence of names.
pub fn clone_seq(v: &Vec<String>) -> (r: Vec<String>)
    ensures
        names::list_view(r@) == names::list_view(v@),
        r@.len() == v@.len(),
{
    let mut r: Vec<String> = Vec::new();
    let mut i: usize = 0;
    while i < v.len()
        invariant
            i <= v@.len(),
            r@.len() == i,
            forall|k: int| 0 <= k < i ==> (#[trigger] r@[k])@ == v@[k]@,
        decreases v@.len() - i,
    {
        r.push(v[i].clone());
        i += 1;
    }
    assert(names::list_view(r@) =~= names::list_view(v@));
    r
}

impl Clone for FirstSet {
    fn clone(&self) -> (r: Self)
        ensures
            r.list() == self.list(),
    {
        let mut seqs: Vec<Vec<String>> = Vec::new();
        let mut i: usize = 0;
        while i < self.seqs.len()
            invariant
                i <= self.seqs@.len(),
                seqs@.len() == i,
                forall|k: int|
                    0 <= k < i ==> names::list_view((#[trigger] seqs@[k])@) == names::list_view(
                        self.seqs@[k]@,
                    ),
            decreases self.seqs@.len() - i,
        {
            seqs.push(clone_seq(&self.seqs[i]));
            i += 1;
        }
        let r = FirstSet { seqs };
        assert(r.list() =~= self.list());
        r
    }
}

impl Default for FirstSet {
    fn default() -> (r: Self)
        ensures
            r.wf(),
            r@ == Set::<NameSeq>::empty(),
    {
        FirstSet::new()
    }
}

proof fn lemma_insert_sorted(s: Seq<NameSeq>, at: int, x: NameSeq)
    requires
        0 <= at <= s.len(),
        forall|i: int, j: int|
            0 <= i < j < s.len() ==> names::list_less(#[trigger] s[i], #[trigger] s[j]),
        forall|k: int| 0 <= k < at ==> names::list_less(#[trigger] s[k], x),
        at < s.len() ==> names::list_less(x, s[at]),
    ensures
        !s.contains(x),
        forall|i: int, j: int|
            0 <= i < j < s.len() + 1 ==> names::list_less(
                #[trigger] s.insert(at, x)[i],
                #[trigger] s.insert(at, x)[j],
            ),
{
    let t = s.insert(at, x);
    assert forall|k: int| at <= k < s.len() implies names::list_less(x, #[trigger] s[k]) by {
        if k > at {
            names::lemma_list_transitive(x, s[at], s[k]);
        }
    }
    assert forall|i: int, j: int| 0 <= i < j < s.len() + 1 implies names::list_less(
        #[trigger] t[i],
        #[trigger] t[j],
    ) by {
        if j < at {
            assert(t[i] == s[i] && t[j] == s[j]);
        } else if j == at {
            assert(t[i] == s[i] && t[j] == x);
        } else if i < at {
            assert(t[i] == s[i] && t[j] == s[j - 1]);
        } else if i == at {
            assert(t[i] == x && t[j] == s[j - 1]);
        } else {
            assert(t[i] == s[i - 1] && t[j] == s[j - 1]);
        }
    }
    if s.contains(x) {
        let k = choose|k: int| 0 <= k < s.len() && s[k] == x;
        names::lemma_list_irreflexive(x);
    }
}

/// The first `k` names of `s`.
pub open spec fn cut(s: NameSeq, k: nat) -> NameSeq {
    if s.len() <= k {
        s
    } else {
        s.take(k as int)
    }
}

/// Length-bounded concatenation: a sequence of `a` that has `k` names or more
/// stays, and any other is followed by each sequence of `b`, cut to `k` names.
pub open spec fn concat_k_of(a: Set<NameSeq>, b: Set<NameSeq>, k: nat) -> Set<NameSeq> {
    Set::new(
        |s: NameSeq|
            (a.contains(s) && s.len() >= k) || exists|x: NameSeq, y: NameSeq|
                joins(a, b, k, x, y) && s == cut(x + y, k),
    )
}

/// `x` and `y` are joined by the length-bounded concatenation.
pub open spec fn joins(a: Set<NameSeq>, b: Set<NameSeq>, k: nat, x: NameSeq, y: NameSeq) -> bool {
    a.contains(x) && x.len() < k && b.contains(y)
}

/// What one sequence contributes to the concatenation.
spec fn concat_one(x: NameSeq, b: Set<NameSeq>, k: nat) -> Set<NameSeq> {
    concat_k_of(Set::empty().insert(x), b, k)
}

proof fn lemma_concat_insert(a: Set<NameSeq>, x: NameSeq, b: Set<NameSeq>, k: nat)
    ensures
        concat_k_of(a.insert(x), b, k) == concat_k_of(a, b, k).union(concat_one(x, b, k)),
{
    let l = concat_k_of(a.insert(x), b, k);
    let r = concat_k_of(a, b, k).union(concat_one(x, b, k));
    assert forall|s: NameSeq| l.contains(s) <==> r.contains(s) by {
        if l.contains(s) && !(a.insert(x).contains(s) && s.len() >= k) {
            let (p, q) = choose|p: NameSeq, q: NameSeq|
                joins(a.insert(x), b, k, p, q) && s == cut(p + q, k);
            if p == x {
                assert(joins(Set::empty().insert(x), b, k, p, q));
            } else {
                assert(joins(a, b, k, p, q));
            }
        }
        if concat_k_of(a, b, k).contains(s) && !(a.contains(s) && s.len() >= k) {
            let (p, q) = choose|p: NameSeq, q: NameSeq| joins(a, b, k, p, q) && s == cut(p + q, k);
            assert(joins(a.insert(x), b, k, p, q));
        }
        if concat_one(x, b, k).contains(s) && !(s == x && s.len() >= k) {
            let (p, q) = choose|p: NameSeq, q: NameSeq|
                joins(Set::empty().insert(x), b, k, p, q) && s == cut(p + q, k);
            assert(joins(a.insert(x), b, k, p, q));
        }
    }
    assert(l =~= r);
}

/// Length-bounded concatenation of two sets.
pub fn concat_k(a: &FirstSet, b: &FirstSet, k: usize) -> (out: FirstSet)
    ensures
        out.wf(),
        out@ == concat_k_of(a@, b@, k as nat),
{
    let mut out = FirstSet::new();
    let mut i: usize = 0;
    proof {
        assert(a.list().take(0).to_set() =~= Set::<NameSeq>::empty());
        assert(concat_k_of(Set::empty(), b@, k as nat) =~= Set::<NameSeq>::empty());
    }
    while i < a.seqs.len()
        invariant
            i <= a.seqs@.len(),
            a.list().len() == a.seqs@.len(),
            out.wf(),
            out@ == concat_k_of(a.list().take(i as int).to_set(), b@, k as nat),
        decreases a.seqs@.len() - i,
    {
        let x = &a.seqs[i];
        let ghost xv = names::list_view(x@);
        let ghost before = out@;
        let ghost single = Set::<NameSeq>::empty().insert(xv);
        assert(xv == a.list()[i as int]);
        if x.len() >= k {
            out.insert(clone_seq(x));
            proof {
                assert(concat_one(xv, b@, k as nat) =~= single);
                assert(out@ =~= before.union(concat_one(xv, b@, k as nat)));
            }
        } else {
            let mut j: usize = 0;
            proof {
                assert(b.list().take(0).to_set() =~= Set::<NameSeq>::empty());
                assert(concat_k_of(single, Set::empty(), k as nat) =~= Set::<NameSeq>::empty());
                assert(out@ =~= before.union(Set::<NameSeq>::empty()));
            }
            while j < b.seqs.len()
                invariant
                    xv == names::list_view(x@),
                    xv.len() < k,
                    j <= b.seqs@.len(),
                    b.list().len() == b.seqs@.len(),
                    single == Set::<NameSeq>::empty().insert(xv),
                    out.wf(),
                    out@ == before.union(
                        concat_k_of(single, b.list().take(j as int).to_set(), k as nat),
                    ),
                decreases b.seqs@.len() - j,
            {
                let y = &b.seqs[j];
                let ghost yv = names::list_view(y@);
                assert(yv == b.list()[j as int]);
                let s = join_cut(x, y, k);
                let ghost cur = out@;
                let ghost bs = b.list().take(j as int).to_set();
                out.insert(s);
                proof {
                    assert(b.list().take(j + 1) =~= b.list().take(j as int).push(yv));
                    lemma_push_set(b.list().take(j as int), yv);
                    lemma_concat_single(single, xv, bs, yv, k as nat);
                    assert(out@ =~= before.union(concat_k_of(single, bs.insert(yv), k as nat)));
                }
                j += 1;
            }
            assert(b.list().take(j as int) =~= b.list());
        }
        proof {
            assert(a.list().take(i + 1) =~= a.list().take(i as int).push(xv));
            lemma_push_set(a.list().take(i as int), xv);
            lemma_concat_insert(a.list().take(i as int).to_set(), xv, b@, k as nat);
        }
        i += 1;
    }
    assert(a.list().take(i as int) =~= a.list());
    out
}

proof fn lemma_concat_single(
    single: Set<NameSeq>,
    x: NameSeq,
    b: Set<NameSeq>,
    y: NameSeq,
    k: nat,
)
    requires
        single == Set::<NameSeq>::empty().insert(x),
        x.len() < k,
    ensures
        concat_k_of(single, b.insert(y), k) == concat_k_of(single, b, k).insert(cut(x + y, k)),
{
    let l = concat_k_of(single, b.insert(y), k);
    let r = concat_k_of(single, b, k).insert(cut(x + y, k));
    assert forall|s: NameSeq| l.contains(s) <==> r.contains(s) by {
        if l.contains(s) {
            let (p, q) = choose|p: NameSeq, q: NameSeq|
                joins(single, b.insert(y), k, p, q) && s == cut(p + q, k);
            assert(p == x);
            if q != y {
                assert(joins(single, b, k, p, q));
            }
        }
        if concat_k_of(single, b, k).contains(s) {
            let (p, q) = choose|p: NameSeq, q: NameSeq|
                joins(single, b, k, p, q) && s == cut(p + q, k);
            assert(joins(single, b.insert(y), k, p, q));
        }
        if s == cut(x + y, k) {
            assert(joins(single, b.insert(y), k, x, y));
        }
    }
    assert(l =~= r);
}

/// `x` followed by `y`, cut to `k` names.
fn join_cut(x: &Vec<String>, y: &Vec<String>, k: usize) -> (s: Vec<String>)
    requires
        x@.len() < k,
    ensures
        names::list_view(s@) == cut(names::list_view(x@) + names::list_view(y@), k as nat),
{
    let ghost full = names::list_view(x@) + names::list_view(y@);
    let mut s = clone_seq(x);
    let mut i: usize = 0;
    assert(names::list_view(s@) =~= full.take(s@.len() as int));
    while i < y.len() && s.len() < k
        invariant
            i <= y@.len(),
            full == names::list_view(x@) + names::list_view(y@),
            s@.len() == x@.len() + i,
            s@.len() <= k,
            names::list_view(s@) == full.take(s@.len() as int),
        decreases y@.len() - i,
    {
        let ghost before = s@;
        s.push(y[i].clone());
        i += 1;
        proof {
            assert(names::list_view(s@) =~= full.take(s@.len() as int)) by {
                assert forall|m: int| 0 <= m < s@.len() implies names::list_view(s@)[m]
                    == full[m] by {
                    if m < before.len() {
                        assert(names::list_view(before)[m] == full.take(before.len() as int)[m]);
                    }
                }
            }
        }
    }
    proof {
        assert(names::list_view(s@) =~= cut(full, k as nat));
    }
    s
}

/// What up to `n` repetitions give.
pub open spec fn star_n(inner: Set<NameSeq>, k: nat, n: nat) -> Set<NameSeq>
    decreases n,
{
    if n == 0 {
        Set::empty().insert(Seq::empty())
    } else {
        let prev = star_n(inner, k, (n - 1) as nat);
        prev.union(concat_k_of(prev, inner, k))
    }
}

/// Length-bounded repetition: ε, and whatever any number of repetitions give.
pub open spec fn star_k_of(inner: Set<NameSeq>, k: nat) -> Set<NameSeq> {
    Set::new(|s: NameSeq| exists|n: nat| #[trigger] star_n(inner, k, n).contains(s))
}

/// A sequence that round `n + 1` adds has more than `n` names, and at most `k`.
proof fn lemma_star_new(inner: Set<NameSeq>, k: nat, n: nat, s: NameSeq)
    requires
        star_n(inner, k, n + 1).contains(s),
        !star_n(inner, k, n).contains(s),
    ensures
        n + 1 <= s.len() <= k,
    decreases n,
{
    let prev = star_n(inner, k, n);
    assert(((n + 1) - 1) as nat == n);
    assert(concat_k_of(prev, inner, k).contains(s));
    let (x, y) = choose|x: NameSeq, y: NameSeq| joins(prev, inner, k, x, y) && s == cut(x + y, k);
    if y.len() == 0 {
        assert(x + y =~= x);
    }
    if n > 0 {
        let prev2 = star_n(inner, k, (n - 1) as nat);
        if prev2.contains(x) {
            assert(joins(prev2, inner, k, x, y));
            assert(concat_k_of(prev2, inner, k).contains(s));
        }
        lemma_star_new(inner, k, (n - 1) as nat, x);
    }
}

/// A round that adds nothing is the last.
proof fn lemma_star_stable(inner: Set<NameSeq>, k: nat, m: nat, n: nat)
    requires
        concat_k_of(star_n(inner, k, m), inner, k).subset_of(star_n(inner, k, m)),
    ensures
        star_n(inner, k, n).subset_of(star_n(inner, k, m)),
    decreases n,
{
    let all = star_n(inner, k, m);
    if n == 0 {
        lemma_star_grows(inner, k, 0, m);
    } else {
        lemma_star_stable(inner, k, m, (n - 1) as nat);
        let prev = star_n(inner, k, (n - 1) as nat);
        lemma_concat_mono(prev, all, inner, inner, k);
    }
}

proof fn lemma_star_grows(inner: Set<NameSeq>, k: nat, m: nat, n: nat)
    requires
        m <= n,
    ensures
        star_n(inner, k, m).subset_of(star_n(inner, k, n)),
    decreases n,
{
    if m < n {
        lemma_star_grows(inner, k, m, (n - 1) as nat);
    }
}

/// Larger sets have a larger concatenation.
pub proof fn lemma_concat_mono(
    a: Set<NameSeq>,
    a2: Set<NameSeq>,
    b: Set<NameSeq>,
    b2: Set<NameSeq>,
    k: nat,
)
    requires
        a.subset_of(a2),
        b.subset_of(b2),
    ensures
        concat_k_of(a, b, k).subset_of(concat_k_of(a2, b2, k)),
{
    assert forall|s: NameSeq| concat_k_of(a, b, k).contains(s) implies concat_k_of(
        a2,
        b2,
        k,
    ).contains(s) by {
        if !(a.contains(s) && s.len() >= k) {
            let (x, y) = choose|x: NameSeq, y: NameSeq| joins(a, b, k, x, y) && s == cut(x + y, k);
            assert(joins(a2, b2, k, x, y));
        }
    }
}

/// Larger sets have a larger repetition.
pub proof fn lemma_star_mono(a: Set<NameSeq>, b: Set<NameSeq>, k: nat)
    requires
        a.subset_of(b),
    ensures
        star_k_of(a, k).subset_of(star_k_of(b, k)),
{
    assert forall|s: NameSeq| star_k_of(a, k).contains(s) implies star_k_of(b, k).contains(s) by {
        let n = choose|n: nat| #[trigger] star_n(a, k, n).contains(s);
        lemma_star_n_mono(a, b, k, n);
        assert(star_n(b, k, n).contains(s));
    }
}

proof fn lemma_star_n_mono(a: Set<NameSeq>, b: Set<NameSeq>, k: nat, n: nat)
    requires
        a.subset_of(b),
    ensures
        star_n(a, k, n).subset_of(star_n(b, k, n)),
    decreases n,
{
    if n > 0 {
        lemma_star_n_mono(a, b, k, (n - 1) as nat);
        lemma_concat_mono(
            star_n(a, k, (n - 1) as nat),
            star_n(b, k, (n - 1) as nat),
            a,
            b,
            k,
        );
    }
}

/// Length-bounded repetition of a set, saturated round by round. It ends
/// because sequences are capped at `k` names.
pub fn star_k(inner: &FirstSet, k: usize) -> (out: FirstSet)
    ensures
        out.wf(),
        out@ == star_k_of(inner@, k as nat),
{
    let mut out = FirstSet::new();
    out.insert(Vec::new());
    let ghost mut n: nat = 0;
    let mut done = false;
    proof {
        assert(names::list_view(Seq::<String>::empty()) =~= Seq::<Seq<char>>::empty());
        assert(out@ =~= star_n(inner@, k as nat, 0));
    }
    while !done
        invariant
            out.wf(),
            n <= k,
            out@ == star_n(inner@, k as nat, n),
            done ==> concat_k_of(out@, inner@, k as nat).subset_of(out@),
        decreases k - n, (if done { 0int } else { 1int }),
    {
        let added = concat_k(&out, inner, k);
        let ghost before = out@;
        let grew = out.extend(&added);
        if grew {
            proof {
                assert(((n + 1) - 1) as nat == n);
                assert(out@ == star_n(inner@, k as nat, n + 1));
                let s = choose|s: NameSeq| added@.contains(s) && !before.contains(s);
                lemma_star_new(inner@, k as nat, n, s);
                n = n + 1;
            }
        } else {
            done = true;
        }
    }
    proof {
        let kk = k as nat;
        assert forall|s: NameSeq| out@.contains(s) <==> star_k_of(inner@, kk).contains(s) by {
            if out@.contains(s) {
                assert(star_n(inner@, kk, n).contains(s));
            }
            if star_k_of(inner@, kk).contains(s) {
                let m = choose|m: nat| #[trigger] star_n(inner@, kk, m).contains(s);
                lemma_star_stable(inner@, kk, n, m);
            }
        }
        assert(out@ =~= star_k_of(inner@, kk));
    }
    out
}

/// Split a set into its non-empty sequences and whether ε was a member.
pub fn split_nullable(s: &FirstSet) -> (r: (FirstSet, bool))
    ensures
        r.0.wf(),
        r.0@ == s@.remove(Seq::empty()),
        r.1 == s@.contains(Seq::empty()),
{
    let mut out = FirstSet::new();
    let mut null = false;
    let mut i: usize = 0;
    proof {
        assert(s.list().take(0).to_set() =~= Set::<NameSeq>::empty());
        assert(out@ =~= s.list().take(0).to_set().remove(Seq::empty()));
    }
    while i < s.seqs.len()
        invariant
            i <= s.seqs@.len(),
            s.list().len() == s.seqs@.len(),
            out.wf(),
            out@ == s.list().take(i as int).to_set().remove(Seq::empty()),
            null == s.list().take(i as int).to_set().contains(Seq::empty()),
        decreases s.seqs@.len() - i,
    {
        let seq = &s.seqs[i];
        let ghost x = names::list_view(seq@);
        proof {
            assert(x == s.list()[i as int]);
            assert(s.list().take(i + 1) =~= s.list().take(i as int).push(x));
            lemma_push_set(s.list().take(i as int), x);
        }
        let ghost before = out@;
        if seq.len() == 0 {
            null = true;
            assert(x =~= Seq::<Seq<char>>::empty());
            assert(out@ =~= s.list().take(i + 1).to_set().remove(Seq::empty()));
        } else {
            out.insert(clone_seq(seq));
            assert(x.len() > 0);
            assert(out@ =~= s.list().take(i + 1).to_set().remove(Seq::empty()));
        }
        i += 1;
    }
    assert(s.list().take(i as int) =~= s.list());
    (out, null)
}

/// The sequences are in strictly ascending order.
pub open spec fn ascending(l: Seq<NameSeq>) -> bool {
    forall|i: int, j: int|
        0 <= i < j < l.len() ==> names::list_less(#[trigger] l[i], #[trigger] l[j])
}

/// The sequences of the set in strictly ascending order.
pub open spec fn listed(s: Set<NameSeq>) -> Seq<NameSeq> {
    choose|l: Seq<NameSeq>| ascending(l) && #[trigger] l.to_set() == s
}

/// A set has one ascending list.
proof fn lemma_ascending_unique(a: Seq<NameSeq>, b: Seq<NameSeq>)
    requires
        ascending(a),
        ascending(b),
        a.to_set() == b.to_set(),
    ensures
        a == b,
    decreases a.len(),
{
    if a.len() == 0 {
        if b.len() > 0 {
            assert(b.to_set().contains(b[0])) by {
                assert(b.contains(b[0]));
            }
            assert(a.contains(b[0]));
        }
        assert(a =~= b);
    } else {
        let x = a.last();
        assert(a.contains(a[a.len() - 1]));
        assert(b.to_set().contains(x));
        let j = choose|j: int| 0 <= j < b.len() && b[j] == x;
        let y = b.last();
        assert(b.contains(b[b.len() - 1]));
        assert(a.to_set().contains(y));
        let i = choose|i: int| 0 <= i < a.len() && a[i] == y;
        if j < b.len() - 1 {
            assert(names::list_less(b[j], b[b.len() - 1]));
            if i < a.len() - 1 {
                assert(names::list_less(a[i], a[a.len() - 1]));
                names::lemma_list_transitive(x, y, x);
            }
            names::lemma_list_irreflexive(x);
        }
        let a1 = a.drop_last();
        let b1 = b.drop_last();
        assert forall|s: NameSeq| a1.to_set().contains(s) <==> b1.to_set().contains(s) by {
            if a1.contains(s) {
                let m = choose|m: int| 0 <= m < a1.len() && a1[m] == s;
                assert(names::list_less(a[m], a[a.len() - 1]));
                assert(a.contains(a[m]));
                assert(b.to_set().contains(s));
                let n = choose|n: int| 0 <= n < b.len() && b[n] == s;
                if n == b.len() - 1 {
                    names::lemma_list_irreflexive(x);
                }
                assert(b1[n] == s);
            }
            if b1.contains(s) {
                let m = choose|m: int| 0 <= m < b1.len() && b1[m] == s;
                assert(names::list_less(b[m], b[b.len() - 1]));
                assert(b.contains(b[m]));
                assert(a.to_set().contains(s));
                let n = choose|n: int| 0 <= n < a.len() && a[n] == s;
                if n == a.len() - 1 {
                    names::lemma_list_irreflexive(x);
                }
                assert(a1[n] == s);
            }
        }
        assert(a1.to_set() =~= b1.to_set());
        lemma_ascending_unique(a1, b1);
        assert(a =~= a1.push(x));
        assert(b =~= b1.push(y));
    }
}

/// A well-formed set lists its sequences in order, each once.
pub proof fn lemma_listed(s: FirstSet)
    requires
        s.wf(),
    ensures
        s.list() == listed(s@),
        s@.finite(),
        s@.len() == s.list().len(),
{
    let l = s.list();
    assert(ascending(l) && l.to_set() == s@);
    lemma_ascending_unique(l, listed(s@));
    assert(l.no_duplicates()) by {
        assert forall|i: int, j: int|
            0 <= i < l.len() && 0 <= j < l.len() && i != j implies l[i] != l[j] by {
            names::lemma_list_irreflexive(l[i]);
            if i < j {
                assert(names::list_less(l[i], l[j]));
            } else {
                assert(names::list_less(l[j], l[i]));
            }
        }
    }
    l.unique_seq_to_set();
    vstd::seq_lib::seq_to_set_is_finite(l);
}

} // verus!
