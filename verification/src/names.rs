//! The order of names and sets of names.
use vstd::prelude::*;

verus! {

/// The result of comparing two values.
#[derive(Clone, Copy, Debug, PartialEq, Eq, Structural)]
pub enum Rank {
    Before,
    Same,
    After,
}

/// `a` comes before `b` in the lexicographic order of byte strings.
pub open spec fn bytes_less(a: Seq<u8>, b: Seq<u8>) -> bool
    decreases a.len(),
{
    if b.len() == 0 {
        false
    } else if a.len() == 0 {
        true
    } else {
        a[0] < b[0] || (a[0] == b[0] && bytes_less(a.skip(1), b.skip(1)))
    }
}

/// `a` comes before `b` in the order of strings, which is that of their bytes.
pub open spec fn str_less(a: Seq<char>, b: Seq<char>) -> bool {
    bytes_less(vstd::utf8::encode_utf8(a), vstd::utf8::encode_utf8(b))
}

/// `a` comes before `b` in the lexicographic order of lists of strings.
pub open spec fn list_less(a: Seq<Seq<char>>, b: Seq<Seq<char>>) -> bool
    decreases a.len(),
{
    if b.len() == 0 {
        false
    } else if a.len() == 0 {
        true
    } else {
        str_less(a[0], b[0]) || (a[0] == b[0] && list_less(a.skip(1), b.skip(1)))
    }
}

proof fn lemma_bytes_irreflexive(a: Seq<u8>)
    ensures
        !bytes_less(a, a),
    decreases a.len(),
{
    if a.len() > 0 {
        lemma_bytes_irreflexive(a.skip(1));
    }
}

proof fn lemma_bytes_transitive(a: Seq<u8>, b: Seq<u8>, c: Seq<u8>)
    requires
        bytes_less(a, b),
        bytes_less(b, c),
    ensures
        bytes_less(a, c),
    decreases a.len(),
{
    if a.len() > 0 && a[0] == b[0] && b[0] == c[0] {
        lemma_bytes_transitive(a.skip(1), b.skip(1), c.skip(1));
    }
}

pub proof fn lemma_str_irreflexive(a: Seq<char>)
    ensures
        !str_less(a, a),
{
    lemma_bytes_irreflexive(vstd::utf8::encode_utf8(a));
}

pub proof fn lemma_str_transitive(a: Seq<char>, b: Seq<char>, c: Seq<char>)
    requires
        str_less(a, b),
        str_less(b, c),
    ensures
        str_less(a, c),
{
    lemma_bytes_transitive(
        vstd::utf8::encode_utf8(a),
        vstd::utf8::encode_utf8(b),
        vstd::utf8::encode_utf8(c),
    );
}

pub proof fn lemma_list_irreflexive(a: Seq<Seq<char>>)
    ensures
        !list_less(a, a),
    decreases a.len(),
{
    if a.len() > 0 {
        lemma_str_irreflexive(a[0]);
        lemma_list_irreflexive(a.skip(1));
    }
}

pub proof fn lemma_list_transitive(a: Seq<Seq<char>>, b: Seq<Seq<char>>, c: Seq<Seq<char>>)
    requires
        list_less(a, b),
        list_less(b, c),
    ensures
        list_less(a, c),
    decreases a.len(),
{
    if a.len() > 0 {
        if str_less(a[0], b[0]) && str_less(b[0], c[0]) {
            lemma_str_transitive(a[0], b[0], c[0]);
        }
        if a[0] == b[0] && b[0] == c[0] && !str_less(a[0], c[0]) {
            lemma_str_irreflexive(a[0]);
            lemma_list_transitive(a.skip(1), b.skip(1), c.skip(1));
        }
    }
}

/// What comparing two byte strings tells.
spec fn bytes_rank(a: Seq<u8>, b: Seq<u8>, r: Rank) -> bool {
    match r {
        Rank::Before => bytes_less(a, b),
        Rank::Same => a == b,
        Rank::After => bytes_less(b, a),
    }
}

/// A common beginning does not matter.
proof fn lemma_bytes_common(a: Seq<u8>, b: Seq<u8>, i: int, r: Rank)
    requires
        0 <= i <= a.len(),
        i <= b.len(),
        forall|k: int| 0 <= k < i ==> a[k] == b[k],
        bytes_rank(a.skip(i), b.skip(i), r),
    ensures
        bytes_rank(a, b, r),
    decreases i,
{
    if i == 0 {
        assert(a.skip(0) =~= a);
        assert(b.skip(0) =~= b);
    } else {
        let a1 = a.skip(1);
        let b1 = b.skip(1);
        assert(a1.skip(i - 1) =~= a.skip(i));
        assert(b1.skip(i - 1) =~= b.skip(i));
        lemma_bytes_common(a1, b1, i - 1, r);
        if r == Rank::Same {
            assert(a =~= seq![a[0]] + a1);
            assert(b =~= seq![b[0]] + b1);
        }
    }
}

proof fn lemma_bytes_total(a: Seq<u8>, b: Seq<u8>)
    ensures
        a == b || bytes_less(a, b) || bytes_less(b, a),
    decreases a.len(),
{
    if a.len() > 0 && b.len() > 0 {
        lemma_bytes_total(a.skip(1), b.skip(1));
        if a[0] == b[0] && a.skip(1) == b.skip(1) {
            lemma_bytes_common(a, b, 1, Rank::Same);
        }
    } else if a.len() == 0 && b.len() == 0 {
        assert(a =~= b);
    }
}

/// Of two lists of strings that are not the same, one comes first.
pub proof fn lemma_list_total(a: Seq<Seq<char>>, b: Seq<Seq<char>>)
    ensures
        a == b || list_less(a, b) || list_less(b, a),
    decreases a.len(),
{
    if a.len() > 0 && b.len() > 0 {
        lemma_bytes_total(vstd::utf8::encode_utf8(a[0]), vstd::utf8::encode_utf8(b[0]));
        vstd::utf8::encode_utf8_decode_utf8(a[0]);
        vstd::utf8::encode_utf8_decode_utf8(b[0]);
        lemma_list_total(a.skip(1), b.skip(1));
        if a[0] == b[0] && a.skip(1) == b.skip(1) {
            assert(a =~= seq![a[0]] + a.skip(1));
            assert(b =~= seq![b[0]] + b.skip(1));
        }
    } else if a.len() == 0 && b.len() == 0 {
        assert(a =~= b);
    }
}

/// Compares two strings.
pub fn rank_str(a: &str, b: &str) -> (r: Rank)
    ensures
        r == Rank::Before <==> str_less(a@, b@),
        r == Rank::Same <==> a@ == b@,
        r == Rank::After <==> str_less(b@, a@),
{
    let x = a.as_bytes();
    let y = b.as_bytes();
    let mut i: usize = 0;
    while i < x.len() && i < y.len() && x[i] == y[i]
        invariant
            i <= x@.len(),
            i <= y@.len(),
            forall|k: int| 0 <= k < i ==> x@[k] == y@[k],
        decreases x@.len() - i,
    {
        i += 1;
    }
    let r = if i == x.len() && i == y.len() {
        Rank::Same
    } else if i == x.len() {
        Rank::Before
    } else if i == y.len() {
        Rank::After
    } else if x[i] < y[i] {
        Rank::Before
    } else {
        Rank::After
    };
    proof {
        let (p, q) = (x@, y@);
        if r == Rank::Same {
            assert(p.skip(i as int) =~= q.skip(i as int));
        }
        lemma_bytes_common(p, q, i as int, r);
        lemma_bytes_irreflexive(p);
        if bytes_less(p, q) && bytes_less(q, p) {
            lemma_bytes_transitive(p, q, p);
        }
        vstd::utf8::encode_utf8_decode_utf8(a@);
        vstd::utf8::encode_utf8_decode_utf8(b@);
    }
    r
}

/// Compares two lists of strings.
pub fn rank_list(a: &Vec<String>, b: &Vec<String>) -> (r: Rank)
    ensures
        r == Rank::Before <==> list_less(list_view(a@), list_view(b@)),
        r == Rank::Same <==> list_view(a@) == list_view(b@),
        r == Rank::After <==> list_less(list_view(b@), list_view(a@)),
{
    let ghost (p, q) = (list_view(a@), list_view(b@));
    let mut i: usize = 0;
    let mut r = Rank::Same;
    while r == Rank::Same && i < a.len() && i < b.len()
        invariant
            p == list_view(a@),
            q == list_view(b@),
            i <= a@.len(),
            i <= b@.len(),
            forall|k: int| 0 <= k < i ==> p[k] == q[k],
            r != Rank::Same ==> i < a@.len() && i < b@.len(),
            r == Rank::Before ==> str_less(p[i as int], q[i as int]),
            r == Rank::After ==> str_less(q[i as int], p[i as int]),
        decreases a@.len() - i, (if r == Rank::Same { 1int } else { 0int }),
    {
        r = rank_str(a[i].as_str(), b[i].as_str());
        if r == Rank::Same {
            i += 1;
        }
    }
    if r == Rank::Same {
        if i < b.len() {
            r = Rank::Before;
        } else if i < a.len() {
            r = Rank::After;
        }
    }
    proof {
        lemma_list_common(p, q, i as int);
        lemma_list_irreflexive(p);
        lemma_list_irreflexive(q);
        if r == Rank::Same {
            assert(p =~= q);
        } else {
            if r == Rank::Before {
                assert(list_less(p.skip(i as int), q.skip(i as int)));
            } else {
                assert(list_less(q.skip(i as int), p.skip(i as int)));
            }
            if list_less(p, q) && list_less(q, p) {
                lemma_list_transitive(p, q, p);
            }
        }
    }
    r
}

/// The views of a list of names.
pub open spec fn list_view(v: Seq<String>) -> Seq<Seq<char>> {
    Seq::new(v.len(), |i: int| v[i]@)
}

proof fn lemma_list_common(a: Seq<Seq<char>>, b: Seq<Seq<char>>, i: int)
    requires
        0 <= i <= a.len(),
        i <= b.len(),
        forall|k: int| 0 <= k < i ==> a[k] == b[k],
    ensures
        list_less(a.skip(i), b.skip(i)) ==> list_less(a, b),
        list_less(b.skip(i), a.skip(i)) ==> list_less(b, a),
    decreases i,
{
    if i == 0 {
        assert(a.skip(0) =~= a);
        assert(b.skip(0) =~= b);
    } else {
        let a1 = a.skip(1);
        let b1 = b.skip(1);
        assert(a1.skip(i - 1) =~= a.skip(i));
        assert(b1.skip(i - 1) =~= b.skip(i));
        lemma_list_common(a1, b1, i - 1);
    }
}

/// A set of names in ascending order.
#[derive(Debug, PartialEq, Eq)]
pub struct NameSet {
    names: Vec<String>,
}

impl NameSet {
    /// The names in order.
    pub closed spec fn list(self) -> Seq<Seq<char>> {
        list_view(self.names@)
    }

    /// The names.
    pub open spec fn view(self) -> Set<Seq<char>> {
        self.list().to_set()
    }

    /// The names are in strictly ascending order.
    pub open spec fn wf(self) -> bool {
        forall|i: int, j: int|
            0 <= i < j < self.list().len() ==> str_less(
                #[trigger] self.list()[i],
                #[trigger] self.list()[j],
            )
    }

    /// The empty set.
    pub fn new() -> (r: Self)
        ensures
            r.wf(),
            r@ == Set::<Seq<char>>::empty(),
            r.list().len() == 0,
    {
        let r = NameSet { names: Vec::new() };
        assert(r@ =~= Set::<Seq<char>>::empty());
        r
    }

    /// The number of names.
    pub fn len(&self) -> (n: usize)
        ensures
            n == self.list().len(),
    {
        self.names.len()
    }

    /// The name at position `i` of the order.
    pub fn get(&self, i: usize) -> (r: &String)
        requires
            i < self.list().len(),
        ensures
            r@ == self.list()[i as int],
            self@.contains(r@),
    {
        assert(self.list().contains(self.list()[i as int]));
        &self.names[i]
    }

    /// True iff the set holds `name`.
    pub fn contains(&self, name: &str) -> (r: bool)
        ensures
            r == self@.contains(name@),
    {
        let mut i: usize = 0;
        while i < self.names.len()
            invariant
                i <= self.names@.len(),
                forall|k: int| 0 <= k < i ==> #[trigger] self.list()[k] != name@,
            decreases self.names@.len() - i,
        {
            if rank_str(self.names[i].as_str(), name) == Rank::Same {
                assert(self.list()[i as int] == name@);
                assert(self.list().contains(name@));
                return true;
            }
            assert(self.list()[i as int] != name@);
            i += 1;
        }
        assert(!self.list().contains(name@));
        false
    }

    /// Adds `name`; true if it was not there.
    pub fn insert(&mut self, name: &str) -> (fresh: bool)
        requires
            old(self).wf(),
        ensures
            final(self).wf(),
            final(self)@ == old(self)@.insert(name@),
            fresh == !old(self)@.contains(name@),
            final(self).list().len() == old(self).list().len() + if fresh { 1int } else { 0 },
    {
        let ghost before = self.list();
        let mut at: usize = 0;
        let mut r = Rank::Before;
        while at < self.names.len() && r == Rank::Before
            invariant
                self.list() == before,
                at <= self.names@.len(),
                before.len() == self.names@.len(),
                forall|k: int| 0 <= k < at ==> str_less(#[trigger] before[k], name@),
                r == Rank::Same ==> at < before.len() && before[at as int] == name@,
                r == Rank::After ==> at < before.len() && str_less(name@, before[at as int]),
            decreases self.names@.len() - at, (if r == Rank::Before { 1int } else { 0int }),
        {
            r = rank_str(self.names[at].as_str(), name);
            assert(before[at as int] == self.names@[at as int]@);
            if r == Rank::Before {
                at += 1;
            }
        }
        if r == Rank::Same {
            assert(before[at as int] == name@);
            assert(before.contains(name@));
            assert(self@ =~= self@.insert(name@));
            return false;
        }
        let owned = name.to_owned();
        self.names.insert(at, owned);
        proof {
            let after = self.list();
            assert(after =~= before.insert(at as int, name@));
            lemma_insert_sorted(before, at as int, name@);
            assert(self@ =~= old(self)@.insert(name@)) by {
                assert forall|x: Seq<char>| after.contains(x) <==> before.contains(x) || x
                    == name@ by {
                    lemma_insert_contains(before, at as int, name@, x);
                }
            }
        }
        true
    }
}

impl Clone for NameSet {
    fn clone(&self) -> (r: Self)
        ensures
            r.list() == self.list(),
    {
        let mut names: Vec<String> = Vec::new();
        let mut i: usize = 0;
        while i < self.names.len()
            invariant
                i <= self.names@.len(),
                names@.len() == i,
                forall|k: int| 0 <= k < i ==> (#[trigger] names@[k])@ == self.names@[k]@,
            decreases self.names@.len() - i,
        {
            names.push(self.names[i].clone());
            i += 1;
        }
        let r = NameSet { names };
        assert(r.list() =~= self.list());
        r
    }
}

impl Default for NameSet {
    fn default() -> (r: Self)
        ensures
            r.wf(),
            r@ == Set::<Seq<char>>::empty(),
    {
        NameSet::new()
    }
}

proof fn lemma_insert_sorted(s: Seq<Seq<char>>, at: int, x: Seq<char>)
    requires
        0 <= at <= s.len(),
        forall|i: int, j: int| 0 <= i < j < s.len() ==> str_less(#[trigger] s[i], #[trigger] s[j]),
        forall|k: int| 0 <= k < at ==> str_less(#[trigger] s[k], x),
        at < s.len() ==> str_less(x, s[at]),
    ensures
        !s.contains(x),
        forall|i: int, j: int|
            0 <= i < j < s.len() + 1 ==> str_less(
                #[trigger] s.insert(at, x)[i],
                #[trigger] s.insert(at, x)[j],
            ),
{
    let t = s.insert(at, x);
    assert forall|k: int| at <= k < s.len() implies str_less(x, #[trigger] s[k]) by {
        if k > at {
            lemma_str_transitive(x, s[at], s[k]);
        }
    }
    assert forall|i: int, j: int| 0 <= i < j < s.len() + 1 implies str_less(
        #[trigger] t[i],
        #[trigger] t[j],
    ) by {
        if j < at {
            assert(t[i] == s[i] && t[j] == s[j]);
        } else if j == at {
            assert(t[i] == s[i] && t[j] == x);
        } else if i < at {
            assert(t[i] == s[i] && t[j] == s[j - 1]);
        } else if i == at {
            assert(t[i] == x && t[j] == s[j - 1]);
        } else {
            assert(t[i] == s[i - 1] && t[j] == s[j - 1]);
        }
    }
    if s.contains(x) {
        let k = choose|k: int| 0 <= k < s.len() && s[k] == x;
        lemma_str_irreflexive(x);
    }
}

/// Inserting into a list adds one element.
pub proof fn lemma_insert_contains<A>(s: Seq<A>, at: int, x: A, y: A)
    requires
        0 <= at <= s.len(),
    ensures
        s.insert(at, x).contains(y) <==> s.contains(y) || y == x,
{
    let t = s.insert(at, x);
    if s.contains(y) {
        let k = choose|k: int| 0 <= k < s.len() && s[k] == y;
        if k < at {
            assert(t[k] == y);
        } else {
            assert(t[k + 1] == y);
        }
    }
    assert(t[at] == x);
    if t.contains(y) {
        let k = choose|k: int| 0 <= k < t.len() && t[k] == y;
        if k < at {
            assert(s[k] == y);
        } else if k > at {
            assert(s[k - 1] == y);
        }
    }
}

/// The list with `x` put behind the names that are not after it, where the
/// list is in ascending order.
pub open spec fn sorted_insert(l: Seq<Seq<char>>, x: Seq<char>) -> Seq<Seq<char>>
    decreases l.len(),
{
    if l.len() == 0 || !str_less(x, l.last()) {
        l.push(x)
    } else {
        sorted_insert(l.drop_last(), x).push(l.last())
    }
}

/// The names of the list in ascending order, each as often as it occurs.
pub open spec fn sorted(l: Seq<Seq<char>>) -> Seq<Seq<char>>
    decreases l.len(),
{
    if l.len() == 0 {
        l
    } else {
        sorted_insert(sorted(l.drop_last()), l.last())
    }
}

proof fn lemma_sorted_insert_at(l: Seq<Seq<char>>, x: Seq<char>, pos: int)
    requires
        0 <= pos <= l.len(),
        pos > 0 ==> !str_less(x, l[pos - 1]),
        forall|k: int| pos <= k < l.len() ==> str_less(x, #[trigger] l[k]),
    ensures
        sorted_insert(l, x) == l.insert(pos, x),
    decreases l.len(),
{
    if pos == l.len() {
        assert(l.insert(pos, x) =~= l.push(x));
    } else {
        lemma_sorted_insert_at(l.drop_last(), x, pos);
        assert(l.insert(pos, x) =~= l.drop_last().insert(pos, x).push(l.last()));
    }
}

/// The names in ascending order, each as often as it occurs.
pub fn sort_names(v: &Vec<String>) -> (r: Vec<String>)
    ensures
        list_view(r@) == sorted(list_view(v@)),
{
    let ghost all = list_view(v@);
    let mut r: Vec<String> = Vec::new();
    let mut i: usize = 0;
    assert(all.take(0) =~= Seq::<Seq<char>>::empty());
    assert(list_view(r@) =~= sorted(all.take(0)));
    while i < v.len()
        invariant
            i <= v@.len(),
            all == list_view(v@),
            list_view(r@) == sorted(all.take(i as int)),
        decreases v@.len() - i,
    {
        let ghost before = list_view(r@);
        let ghost x = all[i as int];
        let mut pos: usize = r.len();
        while pos > 0 && rank_str(v[i].as_str(), r[pos - 1].as_str()) == Rank::Before
            invariant
                i < v@.len(),
                pos <= r@.len(),
                before == list_view(r@),
                x == v@[i as int]@,
                forall|k: int| pos <= k < r@.len() ==> str_less(x, #[trigger] before[k]),
            decreases pos,
        {
            pos -= 1;
        }
        r.insert(pos, v[i].clone());
        proof {
            if pos > 0 {
                if str_less(x, before[pos - 1]) {
                    lemma_str_irreflexive(x);
                    if str_less(before[pos - 1], x) {
                        lemma_str_transitive(x, before[pos - 1], x);
                    }
                }
            }
            lemma_sorted_insert_at(before, x, pos as int);
            assert(list_view(r@) =~= before.insert(pos as int, x));
            assert(all.take(i + 1).drop_last() =~= all.take(i as int));
        }
        i += 1;
    }
    assert(all.take(i as int) =~= all);
    r
}

/// The two differ first at position `i`, where `a` has the smaller byte or has
/// ended.
pub open spec fn differs_at(a: Seq<u8>, b: Seq<u8>, i: int) -> bool {
    &&& 0 <= i <= a.len()
    &&& i < b.len()
    &&& a.take(i) == b.take(i)
    &&& i < a.len() ==> a[i] < b[i]
}

/// One string of bytes comes before another if and only if it has the smaller
/// byte where they first differ, or is the beginning of the other.
pub proof fn law_bytes_are_ordered_by_their_first_difference(a: Seq<u8>, b: Seq<u8>)
    ensures
        bytes_less(a, b) <==> exists|i: int| #[trigger] differs_at(a, b, i),
    decreases a.len(),
{
    if b.len() > 0 && a.len() > 0 {
        let (p, q) = (a.skip(1), b.skip(1));
        law_bytes_are_ordered_by_their_first_difference(p, q);
        if a[0] < b[0] {
            assert(a.take(0) =~= b.take(0));
            assert(differs_at(a, b, 0));
        }
        if a[0] == b[0] && bytes_less(p, q) {
            let i = choose|i: int| #[trigger] differs_at(p, q, i);
            assert(a.take(i + 1) =~= seq![a[0]] + p.take(i));
            assert(b.take(i + 1) =~= seq![b[0]] + q.take(i));
            assert(differs_at(a, b, i + 1));
        }
        if exists|i: int| #[trigger] differs_at(a, b, i) {
            let i = choose|i: int| #[trigger] differs_at(a, b, i);
            if i > 0 {
                assert(a.take(i)[0] == b.take(i)[0]);
                assert(p.take(i - 1) =~= a.take(i).skip(1));
                assert(q.take(i - 1) =~= b.take(i).skip(1));
                assert(differs_at(p, q, i - 1));
            }
        }
    } else if b.len() > 0 {
        assert(a.take(0) =~= b.take(0));
        assert(differs_at(a, b, 0));
    }
}

/// No name comes before one that stands in front of it.
pub open spec fn in_order(l: Seq<Seq<char>>) -> bool {
    forall|i: int, j: int| 0 <= i < j < l.len() ==> !str_less(#[trigger] l[j], #[trigger] l[i])
}

proof fn lemma_sorted_insert(l: Seq<Seq<char>>, x: Seq<char>)
    requires
        in_order(l),
    ensures
        in_order(sorted_insert(l, x)),
        sorted_insert(l, x).to_multiset() == l.to_multiset().insert(x),
        forall|y: Seq<char>| #[trigger]
            sorted_insert(l, x).contains(y) ==> y == x || l.contains(y),
    decreases l.len(),
{
    let r = sorted_insert(l, x);
    broadcast use vstd::seq_lib::group_to_multiset_ensures;

    if l.len() == 0 || !str_less(x, l.last()) {
        assert forall|i: int, j: int| 0 <= i < j < r.len() implies !str_less(
            #[trigger] r[j],
            #[trigger] r[i],
        ) by {
            if j < l.len() {
                assert(!str_less(l[j], l[i]));
            } else if str_less(x, l[i]) {
                let last = l.last();
                if i < l.len() - 1 {
                    assert(!str_less(l[l.len() - 1], l[i]));
                    lemma_bytes_total(
                        vstd::utf8::encode_utf8(last),
                        vstd::utf8::encode_utf8(l[i]),
                    );
                    if str_less(l[i], last) {
                        lemma_str_transitive(x, l[i], last);
                    }
                }
            }
        }
    } else {
        let p = l.drop_last();
        let last = l.last();
        assert forall|i: int, j: int| 0 <= i < j < p.len() implies !str_less(
            #[trigger] p[j],
            #[trigger] p[i],
        ) by {
            assert(!str_less(l[j], l[i]));
        }
        lemma_sorted_insert(p, x);
        let q = sorted_insert(p, x);
        assert(l =~= p.push(last));
        assert(r.to_multiset() =~= l.to_multiset().insert(x));
        assert forall|y: Seq<char>| #[trigger] q.contains(y) implies !str_less(last, y) by {
            if y == x {
                if str_less(last, x) {
                    lemma_str_transitive(x, last, x);
                    lemma_str_irreflexive(x);
                }
            } else {
                let k = choose|k: int| 0 <= k < p.len() && p[k] == y;
                assert(!str_less(l[l.len() - 1], l[k]));
            }
        }
        assert forall|i: int, j: int| 0 <= i < j < r.len() implies !str_less(
            #[trigger] r[j],
            #[trigger] r[i],
        ) by {
            if j < q.len() {
                assert(!str_less(q[j], q[i]));
            } else {
                assert(q.contains(q[i]));
            }
        }
        assert forall|y: Seq<char>| #[trigger] r.contains(y) implies y == x || l.contains(y) by {
            let k = choose|k: int| 0 <= k < r.len() && r[k] == y;
            if k < q.len() {
                assert(q.contains(y));
                if y != x {
                    let m = choose|m: int| 0 <= m < p.len() && p[m] == y;
                    assert(l[m] == y);
                }
            } else {
                assert(l[l.len() - 1] == y);
            }
        }
    }
}

/// Sorting leaves each name as often as it was, and none in front of one that it
/// comes behind.
pub proof fn law_sorting_orders_the_names(l: Seq<Seq<char>>)
    ensures
        in_order(sorted(l)),
        sorted(l).to_multiset() == l.to_multiset(),
    decreases l.len(),
{
    broadcast use vstd::seq_lib::group_to_multiset_ensures;

    if l.len() > 0 {
        law_sorting_orders_the_names(l.drop_last());
        lemma_sorted_insert(sorted(l.drop_last()), l.last());
        assert(l =~= l.drop_last().push(l.last()));
    }
}

} // verus!
