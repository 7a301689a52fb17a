//! Lists kept in ascending order, each element once.
use vstd::prelude::*;

use crate::names::Rank;

verus! {

/// The list, ascending by `less`, with `x` in its place; the list itself if it
/// has `x` already.
pub open spec fn put_by<A>(l: Seq<A>, x: A, less: spec_fn(A, A) -> bool) -> Seq<A>
    decreases l.len(),
{
    if l.len() == 0 || less(l.last(), x) {
        l.push(x)
    } else if l.last() == x {
        l
    } else {
        put_by(l.drop_last(), x, less).push(l.last())
    }
}

/// The elements of the list in ascending order, each once.
pub open spec fn set_by<A>(l: Seq<A>, less: spec_fn(A, A) -> bool) -> Seq<A>
    decreases l.len(),
{
    if l.len() == 0 {
        l
    } else {
        put_by(set_by(l.drop_last(), less), l.last(), less)
    }
}

/// `less` is a strict total order.
pub open spec fn total_order<A>(less: spec_fn(A, A) -> bool) -> bool {
    &&& forall|a: A| !#[trigger] less(a, a)
    &&& forall|a: A, b: A, c: A| #[trigger] less(a, b) && #[trigger] less(b, c) ==> less(a, c)
    &&& forall|a: A, b: A| a == b || #[trigger] less(a, b) || less(b, a)
}

/// The list is in strictly ascending order.
pub open spec fn ascending_by<A>(l: Seq<A>, less: spec_fn(A, A) -> bool) -> bool {
    forall|i: int, j: int| 0 <= i < j < l.len() ==> less(#[trigger] l[i], #[trigger] l[j])
}

proof fn lemma_put_by<A>(l: Seq<A>, x: A, less: spec_fn(A, A) -> bool)
    requires
        total_order(less),
        ascending_by(l, less),
    ensures
        ascending_by(put_by(l, x, less), less),
        forall|y: A| #[trigger] put_by(l, x, less).contains(y) <==> l.contains(y) || y == x,
    decreases l.len(),
{
    let r = put_by(l, x, less);
    if l.len() == 0 || less(l.last(), x) {
        assert forall|i: int, j: int| 0 <= i < j < r.len() implies less(
            #[trigger] r[i],
            #[trigger] r[j],
        ) by {
            if j == l.len() {
                if i < l.len() - 1 {
                    assert(less(l[i], l[l.len() - 1]));
                }
            } else {
                assert(less(l[i], l[j]));
            }
        }
        assert forall|y: A| #[trigger] r.contains(y) <==> l.contains(y) || y == x by {
            if l.contains(y) {
                let i = choose|i: int| 0 <= i < l.len() && l[i] == y;
                assert(r[i] == y);
            }
            assert(r[l.len() as int] == x);
        }
    } else if l.last() == x {
        assert(l.contains(l[l.len() - 1]));
    } else {
        let p = l.drop_last();
        let q = put_by(p, x, less);
        assert forall|i: int, j: int| 0 <= i < j < p.len() implies less(
            #[trigger] p[i],
            #[trigger] p[j],
        ) by {
            assert(less(l[i], l[j]));
        }
        lemma_put_by(p, x, less);
        assert(less(x, l.last()));
        assert forall|y: A| #[trigger] r.contains(y) <==> l.contains(y) || y == x by {
            assert(r[q.len() as int] == l.last());
            if l.contains(y) {
                let i = choose|i: int| 0 <= i < l.len() && l[i] == y;
                if i < p.len() {
                    assert(p[i] == y);
                    assert(q.contains(y));
                    let j = choose|j: int| 0 <= j < q.len() && q[j] == y;
                    assert(r[j] == y);
                }
            }
            if y == x {
                assert(q.contains(y));
                let j = choose|j: int| 0 <= j < q.len() && q[j] == y;
                assert(r[j] == y);
            }
            if r.contains(y) {
                let i = choose|i: int| 0 <= i < r.len() && r[i] == y;
                if i < q.len() {
                    assert(q[i] == y);
                    assert(q.contains(y));
                    if p.contains(y) {
                        let j = choose|j: int| 0 <= j < p.len() && p[j] == y;
                        assert(l[j] == y);
                    }
                } else {
                    assert(l[l.len() - 1] == y);
                }
            }
        }
        assert forall|i: int, j: int| 0 <= i < j < r.len() implies less(
            #[trigger] r[i],
            #[trigger] r[j],
        ) by {
            if j < q.len() {
                assert(less(q[i], q[j]));
            } else {
                assert(q.contains(q[i]));
                if q[i] != x {
                    assert(p.contains(q[i]));
                    let m = choose|m: int| 0 <= m < p.len() && p[m] == q[i];
                    assert(less(l[m], l[l.len() - 1]));
                }
            }
        }
    }
}

/// Sorting keeps the elements and puts them in ascending order.
pub proof fn lemma_set_by<A>(l: Seq<A>, less: spec_fn(A, A) -> bool)
    requires
        total_order(less),
    ensures
        ascending_by(set_by(l, less), less),
        forall|y: A| #[trigger] set_by(l, less).contains(y) <==> l.contains(y),
    decreases l.len(),
{
    if l.len() > 0 {
        let p = l.drop_last();
        lemma_set_by(p, less);
        lemma_put_by(set_by(p, less), l.last(), less);
        assert forall|y: A| #[trigger] set_by(l, less).contains(y) <==> l.contains(y) by {
            if p.contains(y) {
                let i = choose|i: int| 0 <= i < p.len() && p[i] == y;
                assert(l[i] == y);
            }
            if l.contains(y) {
                let i = choose|i: int| 0 <= i < l.len() && l[i] == y;
                if i < p.len() {
                    assert(p[i] == y);
                }
            }
            assert(l[l.len() - 1] == l.last());
        }
    }
}

proof fn lemma_put_at<A>(l: Seq<A>, x: A, less: spec_fn(A, A) -> bool, pos: int)
    requires
        0 <= pos <= l.len(),
        pos > 0 ==> less(l[pos - 1], x),
        forall|k: int| pos <= k < l.len() ==> !less(#[trigger] l[k], x) && l[k] != x,
    ensures
        put_by(l, x, less) == l.insert(pos, x),
    decreases l.len(),
{
    if pos == l.len() {
        assert(l.insert(pos, x) =~= l.push(x));
    } else {
        assert(!less(l[l.len() - 1], x));
        lemma_put_at(l.drop_last(), x, less, pos);
        assert(l.insert(pos, x) =~= l.drop_last().insert(pos, x).push(l.last()));
    }
}

proof fn lemma_put_same<A>(l: Seq<A>, x: A, less: spec_fn(A, A) -> bool, pos: int)
    requires
        0 <= pos < l.len(),
        l[pos] == x,
        !less(x, x),
        forall|k: int| pos < k < l.len() ==> !less(#[trigger] l[k], x) && l[k] != x,
    ensures
        put_by(l, x, less) == l,
    decreases l.len(),
{
    if pos < l.len() - 1 {
        assert(!less(l[l.len() - 1], x));
        lemma_put_same(l.drop_last(), x, less, pos);
        assert(l =~= l.drop_last().push(l.last()));
    }
}

/// The order of token kinds.
pub open spec fn kind_order() -> spec_fn(u16, u16) -> bool {
    |a: u16, b: u16| a < b
}

/// The kinds of the list in ascending order, each once.
pub open spec fn kind_set(l: Seq<u16>) -> Seq<u16> {
    set_by(l, kind_order())
}

/// The kinds of a sorted list are those of the list, in ascending order.
pub proof fn lemma_kind_set(l: Seq<u16>)
    ensures
        forall|i: int, j: int| 0 <= i < j < kind_set(l).len() ==> kind_set(l)[i] < kind_set(l)[j],
        forall|y: u16| #[trigger] kind_set(l).contains(y) <==> l.contains(y),
{
    let less = kind_order();
    assert(total_order(less));
    lemma_set_by(l, less);
    assert forall|i: int, j: int| 0 <= i < j < kind_set(l).len() implies kind_set(l)[i]
        < kind_set(l)[j] by {
        assert(less(kind_set(l)[i], kind_set(l)[j]));
    }
}

/// Puts the kind in its place, unless it is there.
pub fn put_kind(v: &mut Vec<u16>, x: u16)
    ensures
        final(v)@ == put_by(old(v)@, x, kind_order()),
{
    let ghost before = v@;
    let ghost less = kind_order();
    let mut pos: usize = v.len();
    while pos > 0 && v[pos - 1] > x
        invariant
            pos <= v@.len(),
            v@ == before,
            forall|k: int| pos <= k < before.len() ==> #[trigger] before[k] > x,
        decreases pos,
    {
        pos -= 1;
    }
    if pos > 0 && v[pos - 1] == x {
        proof {
            lemma_put_same(before, x, less, pos - 1);
        }
        return;
    }
    v.insert(pos, x);
    proof {
        lemma_put_at(before, x, less, pos as int);
    }
}

/// Sorts the kinds and drops repetitions.
pub fn sort_kinds(v: &Vec<u16>) -> (r: Vec<u16>)
    ensures
        r@ == kind_set(v@),
{
    let mut r: Vec<u16> = Vec::new();
    let mut i: usize = 0;
    assert(v@.take(0) =~= Seq::<u16>::empty());
    while i < v.len()
        invariant
            i <= v@.len(),
            r@ == kind_set(v@.take(i as int)),
        decreases v@.len() - i,
    {
        put_kind(&mut r, v[i]);
        assert(v@.take(i + 1).drop_last() =~= v@.take(i as int));
        i += 1;
    }
    assert(v@.take(i as int) =~= v@);
    r
}

/// `a` comes before `b` in the lexicographic order.
pub open spec fn seq_less<A>(a: Seq<A>, b: Seq<A>, less: spec_fn(A, A) -> bool) -> bool
    decreases a.len(),
{
    if b.len() == 0 {
        false
    } else if a.len() == 0 {
        true
    } else {
        less(a[0], b[0]) || (a[0] == b[0] && seq_less(a.skip(1), b.skip(1), less))
    }
}

/// The order of lookahead sequences.
pub open spec fn seq_order() -> spec_fn(Seq<u16>, Seq<u16>) -> bool {
    |a: Seq<u16>, b: Seq<u16>| seq_less(a, b, kind_order())
}

/// The sequences of the list in ascending order, each once.
pub open spec fn seq_set(l: Seq<Seq<u16>>) -> Seq<Seq<u16>> {
    set_by(l, seq_order())
}

/// The order of positions.
pub open spec fn index_order() -> spec_fn(usize, usize) -> bool {
    |a: usize, b: usize| a < b
}

/// The order of lists of positions.
pub open spec fn indices_order() -> spec_fn(Seq<usize>, Seq<usize>) -> bool {
    |a: Seq<usize>, b: Seq<usize>| seq_less(a, b, index_order())
}

proof fn lemma_seq_irreflexive<A>(a: Seq<A>, less: spec_fn(A, A) -> bool)
    requires
        total_order(less),
    ensures
        !seq_less(a, a, less),
    decreases a.len(),
{
    if a.len() > 0 {
        lemma_seq_irreflexive(a.skip(1), less);
        assert(!less(a[0], a[0]));
    }
}

proof fn lemma_seq_transitive<A>(a: Seq<A>, b: Seq<A>, c: Seq<A>, less: spec_fn(A, A) -> bool)
    requires
        total_order(less),
        seq_less(a, b, less),
        seq_less(b, c, less),
    ensures
        seq_less(a, c, less),
    decreases a.len(),
{
    if a.len() > 0 {
        if less(a[0], b[0]) && less(b[0], c[0]) {
            assert(less(a[0], c[0]));
        }
        if a[0] == b[0] && b[0] == c[0] && !less(a[0], c[0]) {
            lemma_seq_transitive(a.skip(1), b.skip(1), c.skip(1), less);
        }
    }
}

proof fn lemma_seq_total<A>(a: Seq<A>, b: Seq<A>, less: spec_fn(A, A) -> bool)
    requires
        total_order(less),
    ensures
        a == b || seq_less(a, b, less) || seq_less(b, a, less),
    decreases a.len(),
{
    if a.len() > 0 && b.len() > 0 {
        assert(a[0] == b[0] || less(a[0], b[0]) || less(b[0], a[0]));
        if a[0] == b[0] {
            lemma_seq_total(a.skip(1), b.skip(1), less);
            if a.skip(1) == b.skip(1) {
                assert(a =~= b) by {
                    assert(a.len() - 1 == a.skip(1).len());
                    assert(b.len() - 1 == b.skip(1).len());
                    assert forall|i: int| 0 <= i < a.len() implies a[i] == b[i] by {
                        if i > 0 {
                            assert(a.skip(1)[i - 1] == b.skip(1)[i - 1]);
                        }
                    }
                }
            }
        }
    } else if a.len() == 0 && b.len() == 0 {
        assert(a =~= b);
    }
}

/// The sequences in a sorted list are those of the list.
pub proof fn lemma_seq_set(l: Seq<Seq<u16>>)
    ensures
        forall|y: Seq<u16>| #[trigger] seq_set(l).contains(y) <==> l.contains(y),
{
    let less = seq_order();
    let base = kind_order();
    assert(total_order(base));
    assert(total_order(less)) by {
        assert forall|a: Seq<u16>| !#[trigger] less(a, a) by {
            lemma_seq_irreflexive(a, base);
        }
        assert forall|a: Seq<u16>, b: Seq<u16>, c: Seq<u16>| #[trigger]
            less(a, b) && #[trigger] less(b, c) implies less(a, c) by {
            lemma_seq_transitive(a, b, c, base);
        }
        assert forall|a: Seq<u16>, b: Seq<u16>| a == b || #[trigger] less(a, b) || less(b, a) by {
            lemma_seq_total(a, b, base);
        }
    }
    lemma_set_by(l, less);
}

/// The lists of positions in a sorted list are those of the list.
pub proof fn lemma_indices_set(l: Seq<Seq<usize>>)
    ensures
        ascending_by(set_by(l, indices_order()), indices_order()),
        forall|y: Seq<usize>| #[trigger] set_by(l, indices_order()).contains(y) <==> l.contains(y),
        total_order(indices_order()),
{
    let less = indices_order();
    let base = index_order();
    assert(total_order(base));
    assert(total_order(less)) by {
        assert forall|a: Seq<usize>| !#[trigger] less(a, a) by {
            lemma_seq_irreflexive(a, base);
        }
        assert forall|a: Seq<usize>, b: Seq<usize>, c: Seq<usize>| #[trigger]
            less(a, b) && #[trigger] less(b, c) implies less(a, c) by {
            lemma_seq_transitive(a, b, c, base);
        }
        assert forall|a: Seq<usize>, b: Seq<usize>| a == b || #[trigger] less(a, b) || less(b, a) by {
            lemma_seq_total(a, b, base);
        }
    }
    lemma_set_by(l, less);
}

proof fn lemma_seq_common<A>(a: Seq<A>, b: Seq<A>, i: int, less: spec_fn(A, A) -> bool)
    requires
        0 <= i <= a.len(),
        i <= b.len(),
        forall|k: int| 0 <= k < i ==> a[k] == b[k],
    ensures
        seq_less(a.skip(i), b.skip(i), less) ==> seq_less(a, b, less),
        seq_less(b.skip(i), a.skip(i), less) ==> seq_less(b, a, less),
    decreases i,
{
    if i == 0 {
        assert(a.skip(0) =~= a);
        assert(b.skip(0) =~= b);
    } else {
        let a1 = a.skip(1);
        let b1 = b.skip(1);
        assert(a1.skip(i - 1) =~= a.skip(i));
        assert(b1.skip(i - 1) =~= b.skip(i));
        lemma_seq_common(a1, b1, i - 1, less);
    }
}

/// What two lists that agree up to position `i` compare to.
proof fn lemma_rank<A>(p: Seq<A>, q: Seq<A>, i: int, r: Rank, less: spec_fn(A, A) -> bool)
    requires
        total_order(less),
        0 <= i <= p.len(),
        i <= q.len(),
        forall|k: int| 0 <= k < i ==> p[k] == q[k],
        r == Rank::Same ==> i == p.len() && i == q.len(),
        r == Rank::Before ==> i < q.len() && (i == p.len() || less(p[i], q[i])),
        r == Rank::After ==> i < p.len() && (i == q.len() || less(q[i], p[i])),
    ensures
        r == Rank::Before <==> seq_less(p, q, less),
        r == Rank::Same <==> p == q,
        r == Rank::After <==> seq_less(q, p, less),
{
    lemma_seq_common(p, q, i, less);
    lemma_seq_irreflexive(p, less);
    lemma_seq_irreflexive(q, less);
    if r == Rank::Same {
        assert(p =~= q);
    } else {
        if r == Rank::Before {
            assert(seq_less(p.skip(i), q.skip(i), less));
        } else {
            assert(seq_less(q.skip(i), p.skip(i), less));
        }
        if seq_less(p, q, less) && seq_less(q, p, less) {
            lemma_seq_transitive(p, q, p, less);
        }
    }
}

/// Compares two lookahead sequences.
pub fn rank_seq(a: &Vec<u16>, b: &Vec<u16>) -> (r: Rank)
    ensures
        r == Rank::Before <==> seq_less(a@, b@, kind_order()),
        r == Rank::Same <==> a@ == b@,
        r == Rank::After <==> seq_less(b@, a@, kind_order()),
{
    let ghost less = kind_order();
    let mut i: usize = 0;
    while i < a.len() && i < b.len() && a[i] == b[i]
        invariant
            i <= a@.len(),
            i <= b@.len(),
            forall|k: int| 0 <= k < i ==> a@[k] == b@[k],
        decreases a@.len() - i,
    {
        i += 1;
    }
    let r = if i < a.len() && i < b.len() {
        if a[i] < b[i] {
            Rank::Before
        } else {
            Rank::After
        }
    } else if i < b.len() {
        Rank::Before
    } else if i < a.len() {
        Rank::After
    } else {
        Rank::Same
    };
    proof {
        assert(total_order(less));
        lemma_rank(a@, b@, i as int, r, less);
    }
    r
}

/// Compares two lists of positions.
pub fn rank_indices(a: &Vec<usize>, b: &Vec<usize>) -> (r: Rank)
    ensures
        r == Rank::Before <==> seq_less(a@, b@, index_order()),
        r == Rank::Same <==> a@ == b@,
        r == Rank::After <==> seq_less(b@, a@, index_order()),
{
    let ghost less = index_order();
    let mut i: usize = 0;
    while i < a.len() && i < b.len() && a[i] == b[i]
        invariant
            i <= a@.len(),
            i <= b@.len(),
            forall|k: int| 0 <= k < i ==> a@[k] == b@[k],
        decreases a@.len() - i,
    {
        i += 1;
    }
    let r = if i < a.len() && i < b.len() {
        if a[i] < b[i] {
            Rank::Before
        } else {
            Rank::After
        }
    } else if i < b.len() {
        Rank::Before
    } else if i < a.len() {
        Rank::After
    } else {
        Rank::Same
    };
    proof {
        assert(total_order(less));
        lemma_rank(a@, b@, i as int, r, less);
    }
    r
}

/// The views of a list of lists of positions.
pub open spec fn index_lists(v: Seq<Vec<usize>>) -> Seq<Seq<usize>> {
    Seq::new(v.len(), |i: int| v[i]@)
}

/// Puts the list of positions in its place, unless it is there.
pub fn put_indices(v: &mut Vec<Vec<usize>>, x: Vec<usize>)
    ensures
        index_lists(final(v)@) == put_by(index_lists(old(v)@), x@, indices_order()),
{
    let ghost before = index_lists(v@);
    let ghost xv = x@;
    let ghost less = indices_order();
    let ghost base = index_order();
    proof {
        assert(total_order(base));
        lemma_indices_set(before);
    }
    let mut pos: usize = v.len();
    while pos > 0 && rank_indices(&x, &v[pos - 1]) == Rank::Before
        invariant
            pos <= v@.len(),
            index_lists(v@) == before,
            xv == x@,
            less == indices_order(),
            forall|k: int|
                pos <= k < before.len() ==> !less(#[trigger] before[k], xv) && before[k] != xv,
        decreases pos,
    {
        assert(before[pos - 1] == v@[pos - 1]@);
        pos -= 1;
    }
    if pos > 0 && rank_indices(&x, &v[pos - 1]) == Rank::Same {
        proof {
            assert(before[pos - 1] == v@[pos - 1]@);
            assert(!less(xv, xv));
            lemma_put_same(before, xv, less, pos - 1);
        }
        return;
    }
    proof {
        if pos > 0 {
            assert(before[pos - 1] == v@[pos - 1]@);
            lemma_seq_total(xv, before[pos - 1], base);
        }
    }
    v.insert(pos, x);
    proof {
        lemma_put_at(before, xv, less, pos as int);
        assert(index_lists(v@) =~= before.insert(pos as int, xv));
    }
}

/// The views of a list of sequences.
pub open spec fn lists_view(v: Seq<Vec<u16>>) -> Seq<Seq<u16>> {
    Seq::new(v.len(), |i: int| v[i]@)
}

/// Puts the sequence in its place, unless it is there.
pub fn put_seq(v: &mut Vec<Vec<u16>>, x: Vec<u16>)
    ensures
        lists_view(final(v)@) == put_by(lists_view(old(v)@), x@, seq_order()),
{
    let ghost before = lists_view(v@);
    let ghost xv = x@;
    let ghost less = seq_order();
    let ghost base = kind_order();
    let mut pos: usize = v.len();
    while pos > 0 && rank_seq(&x, &v[pos - 1]) == Rank::Before
        invariant
            pos <= v@.len(),
            lists_view(v@) == before,
            xv == x@,
            less == seq_order(),
            forall|k: int|
                pos <= k < before.len() ==> !less(#[trigger] before[k], xv) && before[k] != xv,
        decreases pos,
    {
        assert(before[pos - 1] == v@[pos - 1]@);
        pos -= 1;
    }
    if pos > 0 && rank_seq(&x, &v[pos - 1]) == Rank::Same {
        proof {
            assert(before[pos - 1] == v@[pos - 1]@);
            assert(total_order(base));
            lemma_seq_irreflexive(xv, base);
            lemma_put_same(before, xv, less, pos - 1);
        }
        return;
    }
    proof {
        if pos > 0 {
            assert(before[pos - 1] == v@[pos - 1]@);
            assert(total_order(base));
            lemma_seq_total(xv, before[pos - 1], base);
        }
    }
    v.insert(pos, x);
    proof {
        lemma_put_at(before, xv, less, pos as int);
        assert(lists_view(v@) =~= before.insert(pos as int, xv));
    }
}

/// A copy of a list of kinds.
pub fn clone_kinds(v: &Vec<u16>) -> (r: Vec<u16>)
    ensures
        r@ == v@,
{
    let mut r: Vec<u16> = Vec::new();
    let mut i: usize = 0;
    while i < v.len()
        invariant
            i <= v@.len(),
            r@ == v@.take(i as int),
        decreases v@.len() - i,
    {
        r.push(v[i]);
        assert(v@.take(i + 1) =~= v@.take(i as int).push(v@[i as int]));
        i += 1;
    }
    assert(v@.take(i as int) =~= v@);
    r
}

/// Sorts the sequences and drops repetitions.
pub fn sort_seqs(v: &Vec<Vec<u16>>) -> (r: Vec<Vec<u16>>)
    ensures
        lists_view(r@) == seq_set(lists_view(v@)),
{
    let ghost all = lists_view(v@);
    let mut r: Vec<Vec<u16>> = Vec::new();
    let mut i: usize = 0;
    assert(all.take(0) =~= Seq::<Seq<u16>>::empty());
    assert(lists_view(r@) =~= seq_set(all.take(0)));
    while i < v.len()
        invariant
            i <= v@.len(),
            all == lists_view(v@),
            lists_view(r@) == seq_set(all.take(i as int)),
        decreases v@.len() - i,
    {
        put_seq(&mut r, clone_kinds(&v[i]));
        assert(all.take(i + 1).drop_last() =~= all.take(i as int));
        i += 1;
    }
    assert(all.take(i as int) =~= all);
    r
}

/// True iff the two lists hold the same sequences.
pub fn same_seqs(a: &Vec<Vec<u16>>, b: &Vec<Vec<u16>>) -> (r: bool)
    ensures
        r == (lists_view(a@) == lists_view(b@)),
{
    let ghost av = lists_view(a@);
    let ghost bv = lists_view(b@);
    if a.len() != b.len() {
        assert(av.len() != bv.len());
        return false;
    }
    let mut i: usize = 0;
    while i < a.len()
        invariant
            i <= a@.len(),
            a@.len() == b@.len(),
            av == lists_view(a@),
            bv == lists_view(b@),
            forall|k: int| 0 <= k < i ==> #[trigger] av[k] == bv[k],
        decreases a@.len() - i,
    {
        let same = rank_seq(&a[i], &b[i]) == Rank::Same;
        assert(same == (av[i as int] == bv[i as int]));
        if !same {
            return false;
        }
        i += 1;
    }
    assert(av =~= bv);
    true
}

} // verus!
