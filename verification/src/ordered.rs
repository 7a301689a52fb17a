//! Sets kept as strictly increasing lists.
use vstd::prelude::*;

verus! {

/// The list is strictly increasing.
pub open spec fn strict(s: Seq<usize>) -> bool {
    forall|i: int, j: int| 0 <= i < j < s.len() ==> s[i] < s[j]
}

/// The list of 16-bit numbers is strictly increasing.
pub open spec fn strict16(s: Seq<u16>) -> bool {
    forall|i: int, j: int| 0 <= i < j < s.len() ==> s[i] < s[j]
}

/// Adds `x` to the set; true if it was not there.
pub fn insert_usize(v: &mut Vec<usize>, x: usize) -> (fresh: bool)
    requires
        strict(old(v)@),
    ensures
        strict(final(v)@),
        forall|y: usize| #[trigger] final(v)@.contains(y) <==> old(v)@.contains(y) || y == x,
        fresh == !old(v)@.contains(x),
        !fresh ==> final(v)@ == old(v)@,
        fresh ==> final(v)@.len() == old(v)@.len() + 1,
{
    let ghost before = v@;
    let mut at: usize = 0;
    while at < v.len() && v[at] < x
        invariant
            at <= v@.len(),
            v@ == before,
            forall|i: int| 0 <= i < at ==> #[trigger] v@[i] < x,
        decreases v@.len() - at,
    {
        at += 1;
    }
    if at < v.len() && v[at] == x {
        assert(before[at as int] == x);
        return false;
    }
    v.insert(at, x);
    proof {
        let after = v@;
        assert(!before.contains(x)) by {
            if before.contains(x) {
                let i = choose|i: int| 0 <= i < before.len() && before[i] == x;
                assert(at <= i);
                assert(before[at as int] <= before[i]);
            }
        }
        assert forall|y: usize| #[trigger] after.contains(y) <==> before.contains(y) || y == x by {
            if before.contains(y) {
                let i = choose|i: int| 0 <= i < before.len() && before[i] == y;
                if i < at {
                    assert(after[i] == y);
                } else {
                    assert(after[i + 1] == y);
                }
            }
            assert(after[at as int] == x);
            if after.contains(y) {
                let i = choose|i: int| 0 <= i < after.len() && after[i] == y;
                if i < at {
                    assert(before[i] == y);
                } else if i > at {
                    assert(before[i - 1] == y);
                }
            }
        }
        assert forall|i: int, j: int| 0 <= i < j < after.len() implies after[i] < after[j] by {
            if j > at {
                assert(after[j] == before[j - 1]);
                assert(before[at as int] <= before[j - 1]);
            }
            if i > at {
                assert(after[i] == before[i - 1]);
            }
        }
    }
    true
}

/// Adds `x` to the set; true if it was not there.
pub fn insert_u16(v: &mut Vec<u16>, x: u16) -> (fresh: bool)
    requires
        strict16(old(v)@),
    ensures
        strict16(final(v)@),
        forall|y: u16| #[trigger] final(v)@.contains(y) <==> old(v)@.contains(y) || y == x,
        fresh == !old(v)@.contains(x),
        !fresh ==> final(v)@ == old(v)@,
        fresh ==> final(v)@.len() == old(v)@.len() + 1,
{
    let ghost before = v@;
    let mut at: usize = 0;
    while at < v.len() && v[at] < x
        invariant
            at <= v@.len(),
            v@ == before,
            forall|i: int| 0 <= i < at ==> #[trigger] v@[i] < x,
        decreases v@.len() - at,
    {
        at += 1;
    }
    if at < v.len() && v[at] == x {
        assert(before[at as int] == x);
        return false;
    }
    v.insert(at, x);
    proof {
        let after = v@;
        assert(!before.contains(x)) by {
            if before.contains(x) {
                let i = choose|i: int| 0 <= i < before.len() && before[i] == x;
                assert(at <= i);
                assert(before[at as int] <= before[i]);
            }
        }
        assert forall|y: u16| #[trigger] after.contains(y) <==> before.contains(y) || y == x by {
            if before.contains(y) {
                let i = choose|i: int| 0 <= i < before.len() && before[i] == y;
                if i < at {
                    assert(after[i] == y);
                } else {
                    assert(after[i + 1] == y);
                }
            }
            assert(after[at as int] == x);
            if after.contains(y) {
                let i = choose|i: int| 0 <= i < after.len() && after[i] == y;
                if i < at {
                    assert(before[i] == y);
                } else if i > at {
                    assert(before[i - 1] == y);
                }
            }
        }
        assert forall|i: int, j: int| 0 <= i < j < after.len() implies after[i] < after[j] by {
            if j > at {
                assert(after[j] == before[j - 1]);
                assert(before[at as int] <= before[j - 1]);
            }
            if i > at {
                assert(after[i] == before[i - 1]);
            }
        }
    }
    true
}

/// A set has one strictly increasing list.
pub proof fn lemma_strict16_unique(a: Seq<u16>, b: Seq<u16>)
    requires
        strict16(a),
        strict16(b),
        forall|y: u16| #[trigger] a.contains(y) <==> b.contains(y),
    ensures
        a == b,
    decreases a.len(),
{
    if a.len() == 0 {
        if b.len() > 0 {
            assert(b.contains(b[0]));
            assert(a.contains(b[0]));
        }
        assert(a =~= b);
    } else {
        let x = a.last();
        assert(a.contains(a[a.len() - 1]));
        let j = choose|j: int| 0 <= j < b.len() && b[j] == x;
        let y = b.last();
        assert(b.contains(b[b.len() - 1]));
        assert(a.contains(y));
        let i = choose|i: int| 0 <= i < a.len() && a[i] == y;
        assert(x == y) by {
            if j < b.len() - 1 {
                assert(b[j] < b[b.len() - 1]);
            }
            if i < a.len() - 1 {
                assert(a[i] < a[a.len() - 1]);
            }
        }
        let a1 = a.drop_last();
        let b1 = b.drop_last();
        assert forall|s: u16| #[trigger] a1.contains(s) <==> b1.contains(s) by {
            if a1.contains(s) {
                let m = choose|m: int| 0 <= m < a1.len() && a1[m] == s;
                assert(a[m] < a[a.len() - 1]);
                assert(a.contains(a[m]));
                let n = choose|n: int| 0 <= n < b.len() && b[n] == s;
                assert(b1[n] == s);
            }
            if b1.contains(s) {
                let m = choose|m: int| 0 <= m < b1.len() && b1[m] == s;
                assert(b[m] < b[b.len() - 1]);
                assert(b.contains(b[m]));
                assert(a.contains(s));
                let n = choose|n: int| 0 <= n < a.len() && a[n] == s;
                assert(a1[n] == s);
            }
        }
        lemma_strict16_unique(a1, b1);
        assert(a =~= a1.push(x));
        assert(b =~= b1.push(y));
    }
}

} // verus!
