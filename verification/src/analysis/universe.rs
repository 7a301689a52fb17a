//! Finite universes of name sequences, which bound how long a saturation can
//! go on.
use vstd::prelude::*;

use crate::analysis::first_set::NameSeq;

verus! {

/// The sequences of at most `len` names of `alphabet`.
pub open spec fn all_seqs(alphabet: Set<Seq<char>>, len: nat) -> Set<NameSeq> {
    Set::new(
        |s: NameSeq|
            s.len() <= len && forall|i: int| 0 <= i < s.len() ==> alphabet.contains(#[trigger] s[i]),
    )
}

/// The sequences whose first name is in `heads` and whose rest is in `tails`.
spec fn prepended(heads: Set<Seq<char>>, tails: Set<NameSeq>) -> Set<NameSeq> {
    Set::new(|s: NameSeq| s.len() > 0 && heads.contains(s[0]) && tails.contains(s.skip(1)))
}

proof fn lemma_prepended_finite(heads: Set<Seq<char>>, tails: Set<NameSeq>)
    requires
        heads.finite(),
        tails.finite(),
    ensures
        prepended(heads, tails).finite(),
    decreases heads.len(),
{
    if heads.len() == 0 {
        heads.lemma_len0_is_empty();
        assert(prepended(heads, tails) =~= Set::<NameSeq>::empty());
    } else {
        let a = heads.choose();
        let rest = heads.remove(a);
        lemma_prepended_finite(rest, tails);
        let f = |s: NameSeq| seq![a] + s;
        let with_a = tails.map(f);
        tails.lemma_map_finite(f);
        assert forall|s: NameSeq| prepended(heads, tails).contains(s) implies prepended(
            rest,
            tails,
        ).union(with_a).contains(s) by {
            if s[0] == a {
                let t = s.skip(1);
                assert(f(t) =~= s);
                assert(tails.contains(t) && f(t) == s);
            }
        }
        assert(prepended(heads, tails).subset_of(prepended(rest, tails).union(with_a)));
        vstd::set_lib::lemma_set_union_finite_iff(prepended(rest, tails), with_a);
        vstd::set_lib::lemma_set_subset_finite(
            prepended(rest, tails).union(with_a),
            prepended(heads, tails),
        );
    }
}

/// The sequences of bounded length over a finite alphabet are finitely many.
pub proof fn lemma_all_seqs_finite(alphabet: Set<Seq<char>>, len: nat)
    requires
        alphabet.finite(),
    ensures
        all_seqs(alphabet, len).finite(),
    decreases len,
{
    let e = Seq::<Seq<char>>::empty();
    let eps = Set::<NameSeq>::empty().insert(e);
    if len == 0 {
        assert forall|s: NameSeq| all_seqs(alphabet, 0).contains(s) implies eps.contains(s) by {
            assert(s =~= e);
        }
        vstd::set_lib::lemma_set_subset_finite(eps, all_seqs(alphabet, 0));
    } else {
        let shorter = all_seqs(alphabet, (len - 1) as nat);
        lemma_all_seqs_finite(alphabet, (len - 1) as nat);
        lemma_prepended_finite(alphabet, shorter);
        let big = prepended(alphabet, shorter).union(eps);
        assert forall|s: NameSeq| all_seqs(alphabet, len).contains(s) implies big.contains(s) by {
            if s.len() == 0 {
                assert(s =~= e);
            } else {
                assert(alphabet.contains(s[0]));
                let t = s.skip(1);
                assert forall|i: int| 0 <= i < t.len() implies alphabet.contains(#[trigger] t[i]) by {
                    assert(t[i] == s[i + 1]);
                }
            }
        }
        vstd::set_lib::lemma_set_union_finite_iff(prepended(alphabet, shorter), eps);
        vstd::set_lib::lemma_set_subset_finite(big, all_seqs(alphabet, len));
    }
}

/// A set that gains an element gains in size, within the universe.
pub proof fn lemma_gain<A>(small: Set<A>, big: Set<A>, all: Set<A>, x: A)
    requires
        all.finite(),
        small.subset_of(big),
        big.subset_of(all),
        big.contains(x),
        !small.contains(x),
    ensures
        small.len() < big.len() <= all.len(),
{
    vstd::set_lib::lemma_set_subset_finite(all, big);
    vstd::set_lib::lemma_len_subset(big, all);
    small.lemma_subset_not_in_lt(big, x);
}

/// The names that occur in a set of sequences.
pub open spec fn names_in(s: Set<NameSeq>) -> Set<Seq<char>> {
    Set::new(|n: Seq<char>| exists|x: NameSeq| s.contains(x) && #[trigger] x.contains(n))
}

/// Finitely many sequences hold finitely many names, and none is longer than
/// some bound.
pub proof fn lemma_finite_bound(s: Set<NameSeq>) -> (len: nat)
    requires
        s.finite(),
    ensures
        names_in(s).finite(),
        s.subset_of(all_seqs(names_in(s), len)),
    decreases s.len(),
{
    if s.len() == 0 {
        s.lemma_len0_is_empty();
        assert(names_in(s) =~= Set::<Seq<char>>::empty());
        0
    } else {
        let x = s.choose();
        let rest = s.remove(x);
        let l = lemma_finite_bound(rest);
        let xs = x.to_set();
        vstd::seq_lib::seq_to_set_is_finite(x);
        assert(names_in(s) =~= names_in(rest).union(xs)) by {
            assert forall|n: Seq<char>| names_in(s).contains(n) <==> names_in(rest).union(
                xs,
            ).contains(n) by {
                if names_in(s).contains(n) {
                    let y = choose|y: NameSeq| s.contains(y) && #[trigger] y.contains(n);
                    if y != x {
                        assert(rest.contains(y) && y.contains(n));
                    }
                }
                if names_in(rest).contains(n) {
                    let y = choose|y: NameSeq| rest.contains(y) && #[trigger] y.contains(n);
                    assert(s.contains(y) && y.contains(n));
                }
                if xs.contains(n) {
                    assert(s.contains(x) && x.contains(n));
                }
            }
        }
        vstd::set_lib::lemma_set_union_finite_iff(names_in(rest), xs);
        let len: nat = if l >= x.len() {
            l
        } else {
            x.len()
        };
        assert forall|y: NameSeq| s.contains(y) implies all_seqs(names_in(s), len).contains(y) by {
            if y != x {
                assert(all_seqs(names_in(rest), l).contains(y));
            }
            assert forall|i: int| 0 <= i < y.len() implies names_in(s).contains(
                #[trigger] y[i],
            ) by {
                assert(s.contains(y) && y.contains(y[i]));
            }
        }
        len
    }
}

} // verus!
