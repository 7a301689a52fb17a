//! Maps keyed by names.
use vstd::prelude::*;

use crate::names::{self, Rank};

verus! {

/// A map from names to values.
#[derive(Debug)]
pub struct NameMap<T> {
    entries: Vec<(String, T)>,
}

/// Some entry has the key.
spec fn has_key<T>(entries: Seq<(String, T)>, name: Seq<char>) -> bool {
    exists|i: int| 0 <= i < entries.len() && (#[trigger] entries[i]).0@ == name
}

/// The position of the key.
spec fn key_at<T>(entries: Seq<(String, T)>, name: Seq<char>) -> int {
    choose|i: int| 0 <= i < entries.len() && (#[trigger] entries[i]).0@ == name
}

spec fn keys_distinct<T>(entries: Seq<(String, T)>) -> bool {
    forall|i: int, j: int|
        0 <= i < j < entries.len() ==> (#[trigger] entries[i]).0@ != (#[trigger] entries[j]).0@
}

spec fn entries_map<T>(entries: Seq<(String, T)>) -> Map<Seq<char>, T> {
    Map::new(|n: Seq<char>| has_key(entries, n), |n: Seq<char>| entries[key_at(entries, n)].1)
}

impl<T> NameMap<T> {
    /// What the map holds.
    pub closed spec fn view(self) -> Map<Seq<char>, T> {
        entries_map(self.entries@)
    }

    /// No name occurs twice.
    pub closed spec fn wf(self) -> bool {
        keys_distinct(self.entries@)
    }

    /// The empty map.
    pub fn new() -> (r: Self)
        ensures
            r.wf(),
            r@ == Map::<Seq<char>, T>::empty(),
    {
        let r = NameMap { entries: Vec::new() };
        assert(r@ =~= Map::<Seq<char>, T>::empty());
        r
    }

    /// The number of entries.
    pub fn len(&self) -> (n: usize)
        requires
            self.wf(),
        ensures
            n == self@.dom().len(),
            self@.dom().finite(),
    {
        proof {
            lemma_entries_dom(self.entries@);
        }
        self.entries.len()
    }

    /// The names in the order of their first being put.
    pub closed spec fn keys(self) -> Seq<Seq<char>> {
        Seq::new(self.entries@.len(), |i: int| self.entries@[i].0@)
    }

    /// The number of names in [`NameMap::keys`].
    pub fn size(&self) -> (n: usize)
        ensures
            n == self.keys().len(),
    {
        self.entries.len()
    }

    /// The name at position `i` of [`NameMap::keys`].
    pub fn key(&self, i: usize) -> (r: &str)
        requires
            i < self.keys().len(),
        ensures
            r@ == self.keys()[i as int],
            self@.contains_key(r@),
    {
        let r = self.entries[i].0.as_str();
        assert(has_key(self.entries@, r@)) by {
            assert(self.entries@[i as int].0@ == r@);
        }
        r
    }

    /// The position of `name` in the list of entries.
    fn find(&self, name: &str) -> (r: Option<usize>)
        ensures
            r matches Some(i) ==> i < self.entries@.len() && self.entries@[i as int].0@ == name@,
            r is None <==> !has_key(self.entries@, name@),
    {
        let mut i: usize = 0;
        while i < self.entries.len()
            invariant
                i <= self.entries@.len(),
                forall|k: int| 0 <= k < i ==> (#[trigger] self.entries@[k]).0@ != name@,
            decreases self.entries@.len() - i,
        {
            if names::rank_str(self.entries[i].0.as_str(), name) == Rank::Same {
                return Some(i);
            }
            i += 1;
        }
        None
    }

    /// The value under `name`.
    pub fn get(&self, name: &str) -> (r: Option<&T>)
        requires
            self.wf(),
        ensures
            r is Some <==> self@.contains_key(name@),
            r matches Some(v) ==> *v == self@[name@],
    {
        match self.find(name) {
            Some(i) => {
                assert(key_at(self.entries@, name@) == i);
                Some(&self.entries[i].1)
            },
            None => None,
        }
    }

    /// True iff there is a value under `name`.
    pub fn contains_key(&self, name: &str) -> (r: bool)
        ensures
            r == self@.contains_key(name@),
    {
        self.find(name).is_some()
    }

    /// Puts `value` under `name`.
    pub fn put(&mut self, name: &str, value: T)
        requires
            old(self).wf(),
        ensures
            final(self).wf(),
            final(self)@ == old(self)@.insert(name@, value),
    {
        let ghost before = self.entries@;
        let key = name.to_owned();
        match self.find(name) {
            Some(i) => {
                self.entries.set(i, (key, value));
                proof {
                    let after = self.entries@;
                    assert forall|a: int, b: int| 0 <= a < b < after.len() implies (
                    #[trigger] after[a]).0@ != (#[trigger] after[b]).0@ by {
                        assert(before[a].0@ != before[b].0@);
                    }
                    lemma_put(before, after, i as int, name@, value);
                }
            },
            None => {
                self.entries.push((key, value));
                proof {
                    let after = self.entries@;
                    lemma_put(before, after, before.len() as int, name@, value);
                }
            },
        }
    }
}

/// The map after an entry was written at position `i`.
proof fn lemma_put<T>(
    before: Seq<(String, T)>,
    after: Seq<(String, T)>,
    i: int,
    name: Seq<char>,
    value: T,
)
    requires
        keys_distinct(before),
        keys_distinct(after),
        0 <= i < after.len(),
        before.len() <= after.len(),
        after.len() <= before.len() + 1,
        i == before.len() || after.len() == before.len(),
        i < before.len() ==> before[i].0@ == name,
        i == before.len() ==> !has_key(before, name),
        after[i].0@ == name,
        after[i].1 == value,
        forall|k: int| 0 <= k < before.len() && k != i ==> #[trigger] after[k] == before[k],
    ensures
        entries_map(after) == entries_map(before).insert(name, value),
{
    let l = entries_map(after);
    let r = entries_map(before).insert(name, value);
    assert forall|n: Seq<char>| l.contains_key(n) <==> r.contains_key(n) by {
        if has_key(after, n) {
            let k = choose|k: int| 0 <= k < after.len() && (#[trigger] after[k]).0@ == n;
            if k != i {
                assert(before[k].0@ == n);
            }
        }
        if has_key(before, n) {
            let k = choose|k: int| 0 <= k < before.len() && (#[trigger] before[k]).0@ == n;
            if k != i {
                assert(after[k].0@ == n);
            }
        }
        if n == name {
            assert(after[i].0@ == n);
        }
    }
    assert forall|n: Seq<char>| l.contains_key(n) implies l[n] == r[n] by {
        let a = key_at(after, n);
        assert(after[a].0@ == n);
        if n == name {
            assert(a == i);
        } else {
            assert(a != i);
            assert(before[a].0@ == n);
            assert(key_at(before, n) == a);
        }
    }
    assert(l =~= r);
}

proof fn lemma_entries_dom<T>(entries: Seq<(String, T)>)
    requires
        keys_distinct(entries),
    ensures
        entries_map(entries).dom().finite(),
        entries_map(entries).dom().len() == entries.len(),
    decreases entries.len(),
{
    let keys = Seq::new(entries.len(), |i: int| entries[i].0@);
    let dom = entries_map(entries).dom();
    assert forall|n: Seq<char>| dom.contains(n) <==> keys.contains(n) by {
        if has_key(entries, n) {
            let k = choose|k: int| 0 <= k < entries.len() && (#[trigger] entries[k]).0@ == n;
            assert(keys[k] == n);
        }
        if keys.contains(n) {
            let k = choose|k: int| 0 <= k < keys.len() && keys[k] == n;
            assert(entries[k].0@ == n);
        }
    }
    assert(dom =~= keys.to_set());
    assert(keys.no_duplicates()) by {
        assert forall|i: int, j: int|
            0 <= i < keys.len() && 0 <= j < keys.len() && i != j implies keys[i] != keys[j] by {
            if i < j {
                assert(entries[i].0@ != entries[j].0@);
            } else {
                assert(entries[j].0@ != entries[i].0@);
            }
        }
    }
    keys.unique_seq_to_set();
    vstd::seq_lib::seq_to_set_is_finite(keys);
}

/// The names listed are those of the map.
pub proof fn lemma_keys<T>(m: NameMap<T>)
    ensures
        forall|n: Seq<char>| #[trigger] m@.contains_key(n) <==> m.keys().contains(n),
{
    assert forall|n: Seq<char>| #[trigger] m@.contains_key(n) <==> m.keys().contains(n) by {
        if m@.contains_key(n) {
            let i = choose|i: int| 0 <= i < m.entries@.len() && (#[trigger] m.entries@[i]).0@ == n;
            assert(m.keys()[i] == n);
        }
        if m.keys().contains(n) {
            let i = choose|i: int| 0 <= i < m.keys().len() && m.keys()[i] == n;
            assert(m.entries@[i].0@ == n);
        }
    }
}

/// The map holds finitely many names.
pub proof fn lemma_dom_finite<T>(m: NameMap<T>)
    requires
        m.wf(),
    ensures
        m@.dom().finite(),
{
    lemma_entries_dom(m.entries@);
}

impl<T> Default for NameMap<T> {
    fn default() -> (r: Self)
        ensures
            r.wf(),
            r@ == Map::<Seq<char>, T>::empty(),
    {
        NameMap::new()
    }
}

} // verus!
