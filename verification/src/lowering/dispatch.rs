//! Decision trees over the lookahead.
use vstd::prelude::*;

use crate::lowering::table::{
    self, Body, DispatchLeaf, DispatchTree, FirstSet, FirstSetId, LeafView, StateId, TreeView,
};
use crate::sorting;

verus! {

/// A lookahead sequence and the state that it leads to.
pub type Entry = (Seq<u16>, u32);

/// What a list of sequences with their states says.
pub open spec fn entries_view(v: Seq<(Vec<u16>, StateId)>) -> Seq<Entry> {
    Seq::new(v.len(), |i: int| (v[i].0@, v[i].1))
}

/// The leaf that takes the arm at state `t`.
pub open spec fn arm_leaf(t: u32) -> LeafView {
    LeafView::Arm(Box::new(table::jump_body(t)))
}

/// The position of the first entry whose sequence has exactly `depth` kinds,
/// or the number of entries if there is none.
pub open spec fn end_at(entries: Seq<Entry>, depth: int) -> int
    decreases entries.len(),
{
    if entries.len() == 0 {
        0
    } else {
        let before = end_at(entries.drop_last(), depth);
        if before < entries.len() - 1 {
            before
        } else if entries.last().0.len() == depth {
            entries.len() - 1
        } else {
            entries.len() as int
        }
    }
}

/// The entries in front of the first that ends at `depth`.
pub open spec fn going_on(entries: Seq<Entry>, depth: int) -> Seq<Entry> {
    entries.take(end_at(entries, depth))
}

/// What to do where no deeper kind matches: take the arm of the first entry
/// that ends at `depth`, else `outer`.
pub open spec fn default_at(entries: Seq<Entry>, depth: int, outer: LeafView) -> LeafView {
    let e = end_at(entries, depth);
    if e < entries.len() {
        arm_leaf(entries[e].1)
    } else {
        outer
    }
}

/// The kind of each entry at `depth`.
pub open spec fn kinds_at(entries: Seq<Entry>, depth: int) -> Seq<u16> {
    Seq::new(entries.len(), |i: int| entries[i].0[depth])
}

/// The entries whose kind at `depth` is `kind`.
pub open spec fn with_kind(entries: Seq<Entry>, depth: int, kind: u16) -> Seq<Entry>
    decreases entries.len(),
{
    if entries.len() == 0 {
        entries
    } else if entries.last().0[depth] == kind {
        with_kind(entries.drop_last(), depth, kind).push(entries.last())
    } else {
        with_kind(entries.drop_last(), depth, kind)
    }
}

/// The tree for entries that agree on their first `depth` kinds and have at
/// most `bound` of them: one branch for each kind that comes next.
pub open spec fn trie(entries: Seq<Entry>, depth: usize, outer: LeafView, bound: nat) -> TreeView
    decreases bound - depth,
{
    let deeper = going_on(entries, depth as int);
    let default = default_at(entries, depth as int, outer);
    if deeper.len() == 0 || depth >= bound || depth >= usize::MAX {
        TreeView::Leaf(default)
    } else {
        let kinds = sorting::kind_set(kinds_at(deeper, depth as int));
        TreeView::Switch(
            depth as u8,
            kinds,
            Seq::new(
                kinds.len(),
                |i: int|
                    trie(
                        with_kind(deeper, depth as int, kinds[i]),
                        (depth + 1) as usize,
                        default,
                        bound,
                    ),
            ),
            default,
        )
    }
}

/// Every sequence has at least `least` kinds and at most `bound`.
pub open spec fn sized(entries: Seq<Entry>, least: int, bound: int) -> bool {
    forall|i: int| 0 <= i < entries.len() ==> least <= (#[trigger] entries[i]).0.len() <= bound
}

/// The length of the longest sequence.
pub open spec fn longest(entries: Seq<Entry>) -> nat
    decreases entries.len(),
{
    if entries.len() == 0 {
        0
    } else {
        let before = longest(entries.drop_last());
        if entries.last().0.len() > before {
            entries.last().0.len()
        } else {
            before
        }
    }
}

proof fn lemma_longest(entries: Seq<Entry>)
    ensures
        sized(entries, 0, longest(entries) as int),
    decreases entries.len(),
{
    if entries.len() > 0 {
        lemma_longest(entries.drop_last());
        assert forall|i: int| 0 <= i < entries.len() implies 0 <= (#[trigger] entries[i]).0.len()
            <= longest(entries) by {
            if i < entries.len() - 1 {
                assert(entries.drop_last()[i] == entries[i]);
            }
        }
    }
}

/// The entries that a list of arms stands for: each sequence of the FIRST set
/// of each arm, with the state of the arm.
pub open spec fn arm_entries(
    arms: Seq<(FirstSetId, StateId)>,
    pool: Seq<FirstSet>,
) -> Seq<Entry>
    decreases arms.len(),
{
    if arms.len() == 0 {
        Seq::empty()
    } else {
        let a = arms.last();
        let seqs = table::seqs_view(pool[a.0 as int].seqs@);
        arm_entries(arms.drop_last(), pool) + Seq::new(seqs.len(), |i: int| (seqs[i], a.1))
    }
}

/// What to do when no arm matches.
pub open spec fn outer_default(has_eps: bool) -> LeafView {
    if has_eps {
        LeafView::Fallthrough
    } else {
        LeafView::Error
    }
}

/// The tree of a list of arms.
pub open spec fn dispatch_tree(
    arms: Seq<(FirstSetId, StateId)>,
    pool: Seq<FirstSet>,
    has_eps: bool,
) -> TreeView {
    let entries = arm_entries(arms, pool);
    trie(entries, 0, outer_default(has_eps), longest(entries))
}

/// Every arm refers to an entry of the pool.
pub open spec fn arms_in(arms: Seq<(FirstSetId, StateId)>, pool: nat) -> bool {
    forall|i: int| 0 <= i < arms.len() ==> (#[trigger] arms[i]).0 < pool
}

/// Build a dispatch tree from the arms of an alternation, each a FIRST set and
/// a state, and whether any arm is nullable.
///
/// `has_eps` makes "no arm matched" fall through in place of an error.
pub fn build_dispatch_tree(
    arms: &Vec<(FirstSetId, StateId)>,
    first_sets: &Vec<FirstSet>,
    has_eps: bool,
) -> (r: DispatchTree)
    requires
        arms_in(arms@, first_sets@.len()),
    ensures
        r@ == dispatch_tree(arms@, first_sets@, has_eps),
{
    let outer = if has_eps {
        DispatchLeaf::Fallthrough
    } else {
        DispatchLeaf::Error
    };
    let mut entries: Vec<(Vec<u16>, StateId)> = Vec::new();
    let mut i: usize = 0;
    assert(arms@.take(0) =~= Seq::<(FirstSetId, StateId)>::empty());
    assert(entries_view(entries@) =~= arm_entries(arms@.take(0), first_sets@));
    while i < arms.len()
        invariant
            i <= arms@.len(),
            arms_in(arms@, first_sets@.len()),
            entries_view(entries@) == arm_entries(arms@.take(i as int), first_sets@),
        decreases arms@.len() - i,
    {
        let (fid, target) = arms[i];
        let seqs = &first_sets[fid as usize].seqs;
        let ghost before = entries_view(entries@);
        let ghost sv = table::seqs_view(seqs@);
        let ghost added = Seq::new(sv.len(), |m: int| (sv[m], target));
        let mut j: usize = 0;
        assert(before =~= before + added.take(0));
        while j < seqs.len()
            invariant
                j <= seqs@.len(),
                sv == table::seqs_view(seqs@),
                added == Seq::new(sv.len(), |m: int| (sv[m], target)),
                entries_view(entries@) == before + added.take(j as int),
            decreases seqs@.len() - j,
        {
            let ghost e0 = entries@;
            entries.push((sorting::clone_kinds(&seqs[j]), target));
            proof {
                assert(added.take(j + 1) =~= added.take(j as int).push(added[j as int]));
                assert(entries_view(entries@) =~= entries_view(e0).push((sv[j as int], target)));
                assert(entries_view(entries@) =~= before + added.take(j + 1));
            }
            j += 1;
        }
        proof {
            assert(added.take(j as int) =~= added);
            assert(arms@.take(i + 1).drop_last() =~= arms@.take(i as int));
        }
        i += 1;
    }
    assert(arms@.take(i as int) =~= arms@);
    proof {
        lemma_longest(entries_view(entries@));
    }
    build_trie(&entries, 0, &outer, Ghost(longest(entries_view(entries@))))
}

pub proof fn lemma_end_at(entries: Seq<Entry>, depth: int)
    ensures
        0 <= end_at(entries, depth) <= entries.len(),
        forall|i: int|
            0 <= i < end_at(entries, depth) ==> (#[trigger] entries[i]).0.len() != depth,
        end_at(entries, depth) < entries.len() ==> entries[end_at(entries, depth)].0.len() == depth,
    decreases entries.len(),
{
    if entries.len() > 0 {
        let p = entries.drop_last();
        lemma_end_at(p, depth);
        assert forall|i: int| 0 <= i < end_at(entries, depth) implies (
        #[trigger] entries[i]).0.len() != depth by {
            if i < p.len() {
                assert(p[i] == entries[i]);
            }
        }
    }
}

/// The first position that ends at `depth` does not depend on what follows.
proof fn lemma_end_found(entries: Seq<Entry>, depth: int, i: int)
    requires
        0 <= i < entries.len(),
        entries[i].0.len() == depth,
        forall|m: int| 0 <= m < i ==> (#[trigger] entries[m]).0.len() != depth,
    ensures
        end_at(entries, depth) == i,
{
    lemma_end_at(entries, depth);
}

pub proof fn lemma_with_kind(entries: Seq<Entry>, depth: int, kind: u16)
    ensures
        forall|e: Entry| #[trigger]
            with_kind(entries, depth, kind).contains(e) <==> entries.contains(e) && e.0[depth]
                == kind,
    decreases entries.len(),
{
    if entries.len() > 0 {
        let p = entries.drop_last();
        lemma_with_kind(p, depth, kind);
        let r = with_kind(entries, depth, kind);
        let q = with_kind(p, depth, kind);
        assert forall|e: Entry| #[trigger] r.contains(e) <==> entries.contains(e) && e.0[depth]
            == kind by {
            assert(entries[entries.len() - 1] == entries.last());
            if p.contains(e) {
                let i = choose|i: int| 0 <= i < p.len() && p[i] == e;
                assert(entries[i] == e);
            }
            if entries.contains(e) {
                let i = choose|i: int| 0 <= i < entries.len() && entries[i] == e;
                if i < p.len() {
                    assert(p[i] == e);
                }
            }
            if entries.last().0[depth] == kind {
                assert(r[q.len() as int] == entries.last());
                if q.contains(e) {
                    let i = choose|i: int| 0 <= i < q.len() && q[i] == e;
                    assert(r[i] == e);
                }
                if r.contains(e) {
                    let i = choose|i: int| 0 <= i < r.len() && r[i] == e;
                    if i < q.len() {
                        assert(q[i] == e);
                    }
                }
            }
        }
    }
}

/// A copy of the entries whose kind at `depth` is `kind`.
fn pick(entries: &Vec<(Vec<u16>, StateId)>, upto: usize, depth: usize, kind: u16) -> (r: Vec<
    (Vec<u16>, StateId),
>)
    requires
        upto <= entries@.len(),
        sized(entries_view(entries@).take(upto as int), depth + 1, usize::MAX as int),
    ensures
        entries_view(r@) == with_kind(
            entries_view(entries@).take(upto as int),
            depth as int,
            kind,
        ),
{
    let ghost all = entries_view(entries@).take(upto as int);
    let mut r: Vec<(Vec<u16>, StateId)> = Vec::new();
    let mut i: usize = 0;
    assert(all.take(0) =~= Seq::<Entry>::empty());
    assert(entries_view(r@) =~= with_kind(all.take(0), depth as int, kind));
    while i < upto
        invariant
            i <= upto <= entries@.len(),
            all == entries_view(entries@).take(upto as int),
            sized(all, depth + 1, usize::MAX as int),
            entries_view(r@) == with_kind(all.take(i as int), depth as int, kind),
        decreases upto - i,
    {
        let ghost e = all[i as int];
        assert(all.take(i + 1).drop_last() =~= all.take(i as int));
        assert(all.take(i + 1).last() == e);
        assert(e.0 == entries@[i as int].0@);
        if entries[i].0[depth] == kind {
            let ghost before = r@;
            r.push((sorting::clone_kinds(&entries[i].0), entries[i].1));
            assert(entries_view(r@) =~= entries_view(before).push(e));
        }
        i += 1;
    }
    assert(all.take(i as int) =~= all);
    r
}

fn build_trie(
    entries: &Vec<(Vec<u16>, StateId)>,
    depth: usize,
    outer: &DispatchLeaf,
    Ghost(bound): Ghost<nat>,
) -> (r: DispatchTree)
    requires
        sized(entries_view(entries@), depth as int, bound as int),
    ensures
        r@ == trie(entries_view(entries@), depth, outer@, bound),
    decreases bound - depth,
{
    let ghost ev = entries_view(entries@);
    let mut end: usize = 0;
    while end < entries.len() && entries[end].0.len() != depth
        invariant
            end <= entries@.len(),
            ev == entries_view(entries@),
            forall|m: int| 0 <= m < end ==> (#[trigger] ev[m]).0.len() != depth,
        decreases entries@.len() - end,
    {
        assert(ev[end as int].0 == entries@[end as int].0@);
        end += 1;
    }
    proof {
        lemma_end_at(ev, depth as int);
        if end < entries.len() {
            assert(ev[end as int].0 == entries@[end as int].0@);
            lemma_end_found(ev, depth as int, end as int);
        } else if end_at(ev, depth as int) < ev.len() {
            assert(ev[end_at(ev, depth as int)].0.len() == depth);
        }
        assert(end == end_at(ev, depth as int));
    }
    let default = if end < entries.len() {
        DispatchLeaf::Arm(Box::new(Body::jump(entries[end].1)))
    } else {
        outer.clone()
    };
    let ghost dv = default_at(ev, depth as int, outer@);
    let ghost deeper = going_on(ev, depth as int);
    assert(default@ == dv);
    if end == 0 {
        return DispatchTree::Leaf(default);
    }
    proof {
        assert(ev[0].0.len() > depth);
        assert(ev[0].0 == entries@[0].0@);
    }
    assert(entries@[0].0.len() <= usize::MAX);
    let mut kinds: Vec<u16> = Vec::new();
    let mut i: usize = 0;
    let ghost each = kinds_at(deeper, depth as int);
    assert(each.take(0) =~= Seq::<u16>::empty());
    assert forall|m: int| 0 <= m < end implies (#[trigger] deeper[m]).0.len() >= depth + 1
        && deeper[m].0.len() <= usize::MAX by {
        assert(ev[m].0 == entries@[m].0@);
        assert(entries@[m].0.len() <= usize::MAX);
    }
    while i < end
        invariant
            i <= end <= entries@.len(),
            ev == entries_view(entries@),
            deeper == ev.take(end as int),
            each == kinds_at(deeper, depth as int),
            sized(deeper, depth + 1, usize::MAX as int),
            kinds@ == sorting::kind_set(each.take(i as int)),
        decreases end - i,
    {
        proof {
            assert(deeper[i as int].0 == entries@[i as int].0@);
            assert(each.take(i + 1).drop_last() =~= each.take(i as int));
            assert(each.take(i + 1).last() == entries@[i as int].0@[depth as int]);
        }
        sorting::put_kind(&mut kinds, entries[i].0[depth]);
        i += 1;
    }
    assert(each.take(i as int) =~= each);
    let ghost want = Seq::new(
        kinds@.len(),
        |m: int|
            trie(
                with_kind(deeper, depth as int, kinds@[m]),
                (depth + 1) as usize,
                dv,
                bound,
            ),
    );
    let mut arms: Vec<(u16, DispatchTree)> = Vec::new();
    let mut n: usize = 0;
    while n < kinds.len()
        invariant
            n <= kinds@.len(),
            end <= entries@.len(),
            ev == entries_view(entries@),
            deeper == ev.take(end as int),
            sized(deeper, depth + 1, usize::MAX as int),
            sized(ev, depth as int, bound as int),
            depth < bound,
            depth < usize::MAX,
            default@ == dv,
            want == Seq::new(
                kinds@.len(),
                |m: int|
                    trie(
                        with_kind(deeper, depth as int, kinds@[m]),
                        (depth + 1) as usize,
                        dv,
                        bound,
                    ),
            ),
            arms@.len() == n,
            forall|m: int|
                0 <= m < n ==> (#[trigger] arms@[m]).0 == kinds@[m] && arms@[m].1@ == want[m],
        decreases kinds@.len() - n,
    {
        let sub = pick(entries, end, depth, kinds[n]);
        proof {
            let sv = entries_view(sub@);
            lemma_with_kind(deeper, depth as int, kinds@[n as int]);
            assert forall|m: int| 0 <= m < sv.len() implies depth + 1 <= (#[trigger] sv[m]).0.len()
                <= bound by {
                assert(sv.contains(sv[m]));
                let j = choose|j: int| 0 <= j < deeper.len() && deeper[j] == sv[m];
                assert(deeper[j].0.len() >= depth + 1);
                assert(ev[j] == deeper[j]);
            }
        }
        let t = build_trie(&sub, depth + 1, &default, Ghost(bound));
        arms.push((kinds[n], t));
        n += 1;
    }
    proof {
        assert(table::arm_kinds(arms@) =~= kinds@);
        assert(table::arm_trees(arms@) =~= want);
        let whole = trie(ev, depth, outer@, bound);
        assert(deeper.len() > 0);
        assert(kinds@ == sorting::kind_set(kinds_at(deeper, depth as int)));
        assert(whole->Switch_2 =~= want);
    }
    DispatchTree::Switch { depth: #[verifier::truncate] (depth as u8), arms, default }
}

/// Where the tree leads on the given lookahead.
pub open spec fn decided(tree: TreeView, look: Seq<u16>) -> LeafView
    decreases tree,
{
    match tree {
        TreeView::Leaf(l) => l,
        TreeView::Switch(depth, kinds, subs, default) => {
            let i = kinds.index_of(look[depth as int]);
            if depth < look.len() && kinds.contains(look[depth as int]) && 0 <= i < subs.len() {
                decided(subs[i], look)
            } else {
                default
            }
        },
    }
}

/// The sequence is what the lookahead begins with.
pub open spec fn begins(look: Seq<u16>, s: Seq<u16>) -> bool {
    s.len() <= look.len() && forall|i: int| 0 <= i < s.len() ==> look[i] == s[i]
}

/// The sequences and the lookahead agree on the first `depth` kinds.
spec fn agrees(entries: Seq<Entry>, look: Seq<u16>, depth: int) -> bool {
    &&& depth <= look.len()
    &&& forall|i: int, j: int|
        0 <= i < entries.len() && 0 <= j < depth && j < entries[i].0.len() ==> look[j]
            == #[trigger] entries[i].0[j]
}

proof fn lemma_decided(
    entries: Seq<Entry>,
    depth: usize,
    outer: LeafView,
    bound: nat,
    look: Seq<u16>,
)
    requires
        bound <= 256,
        sized(entries, depth as int, bound as int),
        agrees(entries, look, depth as int),
    ensures
        ({
            let d = decided(trie(entries, depth, outer, bound), look);
            ||| d == outer && forall|i: int|
                0 <= i < entries.len() ==> !begins(look, #[trigger] entries[i].0)
            ||| exists|i: int|
                0 <= i < entries.len() && begins(look, #[trigger] entries[i].0) && d == arm_leaf(
                    entries[i].1,
                )
        }),
    decreases bound - depth,
{
    let d = depth as int;
    let e = end_at(entries, d);
    let deeper = going_on(entries, d);
    let default = default_at(entries, d, outer);
    let tree = trie(entries, depth, outer, bound);
    lemma_end_at(entries, d);
    if e < entries.len() {
        assert(begins(look, entries[e].0)) by {
            assert forall|i: int| 0 <= i < entries[e].0.len() implies look[i] == entries[e].0[i] by {
            }
        }
    }
    if deeper.len() == 0 {
        if e == 0 && entries.len() > 0 {
            assert(decided(tree, look) == arm_leaf(entries[0].1));
        }
    } else {
        assert(entries[0].0.len() != d);
        assert(depth < bound);
        let each = kinds_at(deeper, d);
        let kinds = sorting::kind_set(each);
        sorting::lemma_kind_set(each);
        assert(depth as u8 == depth);
        let subs = tree->Switch_2;
        assert forall|i: int| 0 <= i < deeper.len() && begins(look, #[trigger] deeper[i].0) implies
            depth < look.len() && kinds.contains(look[d]) by {
            assert(entries[i].0.len() != d);
            assert(each[i] == deeper[i].0[d]);
            assert(each.contains(each[i]));
        }
        if depth < look.len() && kinds.contains(look[d]) {
            let i = kinds.index_of(look[d]);
            let sub = with_kind(deeper, d, kinds[i]);
            assert(subs[i] == trie(sub, (depth + 1) as usize, default, bound));
            lemma_with_kind(deeper, d, kinds[i]);
            assert forall|m: int| 0 <= m < sub.len() implies depth + 1 <= (
            #[trigger] sub[m]).0.len() <= bound by {
                assert(sub.contains(sub[m]));
                let j = choose|j: int| 0 <= j < deeper.len() && deeper[j] == sub[m];
                assert(entries[j] == deeper[j]);
            }
            assert forall|m: int, n: int|
                0 <= m < sub.len() && 0 <= n < d + 1 && n < sub[m].0.len() implies look[n]
                == #[trigger] sub[m].0[n] by {
                assert(sub.contains(sub[m]));
                let j = choose|j: int| 0 <= j < deeper.len() && deeper[j] == sub[m];
                assert(entries[j] == deeper[j]);
                if n < d {
                    assert(look[n] == entries[j].0[n]);
                }
            }
            lemma_decided(sub, (depth + 1) as usize, default, bound, look);
            let out = decided(subs[i], look);
            assert(decided(tree, look) == out);
            if exists|m: int|
                0 <= m < sub.len() && begins(look, #[trigger] sub[m].0) && out == arm_leaf(
                    sub[m].1,
                ) {
                let m = choose|m: int|
                    0 <= m < sub.len() && begins(look, #[trigger] sub[m].0) && out == arm_leaf(
                        sub[m].1,
                    );
                assert(sub.contains(sub[m]));
                let j = choose|j: int| 0 <= j < deeper.len() && deeper[j] == sub[m];
                assert(entries[j] == deeper[j]);
                assert(begins(look, entries[j].0) && out == arm_leaf(entries[j].1));
            } else if e == entries.len() {
                assert forall|j: int| 0 <= j < entries.len() implies !begins(
                    look,
                    #[trigger] entries[j].0,
                ) by {
                    if begins(look, entries[j].0) {
                        assert(deeper[j] == entries[j]);
                        assert(entries[j].0.len() != d);
                        assert(deeper.contains(deeper[j]));
                        assert(sub.contains(entries[j]));
                        let m = choose|m: int| 0 <= m < sub.len() && sub[m] == entries[j];
                        assert(begins(look, sub[m].0));
                    }
                }
            } else {
                assert(out == default);
            }
        } else {
            assert(decided(tree, look) == default);
            if e == entries.len() {
                assert forall|j: int| 0 <= j < entries.len() implies !begins(
                    look,
                    #[trigger] entries[j].0,
                ) by {
                    assert(deeper[j] == entries[j]);
                }
            }
        }
    }
}

/// The tree of some arms takes an arm exactly where the lookahead begins with
/// a sequence of some arm's FIRST set, and then one of those arms; elsewhere
/// it does what "no arm matched" asks for. Sequences are at most as long as a
/// switch can count.
pub proof fn law_dispatch_follows_first_sets(
    arms: Seq<(FirstSetId, StateId)>,
    pool: Seq<FirstSet>,
    has_eps: bool,
    look: Seq<u16>,
)
    requires
        longest(arm_entries(arms, pool)) <= 256,
    ensures
        ({
            let entries = arm_entries(arms, pool);
            let d = decided(dispatch_tree(arms, pool, has_eps), look);
            ||| d == outer_default(has_eps) && forall|i: int|
                0 <= i < entries.len() ==> !begins(look, #[trigger] entries[i].0)
            ||| exists|i: int|
                0 <= i < entries.len() && begins(look, #[trigger] entries[i].0) && d == arm_leaf(
                    entries[i].1,
                )
        }),
{
    let entries = arm_entries(arms, pool);
    lemma_longest(entries);
    lemma_decided(entries, 0, outer_default(has_eps), longest(entries), look);
}

/// Where the sequences that the lookahead begins with all belong to one arm,
/// the tree takes that arm.
pub proof fn law_dispatch_unique(
    arms: Seq<(FirstSetId, StateId)>,
    pool: Seq<FirstSet>,
    has_eps: bool,
    look: Seq<u16>,
    i: int,
)
    requires
        longest(arm_entries(arms, pool)) <= 256,
        0 <= i < arm_entries(arms, pool).len(),
        begins(look, arm_entries(arms, pool)[i].0),
        forall|j: int|
            0 <= j < arm_entries(arms, pool).len() && begins(
                look,
                #[trigger] arm_entries(arms, pool)[j].0,
            ) ==> arm_entries(arms, pool)[j].1 == arm_entries(arms, pool)[i].1,
    ensures
        decided(dispatch_tree(arms, pool, has_eps), look) == arm_leaf(
            arm_entries(arms, pool)[i].1,
        ),
{
    law_dispatch_follows_first_sets(arms, pool, has_eps, look);
}

/// The number of leaves of a tree and how many switches deep it is.
pub open spec fn metrics(tree: TreeView) -> (nat, nat)
    decreases tree, 0nat,
{
    match tree {
        TreeView::Leaf(_) => (1, 0),
        TreeView::Switch(_, _, subs, _) => {
            let m = metrics_all(subs, subs.len());
            (m.0 + 1, m.1 + 1)
        },
    }
}

/// The leaves of the first `n` trees together and the depth of the deepest.
pub open spec fn metrics_all(subs: Seq<TreeView>, n: nat) -> (nat, nat)
    decreases subs, n,
{
    if n == 0 || n > subs.len() {
        (0, 0)
    } else {
        let before = metrics_all(subs, (n - 1) as nat);
        let here = metrics(subs[n - 1]);
        (
            before.0 + here.0,
            if here.1 > before.1 {
                here.1
            } else {
                before.1
            },
        )
    }
}

/// The number of leaves of a tree, a switch's default counted as one, and the
/// number of switches on its longest path. Counts saturate.
pub fn tree_metrics(tree: &DispatchTree) -> (r: (usize, usize))
    ensures
        r.0 == if metrics(tree@).0 <= usize::MAX { metrics(tree@).0 as int } else {
            usize::MAX as int
        },
        r.1 == if metrics(tree@).1 <= usize::MAX { metrics(tree@).1 as int } else {
            usize::MAX as int
        },
    decreases tree,
{
    match tree {
        DispatchTree::Leaf(_) => (1, 0),
        DispatchTree::Switch { depth: _, arms, default: _ } => {
            let (l, d) = arm_metrics(arms);
            (l.saturating_add(1), d.saturating_add(1))
        },
    }
}

fn arm_metrics(arms: &Vec<(u16, DispatchTree)>) -> (r: (usize, usize))
    ensures
        ({
            let m = metrics_all(table::arm_trees(arms@), arms@.len());
            &&& r.0 == if m.0 <= usize::MAX { m.0 as int } else { usize::MAX as int }
            &&& r.1 == if m.1 <= usize::MAX { m.1 as int } else { usize::MAX as int }
        }),
    decreases arms,
{
    let ghost subs = table::arm_trees(arms@);
    let mut leaves: usize = 0;
    let mut deepest: usize = 0;
    let mut i: usize = 0;
    while i < arms.len()
        invariant
            i <= arms@.len(),
            subs == table::arm_trees(arms@),
            ({
                let m = metrics_all(subs, i as nat);
                &&& leaves == if m.0 <= usize::MAX { m.0 as int } else { usize::MAX as int }
                &&& deepest == if m.1 <= usize::MAX { m.1 as int } else { usize::MAX as int }
            }),
        decreases arms@.len() - i,
    {
        let (l, d) = tree_metrics(&arms[i].1);
        assert(subs[i as int] == arms@[i as int].1@);
        leaves = leaves.saturating_add(l);
        if d > deepest {
            deepest = d;
        }
        i += 1;
    }
    (leaves, deepest)
}

} // verus!
