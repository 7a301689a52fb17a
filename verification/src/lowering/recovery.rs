//! Dispatch insertion-recovery analysis.
use vstd::prelude::*;

use crate::lowering::optimize;
use crate::lowering::state_first::{self, Firsts, StateFirsts};
use crate::lowering::table::{
    self, Body, BodyView, DispatchLeaf, DispatchTree, Instr, InstrView, LeafView, State, StateId,
    StateMap, StateTable, StateView, Tail, TailView, TreeView,
};
use crate::names::Rank;
use crate::ordered;
use crate::sorting;

verus! {

/// How a parser goes on after a missing token was reported.
#[derive(Clone, Copy, Debug, PartialEq, Eq, Structural)]
pub enum PostFirst {
    /// Go to the state.
    Jump(StateId),
    /// Push a return state, then go to the other.
    PushRetAndJump {
        /// The return state.
        push: StateId,
        /// Where to go.
        jump: StateId,
    },
    /// Return to the caller.
    Ret,
}

/// One class of lookahead kinds that a dispatch recovers from in the same way:
/// by taking the first token of an arm as inserted.
#[derive(Debug, PartialEq, Eq)]
pub struct Insertion {
    /// The first token of every arm of the dispatch. The same on every entry
    /// of a dispatch.
    pub candidate_kinds: Vec<u16>,
    /// The lookahead kinds of this class, in ascending order. No kind is in
    /// two entries of a dispatch.
    pub kinds_to_match: Vec<u16>,
    /// How to go on after the error.
    pub post_first: PostFirst,
}

/// What an [`Insertion`] says.
pub ghost struct InsertionView {
    pub candidate_kinds: Seq<u16>,
    pub kinds_to_match: Seq<u16>,
    pub post_first: PostFirst,
}

impl View for Insertion {
    type V = InsertionView;

    open spec fn view(&self) -> InsertionView {
        InsertionView {
            candidate_kinds: self.candidate_kinds@,
            kinds_to_match: self.kinds_to_match@,
            post_first: self.post_first,
        }
    }
}

/// What the insertions say.
pub open spec fn insertions_view(v: Seq<Insertion>) -> Seq<InsertionView> {
    Seq::new(v.len(), |i: int| v[i]@)
}

/// True iff the two lists hold the same kinds.
pub(crate) fn same_kinds(a: &Vec<u16>, b: &Vec<u16>) -> (r: bool)
    ensures
        r == (a@ == b@),
{
    if a.len() != b.len() {
        return false;
    }
    let mut i: usize = 0;
    while i < a.len()
        invariant
            i <= a@.len(),
            a@.len() == b@.len(),
            forall|k: int| 0 <= k < i ==> a@[k] == b@[k],
        decreases a@.len() - i,
    {
        if a[i] != b[i] {
            return false;
        }
        i += 1;
    }
    assert(a@ =~= b@);
    true
}

impl Clone for Insertion {
    fn clone(&self) -> (r: Self)
        ensures
            r@ == self@,
    {
        Insertion {
            candidate_kinds: sorting::clone_kinds(&self.candidate_kinds),
            kinds_to_match: sorting::clone_kinds(&self.kinds_to_match),
            post_first: self.post_first,
        }
    }
}

/// Copies of the insertions.
pub(crate) fn clone_insertions(v: &Vec<Insertion>) -> (r: Vec<Insertion>)
    ensures
        insertions_view(r@) == insertions_view(v@),
{
    let mut r: Vec<Insertion> = Vec::new();
    let mut i: usize = 0;
    while i < v.len()
        invariant
            i <= v@.len(),
            r@.len() == i,
            forall|k: int| 0 <= k < i ==> (#[trigger] r@[k])@ == v@[k]@,
        decreases v@.len() - i,
    {
        r.push(v[i].clone());
        i += 1;
    }
    assert(insertions_view(r@) =~= insertions_view(v@));
    r
}

/// True iff the two say the same.
pub(crate) fn same_insertions(a: &Vec<Insertion>, b: &Vec<Insertion>) -> (r: bool)
    ensures
        r == (insertions_view(a@) == insertions_view(b@)),
{
    let ghost av = insertions_view(a@);
    let ghost bv = insertions_view(b@);
    if a.len() != b.len() {
        assert(av.len() != bv.len());
        return false;
    }
    let mut i: usize = 0;
    while i < a.len()
        invariant
            i <= a@.len(),
            a@.len() == b@.len(),
            av == insertions_view(a@),
            bv == insertions_view(b@),
            forall|k: int| 0 <= k < i ==> #[trigger] av[k] == bv[k],
        decreases a@.len() - i,
    {
        let same = same_kinds(&a[i].candidate_kinds, &b[i].candidate_kinds) && same_kinds(
            &a[i].kinds_to_match,
            &b[i].kinds_to_match,
        ) && a[i].post_first == b[i].post_first;
        assert(same == (av[i as int] == bv[i as int]));
        if !same {
            return false;
        }
        i += 1;
    }
    assert(av =~= bv);
    true
}

/// An arm whose first token can be taken as inserted: that token, the kinds
/// that can come after it, and how to go on.
pub ghost struct Candidate {
    pub primary: u16,
    pub kinds: Set<u16>,
    pub post: PostFirst,
}

/// The kinds that a rule can be followed by.
pub open spec fn follows(st: StateTable, rule: Seq<char>) -> Set<u16> {
    if st.rule_sync@.contains_key(rule) && st.rule_sync@[rule] < st.sync_sets@.len() {
        st.sync_sets@[st.rule_sync@[rule] as int].kinds@.to_set()
    } else {
        Set::empty()
    }
}

/// How to go on behind the first token of an arm.
pub open spec fn post_of(tail: TailView, cont: Option<u32>) -> Option<PostFirst> {
    match (tail, cont) {
        (TailView::Jump(n), Some(c)) => Some(PostFirst::PushRetAndJump { push: c, jump: n }),
        (TailView::Jump(n), None) => Some(PostFirst::Jump(n)),
        (TailView::Ret, Some(c)) => Some(PostFirst::Jump(c)),
        (TailView::Ret, None) => Some(PostFirst::Ret),
        _ => None,
    }
}

/// The kinds that can come next when the parser goes on that way.
pub open spec fn post_kinds(st: StateTable, f: Firsts, rule: Seq<char>, post: PostFirst) -> Set<
    u16,
> {
    match post {
        PostFirst::Jump(n) => state_first::at(f, n),
        PostFirst::PushRetAndJump { push: _, jump } => state_first::at(f, jump),
        PostFirst::Ret => follows(st, rule),
    }
}

/// How many of the rules that the instructions enter are still open behind
/// them. What a return state was pushed for is left from there.
pub open spec fn left_open(l: Seq<InstrView>) -> nat
    decreases l.len(),
{
    if l.len() == 0 {
        0
    } else {
        let before = left_open(l.drop_last());
        match l.last() {
            InstrView::Enter(_) => before + 1,
            InstrView::Exit(_) => if before > 0 {
                (before - 1) as nat
            } else {
                0
            },
            InstrView::Expect(_, _, _, _) => before,
            InstrView::PushRet(_) => 0,
        }
    }
}

/// What an arm offers, if its first token can be taken as inserted. An arm
/// that is inside a rule behind its instructions is not gone on with: the rule
/// would be left without having been entered.
pub open spec fn candidate(
    st: StateTable,
    f: Firsts,
    rule: Seq<char>,
    primary: u16,
    sub: TreeView,
    cont: Option<u32>,
) -> Option<Candidate> {
    match sub {
        TreeView::Leaf(LeafView::Arm(b)) => match post_of(b.tail, cont) {
            Some(post) => if post_kinds(st, f, rule, post) == Set::<u16>::empty() {
                None
            } else {
                let kinds = if left_open(b.instrs) > 0 {
                    Set::empty()
                } else {
                    post_kinds(st, f, rule, post)
                };
                Some(Candidate { primary, kinds, post })
            },
            None => None,
        },
        _ => None,
    }
}

/// What the first `n` arms offer.
pub open spec fn candidates(
    st: StateTable,
    f: Firsts,
    rule: Seq<char>,
    kinds: Seq<u16>,
    subs: Seq<TreeView>,
    cont: Option<u32>,
    n: nat,
) -> Seq<Candidate>
    decreases n,
{
    if n == 0 || n > subs.len() {
        Seq::empty()
    } else {
        let before = candidates(st, f, rule, kinds, subs, cont, (n - 1) as nat);
        match candidate(st, f, rule, kinds[n - 1], subs[n - 1], cont) {
            Some(c) => before.push(c),
            None => before,
        }
    }
}

/// The first tokens of the arms.
pub open spec fn primaries(arms: Seq<Candidate>) -> Seq<u16> {
    Seq::new(arms.len(), |i: int| arms[i].primary)
}

/// The positions, out of the first `n`, of the arms that can go on with the
/// kind.
pub open spec fn covers(arms: Seq<Candidate>, k: u16, n: nat) -> Seq<usize>
    decreases n,
{
    if n == 0 || n > arms.len() {
        Seq::empty()
    } else {
        let before = covers(arms, k, (n - 1) as nat);
        if arms[n - 1].kinds.contains(k) {
            before.push((n - 1) as usize)
        } else {
            before
        }
    }
}

/// The kind starts no arm, and some arm can go on with it.
pub open spec fn covered(arms: Seq<Candidate>, k: u16) -> bool {
    !primaries(arms).contains(k) && covers(arms, k, arms.len()).len() > 0
}

/// The covered kinds below `n`, in ascending order.
pub open spec fn covered_below(arms: Seq<Candidate>, n: nat) -> Seq<u16>
    decreases n,
{
    if n == 0 {
        Seq::empty()
    } else {
        let before = covered_below(arms, (n - 1) as nat);
        if covered(arms, (n - 1) as u16) {
            before.push((n - 1) as u16)
        } else {
            before
        }
    }
}

/// The kinds of the list that exactly the given arms can go on with.
pub open spec fn sharing(arms: Seq<Candidate>, l: Seq<u16>, sig: Seq<usize>) -> Seq<u16>
    decreases l.len(),
{
    if l.len() == 0 {
        l
    } else if covers(arms, l.last(), arms.len()) == sig {
        sharing(arms, l.drop_last(), sig).push(l.last())
    } else {
        sharing(arms, l.drop_last(), sig)
    }
}

/// The sets of arms that some kind of the list has, in ascending order.
pub open spec fn signatures(arms: Seq<Candidate>, l: Seq<u16>) -> Seq<Seq<usize>> {
    sorting::set_by(
        Seq::new(l.len(), |i: int| covers(arms, l[i], arms.len())),
        sorting::indices_order(),
    )
}

/// The classes of kinds: those that the same arms can go on with. The first of
/// these arms says how to go on.
pub open spec fn partitioned(arms: Seq<Candidate>) -> Seq<InsertionView> {
    let all = covered_below(arms, 0x1_0000);
    let sigs = signatures(arms, all);
    Seq::new(
        sigs.len(),
        |i: int|
            InsertionView {
                candidate_kinds: primaries(arms),
                kinds_to_match: sharing(arms, all, sigs[i]),
                post_first: arms[sigs[i][0] as int].post,
            },
    )
}

/// The insertions of a dispatch. They are for a tree that begins by asking
/// for the next token.
pub open spec fn tree_insertions(
    st: StateTable,
    f: Firsts,
    rule: Seq<char>,
    tree: TreeView,
    cont: Option<u32>,
) -> Seq<InsertionView> {
    match tree {
        TreeView::Switch(depth, kinds, subs, _) => if depth == 0 {
            partitioned(candidates(st, f, rule, kinds, subs, cont, subs.len()))
        } else {
            Seq::empty()
        },
        _ => Seq::empty(),
    }
}

/// The body with the insertions of every dispatch in it.
pub open spec fn body_stamped(st: StateTable, f: Firsts, rule: Seq<char>, b: BodyView) -> BodyView
    decreases b, 1nat,
{
    BodyView { instrs: b.instrs, tail: tail_stamped(st, f, rule, b.tail) }
}

/// The end of a body with its insertions.
pub open spec fn tail_stamped(st: StateTable, f: Firsts, rule: Seq<char>, t: TailView) -> TailView
    decreases t, 0nat,
{
    match t {
        TailView::Jump(_) => t,
        TailView::Ret => t,
        TailView::Star(x, b, c, h) => TailView::Star(
            x,
            Box::new(body_stamped(st, f, rule, *b)),
            c,
            h,
        ),
        TailView::Opt(x, b, c) => TailView::Opt(x, Box::new(body_stamped(st, f, rule, *b)), c),
        TailView::Dispatch(tree, s, c, _) => TailView::Dispatch(
            tree_stamped(st, f, rule, tree),
            s,
            c,
            tree_insertions(st, f, rule, tree, c),
        ),
    }
}

/// The leaf with the insertions in it.
pub open spec fn leaf_stamped(st: StateTable, f: Firsts, rule: Seq<char>, l: LeafView) -> LeafView
    decreases l, 0nat,
{
    match l {
        LeafView::Arm(b) => LeafView::Arm(Box::new(body_stamped(st, f, rule, *b))),
        _ => l,
    }
}

/// The tree with the insertions in its arms.
pub open spec fn tree_stamped(st: StateTable, f: Firsts, rule: Seq<char>, t: TreeView) -> TreeView
    decreases t, 0nat,
{
    match t {
        TreeView::Leaf(l) => TreeView::Leaf(leaf_stamped(st, f, rule, l)),
        TreeView::Switch(d, kinds, subs, default) => TreeView::Switch(
            d,
            kinds,
            trees_stamped(st, f, rule, subs),
            leaf_stamped(st, f, rule, default),
        ),
    }
}

/// The trees with the insertions in their arms.
pub open spec fn trees_stamped(
    st: StateTable,
    f: Firsts,
    rule: Seq<char>,
    subs: Seq<TreeView>,
) -> Seq<TreeView>
    decreases subs, 0nat,
{
    Seq::new(
        subs.len(),
        |i: int|
            if 0 <= i < subs.len() {
                tree_stamped(st, f, rule, subs[i])
            } else {
                TreeView::Leaf(LeafView::Error)
            },
    )
}

/// Each state with its insertions.
pub open spec fn stamped(st: StateTable, f: Firsts) -> Seq<StateView> {
    let states = st.states@;
    Seq::new(
        states.len(),
        |i: int|
            optimize::with_body(
                states[i],
                body_stamped(st, f, states[i].rule, states[i].body),
            ),
    )
}

/// An arm whose first token can be taken as inserted.
struct ArmCandidate {
    primary_kind: u16,
    kinds: Vec<u16>,
    post_first: PostFirst,
}

impl ArmCandidate {
    spec fn view(self) -> Candidate {
        Candidate {
            primary: self.primary_kind,
            kinds: self.kinds@.to_set(),
            post: self.post_first,
        }
    }
}

spec fn arms_view(v: Seq<ArmCandidate>) -> Seq<Candidate> {
    Seq::new(v.len(), |i: int| v[i]@)
}

fn has_kind(l: &Vec<u16>, k: u16) -> (r: bool)
    ensures
        r == l@.contains(k),
{
    let mut i: usize = 0;
    while i < l.len()
        invariant
            i <= l@.len(),
            forall|m: int| 0 <= m < i ==> #[trigger] l@[m] != k,
        decreases l@.len() - i,
    {
        if l[i] == k {
            return true;
        }
        i += 1;
    }
    false
}

/// The positions of the arms that can go on with the kind.
fn covering(arms: &Vec<ArmCandidate>, k: u16) -> (r: Vec<usize>)
    ensures
        r@ == covers(arms_view(arms@), k, arms@.len()),
{
    let ghost av = arms_view(arms@);
    let mut r: Vec<usize> = Vec::new();
    let mut i: usize = 0;
    while i < arms.len()
        invariant
            i <= arms@.len(),
            av == arms_view(arms@),
            r@ == covers(av, k, i as nat),
        decreases arms@.len() - i,
    {
        assert(av[i as int] == arms@[i as int]@);
        if has_kind(&arms[i].kinds, k) {
            r.push(i);
        }
        i += 1;
    }
    r
}

proof fn lemma_covers_some(arms: Seq<Candidate>, k: u16, n: nat)
    requires
        n <= arms.len(),
        n <= usize::MAX,
    ensures
        covers(arms, k, n).len() > 0 <==> exists|i: int|
            0 <= i < n && (#[trigger] arms[i]).kinds.contains(k),
        forall|j: int|
            0 <= j < covers(arms, k, n).len() ==> (#[trigger] covers(arms, k, n)[j]) < n
                && arms[covers(arms, k, n)[j] as int].kinds.contains(k),
    decreases n,
{
    if n > 0 {
        lemma_covers_some(arms, k, (n - 1) as nat);
        if arms[n - 1].kinds.contains(k) {
            assert(arms[n - 1].kinds.contains(k));
        }
    }
}

/// The list of covered kinds is in order and complete.
proof fn lemma_covered_below(arms: Seq<Candidate>, n: nat)
    requires
        n <= 0x1_0000,
    ensures
        ordered::strict16(covered_below(arms, n)),
        forall|k: u16| #[trigger] covered_below(arms, n).contains(k) <==> k < n && covered(arms, k),
        forall|i: int| 0 <= i < covered_below(arms, n).len() ==> (#[trigger] covered_below(
            arms,
            n,
        )[i]) < n,
    decreases n,
{
    if n > 0 {
        lemma_covered_below(arms, (n - 1) as nat);
        let p = covered_below(arms, (n - 1) as nat);
        let r = covered_below(arms, n);
        assert forall|k: u16| #[trigger] r.contains(k) <==> k < n && covered(arms, k) by {
            if p.contains(k) {
                let j = choose|j: int| 0 <= j < p.len() && p[j] == k;
                assert(r[j] == k);
            }
            if r.contains(k) {
                let j = choose|j: int| 0 <= j < r.len() && r[j] == k;
                if j < p.len() {
                    assert(p[j] == k);
                    assert(p.contains(k));
                }
            }
            if k == n - 1 && covered(arms, k) {
                assert(r[p.len() as int] == k);
            }
        }
    }
}

/// Every covered kind, in ascending order.
fn covered_kinds(arms: &Vec<ArmCandidate>, primary: &Vec<u16>) -> (r: Vec<u16>)
    requires
        primary@ == primaries(arms_view(arms@)),
    ensures
        r@ == covered_below(arms_view(arms@), 0x1_0000),
{
    let ghost av = arms_view(arms@);
    let mut r: Vec<u16> = Vec::new();
    let mut i: usize = 0;
    while i < arms.len()
        invariant
            i <= arms@.len(),
            av == arms_view(arms@),
            primary@ == primaries(av),
            ordered::strict16(r@),
            forall|k: u16| #[trigger]
                r@.contains(k) <==> !primary@.contains(k) && exists|m: int|
                    0 <= m < i && (#[trigger] av[m]).kinds.contains(k),
        decreases arms@.len() - i,
    {
        let kinds = &arms[i].kinds;
        let ghost before = r@;
        let mut j: usize = 0;
        while j < kinds.len()
            invariant
                j <= kinds@.len(),
                ordered::strict16(r@),
                forall|k: u16| #[trigger]
                    r@.contains(k) <==> before.contains(k) || (!primary@.contains(k) && exists|m: int|
                        0 <= m < j && #[trigger] kinds@[m] == k),
            decreases kinds@.len() - j,
        {
            let k = kinds[j];
            let ghost mid = r@;
            if !has_kind(primary, k) {
                ordered::insert_u16(&mut r, k);
            }
            proof {
                assert forall|x: u16| #[trigger] r@.contains(x) <==> before.contains(x) || (
                !primary@.contains(x) && exists|m: int| 0 <= m < j + 1 && #[trigger] kinds@[m] == x) by {
                    if mid.contains(x) && !before.contains(x) {
                        let m = choose|m: int| 0 <= m < j && #[trigger] kinds@[m] == x;
                        assert(kinds@[m] == x);
                    }
                    if r@.contains(x) && !mid.contains(x) {
                        assert(kinds@[j as int] == x);
                    }
                    if !primary@.contains(x) && exists|m: int|
                        0 <= m < j + 1 && #[trigger] kinds@[m] == x {
                        let m = choose|m: int| 0 <= m < j + 1 && #[trigger] kinds@[m] == x;
                        if m < j {
                            assert(mid.contains(x));
                        }
                    }
                }
            }
            j += 1;
        }
        proof {
            assert(av[i as int] == arms@[i as int]@);
            assert forall|k: u16| #[trigger] r@.contains(k) <==> !primary@.contains(k) && exists|
                m: int,
            |
                0 <= m < i + 1 && (#[trigger] av[m]).kinds.contains(k) by {
                if before.contains(k) {
                    let m = choose|m: int| 0 <= m < i && (#[trigger] av[m]).kinds.contains(k);
                    assert(av[m].kinds.contains(k));
                }
                if r@.contains(k) && !before.contains(k) {
                    let m = choose|m: int| 0 <= m < kinds@.len() && #[trigger] kinds@[m] == k;
                    assert(kinds@.contains(k));
                    assert(av[i as int].kinds.contains(k));
                }
                if !primary@.contains(k) && exists|m: int|
                    0 <= m < i + 1 && (#[trigger] av[m]).kinds.contains(k) {
                    let m = choose|m: int| 0 <= m < i + 1 && (#[trigger] av[m]).kinds.contains(k);
                    if m < i {
                        assert(before.contains(k));
                    } else {
                        assert(kinds@.contains(k));
                        let q = choose|q: int| 0 <= q < kinds@.len() && kinds@[q] == k;
                        assert(kinds@[q] == k);
                    }
                }
            }
        }
        i += 1;
    }
    proof {
        assert(arms.len() <= usize::MAX);
        lemma_covered_below(av, 0x1_0000);
        assert forall|k: u16| #[trigger] r@.contains(k) <==> covered_below(av, 0x1_0000).contains(k) by {
            lemma_covers_some(av, k, av.len());
            assert(covered_below(av, 0x1_0000).contains(k) <==> covered(av, k));
        }
        ordered::lemma_strict16_unique(r@, covered_below(av, 0x1_0000));
    }
    r
}

/// Splits the kinds that can come behind an inserted token into classes.
fn partition(arms: &Vec<ArmCandidate>) -> (r: Vec<Insertion>)
    ensures
        insertions_view(r@) == partitioned(arms_view(arms@)),
{
    let ghost av = arms_view(arms@);
    let mut primary: Vec<u16> = Vec::new();
    let mut i: usize = 0;
    while i < arms.len()
        invariant
            i <= arms@.len(),
            av == arms_view(arms@),
            primary@ == primaries(av).take(i as int),
        decreases arms@.len() - i,
    {
        primary.push(arms[i].primary_kind);
        assert(primaries(av).take(i + 1) =~= primaries(av).take(i as int).push(av[i as int].primary));
        i += 1;
    }
    assert(primary@ =~= primaries(av));
    let all = covered_kinds(arms, &primary);
    let ghost list = Seq::new(all@.len(), |m: int| covers(av, all@[m], av.len()));
    let ghost less = sorting::indices_order();
    let mut sigs: Vec<Vec<usize>> = Vec::new();
    let mut n: usize = 0;
    assert(list.take(0) =~= Seq::<Seq<usize>>::empty());
    assert(sorting::index_lists(sigs@) =~= sorting::set_by(list.take(0), less));
    while n < all.len()
        invariant
            n <= all@.len(),
            av == arms_view(arms@),
            less == sorting::indices_order(),
            list == Seq::new(all@.len(), |m: int| covers(av, all@[m], av.len())),
            sorting::index_lists(sigs@) == sorting::set_by(list.take(n as int), less),
        decreases all@.len() - n,
    {
        sorting::put_indices(&mut sigs, covering(arms, all[n]));
        assert(list.take(n + 1).drop_last() =~= list.take(n as int));
        n += 1;
    }
    assert(list.take(n as int) =~= list);
    let ghost sv = signatures(av, all@);
    assert(sorting::index_lists(sigs@) == sv);
    proof {
        assert(arms.len() <= usize::MAX);
        lemma_covered_below(av, 0x1_0000);
        sorting::lemma_indices_set(list);
        assert forall|m: int| 0 <= m < sv.len() implies (#[trigger] sv[m]).len() > 0 && sv[m][0]
            < av.len() by {
            assert(sv.contains(sv[m]));
            let q = choose|q: int| 0 <= q < list.len() && list[q] == sv[m];
            assert(all@.contains(all@[q]));
            lemma_covers_some(av, all@[q], av.len());
            let c = covers(av, all@[q], av.len());
            assert(c[0] < av.len());
        }
    }
    let ghost want = partitioned(av);
    let mut r: Vec<Insertion> = Vec::new();
    let mut g: usize = 0;
    while g < sigs.len()
        invariant
            g <= sigs@.len(),
            av == arms_view(arms@),
            primary@ == primaries(av),
            all@ == covered_below(av, 0x1_0000),
            sv == signatures(av, all@),
            sorting::index_lists(sigs@) == sv,
            forall|m: int| 0 <= m < sv.len() ==> (#[trigger] sv[m]).len() > 0 && sv[m][0] < av.len(),
            want == partitioned(av),
            r@.len() == g,
            forall|m: int| 0 <= m < g ==> (#[trigger] r@[m])@ == want[m],
        decreases sigs@.len() - g,
    {
        let sig = &sigs[g];
        let ghost gv = sv[g as int];
        assert(gv == sig@);
        let mut kinds: Vec<u16> = Vec::new();
        let mut q: usize = 0;
        assert(all@.take(0) =~= Seq::<u16>::empty());
        while q < all.len()
            invariant
                q <= all@.len(),
                av == arms_view(arms@),
                gv == sig@,
                kinds@ == sharing(av, all@.take(q as int), gv),
            decreases all@.len() - q,
        {
            assert(all@.take(q + 1).drop_last() =~= all@.take(q as int));
            let c = covering(arms, all[q]);
            if sorting::rank_indices(&c, sig) == Rank::Same {
                kinds.push(all[q]);
            }
            q += 1;
        }
        assert(all@.take(q as int) =~= all@);
        let first = sig[0];
        assert(av[first as int] == arms@[first as int]@);
        r.push(
            Insertion {
                candidate_kinds: sorting::clone_kinds(&primary),
                kinds_to_match: kinds,
                post_first: arms[first].post_first,
            },
        );
        g += 1;
    }
    assert(insertions_view(r@) =~= want);
    r
}

/// What an arm offers, if its first token can be taken as inserted.
fn extract(
    primary_kind: u16,
    rule: &str,
    st: &StateTable,
    firsts: &StateFirsts,
    sub: &DispatchTree,
    cont: Option<StateId>,
) -> (r: Option<ArmCandidate>)
    requires
        firsts.wf(),
        st.rule_sync.wf(),
    ensures
        match r {
            Some(c) => candidate(*st, firsts@, rule@, primary_kind, sub@, cont) == Some(c@),
            None => candidate(*st, firsts@, rule@, primary_kind, sub@, cont) is None,
        },
{
    let body = match sub {
        DispatchTree::Leaf(DispatchLeaf::Arm(b)) => b,
        _ => {
            return None;
        },
    };
    let post_first = match (&body.tail, cont) {
        (Tail::Jump(n), Some(c)) => PostFirst::PushRetAndJump { push: c, jump: *n },
        (Tail::Jump(n), None) => PostFirst::Jump(*n),
        (Tail::Ret, Some(c)) => PostFirst::Jump(c),
        (Tail::Ret, None) => PostFirst::Ret,
        _ => {
            return None;
        },
    };
    assert(post_of(body@.tail, cont) == Some(post_first));
    let kinds = match post_first {
        PostFirst::Jump(n) => first_copy(firsts, n),
        PostFirst::PushRetAndJump { push: _, jump } => first_copy(firsts, jump),
        PostFirst::Ret => follow_copy(st, rule),
    };
    proof {
        if kinds@.len() == 0 {
            assert(kinds@.to_set() =~= Set::<u16>::empty());
        } else {
            assert(kinds@.contains(kinds@[0]));
            assert(kinds@.to_set().contains(kinds@[0]));
        }
    }
    if kinds.len() == 0 {
        return None;
    }
    if count_open(&body.instrs) > 0 {
        let none: Vec<u16> = Vec::new();
        assert(none@.to_set() =~= Set::<u16>::empty());
        return Some(ArmCandidate { primary_kind, kinds: none, post_first });
    }
    Some(ArmCandidate { primary_kind, kinds, post_first })
}

fn count_open(l: &Vec<Instr>) -> (n: usize)
    ensures
        n == left_open(table::instrs_view(l@)),
{
    let ghost v = table::instrs_view(l@);
    let mut n: usize = 0;
    let mut i: usize = 0;
    assert(v.take(0) =~= Seq::empty());
    while i < l.len()
        invariant
            i <= l@.len(),
            n <= i,
            v == table::instrs_view(l@),
            n == left_open(v.take(i as int)),
        decreases l@.len() - i,
    {
        proof {
            assert(v.take(i + 1).drop_last() =~= v.take(i as int));
            assert(v.take(i + 1).last() == l@[i as int]@);
        }
        match &l[i] {
            Instr::Enter(_) => {
                n += 1;
            },
            Instr::Exit(_) => {
                if n > 0 {
                    n -= 1;
                }
            },
            Instr::Expect { .. } => {},
            Instr::PushRet(_) => {
                n = 0;
            },
        }
        i += 1;
    }
    assert(v.take(v.len() as int) =~= v);
    n
}

fn first_copy(firsts: &StateFirsts, id: StateId) -> (r: Vec<u16>)
    requires
        firsts.wf(),
    ensures
        r@.to_set() == state_first::at(firsts@, id),
{
    match firsts.get(&id) {
        Some(l) => sorting::clone_kinds(l),
        None => {
            let r: Vec<u16> = Vec::new();
            assert(r@.to_set() =~= Set::<u16>::empty());
            r
        },
    }
}

fn follow_copy(st: &StateTable, rule: &str) -> (r: Vec<u16>)
    requires
        st.rule_sync.wf(),
    ensures
        r@.to_set() == follows(*st, rule@),
{
    let none: Vec<u16> = Vec::new();
    assert(none@.to_set() =~= Set::<u16>::empty());
    match st.rule_sync.get(rule) {
        Some(sid) => {
            let id = *sid as usize;
            if id < st.sync_sets.len() {
                sorting::clone_kinds(&st.sync_sets[id].kinds)
            } else {
                none
            }
        },
        None => none,
    }
}

/// The insertions of a dispatch.
fn collect_for_tree(
    rule: &str,
    st: &StateTable,
    firsts: &StateFirsts,
    tree: &DispatchTree,
    cont: Option<StateId>,
) -> (r: Vec<Insertion>)
    requires
        firsts.wf(),
        st.rule_sync.wf(),
    ensures
        insertions_view(r@) == tree_insertions(*st, firsts@, rule@, tree@, cont),
{
    let none: Vec<Insertion> = Vec::new();
    assert(insertions_view(none@) =~= Seq::<InsertionView>::empty());
    match tree {
        DispatchTree::Switch { depth, arms, default: _ } => {
            if *depth != 0 {
                return none;
            }
            let ghost kinds = table::arm_kinds(arms@);
            let ghost subs = table::arm_trees(arms@);
            assert(tree@->Switch_1 == kinds && tree@->Switch_2 == subs);
            let mut data: Vec<ArmCandidate> = Vec::new();
            let mut i: usize = 0;
            assert(arms_view(data@) =~= Seq::<Candidate>::empty());
            while i < arms.len()
                invariant
                    i <= arms@.len(),
                    firsts.wf(),
                    st.rule_sync.wf(),
                    kinds == table::arm_kinds(arms@),
                    subs == table::arm_trees(arms@),
                    arms_view(data@) == candidates(
                        *st,
                        firsts@,
                        rule@,
                        kinds,
                        subs,
                        cont,
                        i as nat,
                    ),
                decreases arms@.len() - i,
            {
                assert(subs[i as int] == arms@[i as int].1@);
                if let Some(c) = extract(arms[i].0, rule, st, firsts, &arms[i].1, cont) {
                    let ghost before = data@;
                    let ghost cv = c@;
                    data.push(c);
                    assert(arms_view(data@) =~= arms_view(before).push(cv));
                }
                i += 1;
            }
            partition(&data)
        },
        _ => none,
    }
}

fn stamp_body(b: &Body, rule: &str, st: &StateTable, firsts: &StateFirsts) -> (r: Body)
    requires
        firsts.wf(),
        st.rule_sync.wf(),
    ensures
        r@ == body_stamped(*st, firsts@, rule@, b@),
    decreases b, 1nat,
{
    Body { instrs: table::clone_instrs(&b.instrs), tail: stamp_tail(&b.tail, rule, st, firsts) }
}

fn stamp_tail(t: &Tail, rule: &str, st: &StateTable, firsts: &StateFirsts) -> (r: Tail)
    requires
        firsts.wf(),
        st.rule_sync.wf(),
    ensures
        r@ == tail_stamped(*st, firsts@, rule@, t@),
    decreases t, 0nat,
{
    match t {
        Tail::Jump(s) => Tail::Jump(*s),
        Tail::Ret => Tail::Ret,
        Tail::Star { first, body, cont, head } => Tail::Star {
            first: *first,
            body: Box::new(stamp_body(body, rule, st, firsts)),
            cont: *cont,
            head: *head,
        },
        Tail::Opt { first, body, cont } => Tail::Opt {
            first: *first,
            body: Box::new(stamp_body(body, rule, st, firsts)),
            cont: *cont,
        },
        Tail::Dispatch { tree, sync, cont, insertions: _ } => {
            let insertions = collect_for_tree(rule, st, firsts, tree, *cont);
            Tail::Dispatch {
                tree: stamp_dispatch_subtrees(tree, rule, st, firsts),
                sync: *sync,
                cont: *cont,
                insertions,
            }
        },
    }
}

fn stamp_leaf(l: &DispatchLeaf, rule: &str, st: &StateTable, firsts: &StateFirsts) -> (r:
    DispatchLeaf)
    requires
        firsts.wf(),
        st.rule_sync.wf(),
    ensures
        r@ == leaf_stamped(*st, firsts@, rule@, l@),
    decreases l, 0nat,
{
    match l {
        DispatchLeaf::Arm(b) => DispatchLeaf::Arm(Box::new(stamp_body(b, rule, st, firsts))),
        DispatchLeaf::Fallthrough => DispatchLeaf::Fallthrough,
        DispatchLeaf::Error => DispatchLeaf::Error,
    }
}

fn stamp_dispatch_subtrees(t: &DispatchTree, rule: &str, st: &StateTable, firsts: &StateFirsts) -> (r:
    DispatchTree)
    requires
        firsts.wf(),
        st.rule_sync.wf(),
    ensures
        r@ == tree_stamped(*st, firsts@, rule@, t@),
    decreases t, 0nat,
{
    match t {
        DispatchTree::Leaf(l) => DispatchTree::Leaf(stamp_leaf(l, rule, st, firsts)),
        DispatchTree::Switch { depth, arms, default } => {
            assert(t@->Switch_2 == table::arm_trees(arms@));
            DispatchTree::Switch {
                depth: *depth,
                arms: stamp_arms(arms, rule, st, firsts),
                default: stamp_leaf(default, rule, st, firsts),
            }
        },
    }
}

fn stamp_arms(
    arms: &Vec<(u16, DispatchTree)>,
    rule: &str,
    st: &StateTable,
    firsts: &StateFirsts,
) -> (r: Vec<(u16, DispatchTree)>)
    requires
        firsts.wf(),
        st.rule_sync.wf(),
    ensures
        table::arm_kinds(r@) == table::arm_kinds(arms@),
        table::arm_trees(r@) == trees_stamped(*st, firsts@, rule@, table::arm_trees(arms@)),
    decreases arms, 0nat,
{
    let ghost subs = table::arm_trees(arms@);
    let ghost want = trees_stamped(*st, firsts@, rule@, subs);
    let mut r: Vec<(u16, DispatchTree)> = Vec::new();
    let mut i: usize = 0;
    while i < arms.len()
        invariant
            i <= arms@.len(),
            firsts.wf(),
            st.rule_sync.wf(),
            subs == table::arm_trees(arms@),
            want == trees_stamped(*st, firsts@, rule@, subs),
            r@.len() == i,
            forall|m: int|
                0 <= m < i ==> (#[trigger] r@[m]).0 == arms@[m].0 && r@[m].1@ == want[m],
        decreases arms@.len() - i,
    {
        assert(subs[i as int] == arms@[i as int].1@);
        r.push((arms[i].0, stamp_dispatch_subtrees(&arms[i].1, rule, st, firsts)));
        i += 1;
    }
    assert(table::arm_kinds(r@) =~= table::arm_kinds(arms@));
    assert(table::arm_trees(r@) =~= want);
    r
}

/// Stamp the insertions onto every dispatch of the table.
pub fn stamp(st: &mut StateTable, state_firsts: &StateFirsts)
    requires
        old(st).states.wf(),
        old(st).rule_sync.wf(),
        state_firsts.wf(),
    ensures
        *final(st) == (StateTable { states: final(st).states, ..*old(st) }),
        final(st).states.wf(),
        final(st).states@ == stamped(*old(st), state_firsts@),
{
    let ghost st0 = *st;
    let ghost sv = st.states@;
    let ghost want = stamped(st0, state_firsts@);
    let n = st.states.len();
    let mut out: Vec<State> = Vec::new();
    let mut i: usize = 0;
    while i < n
        invariant
            i <= n,
            *st == st0,
            st.states.wf(),
            st.rule_sync.wf(),
            state_firsts.wf(),
            sv == st.states@,
            n == sv.len(),
            want == stamped(st0, state_firsts@),
            out@.len() == i,
            forall|m: int| 0 <= m < i ==> (#[trigger] out@[m])@ == want[m],
        decreases n - i,
    {
        let s = st.states.at(i);
        let body = stamp_body(&s.body, s.rule.as_str(), st, state_firsts);
        out.push(State { id: s.id, label: s.label.clone(), rule: s.rule.clone(), body });
        i += 1;
    }
    st.states = StateMap::from_states(out);
    proof {
        assert(st.states@ =~= want);
        assert forall|a: int, b: int| 0 <= a < b < st.states@.len() implies (
        #[trigger] st.states@[a]).id < (#[trigger] st.states@[b]).id by {
            assert(sv[a].id < sv[b].id);
        }
    }
}

/// The kinds of the insertions of a dispatch are disjoint, none starts an arm,
/// and every kind that an arm can go on with is in one of them, unless it
/// starts an arm.
pub proof fn law_insertions_partition(arms: Seq<Candidate>, k: u16)
    ensures
        covered(arms, k) <==> exists|i: int|
            0 <= i < partitioned(arms).len() && (#[trigger] partitioned(
                arms,
            )[i]).kinds_to_match.contains(k),
        forall|i: int, j: int|
            0 <= i < partitioned(arms).len() && 0 <= j < partitioned(arms).len()
                && #[trigger] partitioned(arms)[i].kinds_to_match.contains(k)
                && #[trigger] partitioned(arms)[j].kinds_to_match.contains(k) ==> i == j,
{
    let all = covered_below(arms, 0x1_0000);
    let list = Seq::new(all.len(), |i: int| covers(arms, all[i], arms.len()));
    let sigs = signatures(arms, all);
    let p = partitioned(arms);
    let less = sorting::indices_order();
    lemma_covered_below(arms, 0x1_0000);
    sorting::lemma_indices_set(list);
    assert forall|i: int| 0 <= i < p.len() implies ((#[trigger] p[i]).kinds_to_match.contains(k)
        <==> all.contains(k) && covers(arms, k, arms.len()) == sigs[i]) by {
        lemma_sharing(arms, all, sigs[i], k);
    }
    if covered(arms, k) {
        assert(all.contains(k));
        let q = choose|q: int| 0 <= q < all.len() && all[q] == k;
        assert(list[q] == covers(arms, k, arms.len()));
        assert(list.contains(list[q]));
        assert(sigs.contains(list[q]));
        let i = choose|i: int| 0 <= i < sigs.len() && sigs[i] == list[q];
        assert(p[i].kinds_to_match.contains(k));
    }
    assert forall|i: int, j: int|
        0 <= i < p.len() && 0 <= j < p.len() && #[trigger] p[i].kinds_to_match.contains(k)
            && #[trigger] p[j].kinds_to_match.contains(k) implies i == j by {
        assert(sigs[i] == sigs[j]);
        if i < j {
            assert(less(sigs[i], sigs[j]));
        } else if j < i {
            assert(less(sigs[j], sigs[i]));
        }
    }
}

/// An insertion that is for a kind goes on as the first arm that can go on with
/// the kind, and offers the first tokens of all arms.
pub proof fn lemma_goes_on_with(arms: Seq<Candidate>, i: int, k: u16)
    requires
        0 <= i < partitioned(arms).len(),
        partitioned(arms)[i].kinds_to_match.contains(k),
    ensures
        covers(arms, k, arms.len()).len() > 0,
        partitioned(arms)[i].post_first == arms[covers(arms, k, arms.len())[0] as int].post,
        partitioned(arms)[i].candidate_kinds == primaries(arms),
{
    let all = covered_below(arms, 0x1_0000);
    lemma_covered_below(arms, 0x1_0000);
    lemma_sharing(arms, all, signatures(arms, all)[i], k);
    assert(covered(arms, k));
}

proof fn lemma_sharing(arms: Seq<Candidate>, l: Seq<u16>, sig: Seq<usize>, k: u16)
    ensures
        sharing(arms, l, sig).contains(k) <==> l.contains(k) && covers(arms, k, arms.len()) == sig,
    decreases l.len(),
{
    if l.len() > 0 {
        let p = l.drop_last();
        lemma_sharing(arms, p, sig, k);
        let q = sharing(arms, p, sig);
        let r = sharing(arms, l, sig);
        assert(l[l.len() - 1] == l.last());
        if p.contains(k) {
            let j = choose|j: int| 0 <= j < p.len() && p[j] == k;
            assert(l[j] == k);
        }
        if l.contains(k) {
            let j = choose|j: int| 0 <= j < l.len() && l[j] == k;
            if j < p.len() {
                assert(p[j] == k);
            }
        }
        if covers(arms, l.last(), arms.len()) == sig {
            assert(r[q.len() as int] == l.last());
            if q.contains(k) {
                let j = choose|j: int| 0 <= j < q.len() && q[j] == k;
                assert(r[j] == k);
            }
            if r.contains(k) {
                let j = choose|j: int| 0 <= j < r.len() && r[j] == k;
                if j < q.len() {
                    assert(q[j] == k);
                }
            }
        }
    }
}

proof fn lemma_covering(arms: Seq<Candidate>, k: u16, n: nat)
    requires
        n <= arms.len(),
        arms.len() <= usize::MAX,
    ensures
        forall|i: int|
            0 <= i < covers(arms, k, n).len() ==> (#[trigger] covers(arms, k, n)[i]) < n
                && arms[covers(arms, k, n)[i] as int].kinds.contains(k),
    decreases n,
{
    if n > 0 {
        lemma_covering(arms, k, (n - 1) as nat);
        let before = covers(arms, k, (n - 1) as nat);
        let all = covers(arms, k, n);
        assert forall|i: int| 0 <= i < all.len() implies (#[trigger] all[i]) < n
            && arms[all[i] as int].kinds.contains(k) by {
            if i < before.len() {
                assert(all[i] == before[i]);
            }
        }
    }
}

/// An insertion goes on as an arm does that can go on with some kind.
pub proof fn lemma_gone_on(arms: Seq<Candidate>, i: int) -> (a: int)
    requires
        0 <= i < partitioned(arms).len(),
        arms.len() <= usize::MAX,
    ensures
        0 <= a < arms.len(),
        arms[a].kinds != Set::<u16>::empty(),
        partitioned(arms)[i].post_first == arms[a].post,
{
    let all = covered_below(arms, 0x1_0000);
    let list = Seq::new(all.len(), |j: int| covers(arms, all[j], arms.len()));
    let sigs = signatures(arms, all);
    lemma_covered_below(arms, 0x1_0000);
    sorting::lemma_indices_set(list);
    assert(sigs.contains(sigs[i]));
    assert(list.contains(sigs[i]));
    let q = choose|q: int| 0 <= q < list.len() && list[q] == sigs[i];
    let k = all[q];
    assert(all.contains(k));
    assert(covered(arms, k));
    lemma_covering(arms, k, arms.len());
    let a = sigs[i][0] as int;
    assert(arms[a].kinds.contains(k));
    a
}

} // verus!
