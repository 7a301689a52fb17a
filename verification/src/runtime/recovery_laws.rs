//! What the parser does where the text is wrong.
use vstd::prelude::*;

use crate::lowering::recovery::{self, InsertionView, PostFirst};
use crate::lowering::state_first::Firsts;
use crate::lowering::table::{
    self, BodyView, LeafView, ModeActionInfo, StateTable, TailView, TreeView,
};
use crate::runtime::events::{ErrorView, EventView, TokenView, TOKEN_EOF};
use crate::runtime::parser::{self, CursorView, TurnView, TERMINATED};

verus! {

/// Of the insertions the one at `i` is the first that lists the kind.
pub open spec fn lists_first(l: Seq<InsertionView>, i: int, kind: u16) -> bool {
    &&& 0 <= i < l.len()
    &&& l[i].kinds_to_match.contains(kind)
    &&& forall|j: int| 0 <= j < i ==> !(#[trigger] l[j]).kinds_to_match.contains(kind)
}

/// The insertion that is used lists the kind of the next token, and there is
/// one if any lists it. Without a kind none is used.
pub proof fn law_listed_insertions_are_found(l: Seq<InsertionView>, kind: Option<u16>)
    ensures
        match kind {
            Some(k) => if exists|i: int|
                0 <= i < l.len() && (#[trigger] l[i]).kinds_to_match.contains(k) {
                lists_first(l, parser::insertion_for(l, kind), k)
            } else {
                parser::insertion_for(l, kind) == l.len()
            },
            None => parser::insertion_for(l, kind) == l.len(),
        },
    decreases l.len(),
{
    if l.len() > 0 {
        let rest = l.skip(1);
        law_listed_insertions_are_found(rest, kind);
        assert forall|i: int| 0 <= i < rest.len() implies #[trigger] rest[i] == l[i + 1] by {}
        match kind {
            Some(k) => {
                let at = parser::insertion_for(rest, kind);
                if !l[0].kinds_to_match.contains(k) {
                    if exists|i: int|
                        0 <= i < l.len() && (#[trigger] l[i]).kinds_to_match.contains(k) {
                        let i = choose|i: int|
                            0 <= i < l.len() && (#[trigger] l[i]).kinds_to_match.contains(k);
                        assert(rest[i - 1].kinds_to_match.contains(k));
                        assert forall|j: int| 0 <= j < at + 1 implies !(
                        #[trigger] l[j]).kinds_to_match.contains(k) by {
                            if j > 0 {
                                assert(rest[j - 1] == l[j]);
                            }
                        }
                        assert(l[at + 1] == rest[at]);
                    } else {
                        assert forall|i: int| 0 <= i < rest.len() implies !(
                        #[trigger] rest[i]).kinds_to_match.contains(k) by {
                            assert(rest[i] == l[i + 1]);
                        }
                    }
                }
            },
            None => {},
        }
    }
}

/// The cursor has gone on in the given way; what is to be read is as before.
pub open spec fn went_on(c: CursorView, d: CursorView, post: PostFirst) -> bool {
    &&& d.lex == c.lex
    &&& d.look == c.look
    &&& d.prev_end == c.prev_end
    &&& d.recovery == c.recovery
    &&& match post {
        PostFirst::Jump(s) => d.state == s && d.ret == c.ret,
        PostFirst::PushRetAndJump { push, jump } => {
            &&& d.state == jump
            &&& d.ret == c.ret.push((push, c.lex.modes.len()))
        },
        PostFirst::Ret => if c.ret.len() == 0 {
            d.state == TERMINATED && d.ret == c.ret
        } else {
            d.state == c.ret.last().0 && d.ret == c.ret.drop_last()
        },
    }
}

/// At a dispatch that no arm is taken at, a token is taken as inserted if an
/// insertion lists the kind of the next token: the parser says what it
/// expected, reads nothing, drops nothing and goes on as the insertion says.
/// Otherwise it goes on behind the dispatch and drops what comes until it can
/// go on from there.
pub proof fn law_missing_tokens_are_inserted(
    st: StateTable,
    c: CursorView,
    sync: u32,
    cont: Option<u32>,
    l: Seq<InsertionView>,
    i: int,
)
    ensures
        ({
            let (d, e) = parser::missed(st, c, sync, cont, l);
            let k = parser::look_kind(c, 0);
            &&& (k is Some && lists_first(l, i, k->0)) ==> went_on(c, d, l[i].post_first) && e
                == Some(
                EventView::<u16, u16, u16>::Error(
                    ErrorView {
                        message: parser::expected_text(st, l[i].candidate_kinds),
                        span: parser::here(c),
                    },
                ),
            )
            &&& (forall|j: int|
                0 <= j < l.len() && k is Some ==> !(#[trigger] l[j]).kinds_to_match.contains(k->0))
                ==> {
                &&& d.recovery == Some((parser::sync_kinds(st, sync), None::<u16>))
                &&& d.look == c.look
                &&& d.lex.pos == c.lex.pos
                &&& e == Some(
                    EventView::<u16, u16, u16>::Error(
                        ErrorView { message: "unexpected token"@, span: parser::here(c) },
                    ),
                )
                &&& match cont {
                    Some(s) => d.state == s && d.ret == c.ret,
                    None => if c.ret.len() == 0 {
                        d.state == TERMINATED && d.ret == c.ret
                    } else {
                        d.state == c.ret.last().0 && d.ret == c.ret.drop_last()
                    },
                }
            }
        }),
{
    let k = parser::look_kind(c, 0);
    law_listed_insertions_are_found(l, k);
    if k is Some && lists_first(l, i, k->0) {
        let at = parser::insertion_for(l, k);
        assert(l[i].kinds_to_match.contains(k->0));
        assert(lists_first(l, at, k->0));
        if at < i {
            assert(!l[at].kinds_to_match.contains(k->0));
        }
        if i < at {
            assert(!l[i].kinds_to_match.contains(k->0));
        }
    }
}

/// The arm has a first token that can be taken as inserted, if `post` is how to
/// go on behind it.
pub open spec fn offers(
    st: StateTable,
    f: Firsts,
    rule: Seq<char>,
    sub: TreeView,
    cont: Option<u32>,
    post: PostFirst,
) -> bool {
    &&& sub matches TreeView::Leaf(LeafView::Arm(b)) && recovery::post_of(b.tail, cont) == Some(
        post,
    )
    &&& exists|k: u16| #[trigger] recovery::post_kinds(st, f, rule, post).contains(k)
}

/// The arm can go on with the kind behind its first token, in the way `post`.
/// It leaves no rule open that it has entered.
pub open spec fn continues(
    st: StateTable,
    f: Firsts,
    rule: Seq<char>,
    sub: TreeView,
    cont: Option<u32>,
    post: PostFirst,
    k: u16,
) -> bool {
    &&& sub matches TreeView::Leaf(LeafView::Arm(b)) && recovery::post_of(b.tail, cont) == Some(
        post,
    ) && recovery::left_open(b.instrs) == 0
    &&& recovery::post_kinds(st, f, rule, post).contains(k)
}

/// Some way is one in which the arm can go on with the kind.
pub open spec fn continues_somehow(
    st: StateTable,
    f: Firsts,
    rule: Seq<char>,
    sub: TreeView,
    cont: Option<u32>,
    k: u16,
) -> bool {
    exists|post: PostFirst| #[trigger] continues(st, f, rule, sub, cont, post, k)
}

proof fn lemma_candidate(
    st: StateTable,
    f: Firsts,
    rule: Seq<char>,
    primary: u16,
    sub: TreeView,
    cont: Option<u32>,
    k: u16,
)
    ensures
        match recovery::candidate(st, f, rule, primary, sub, cont) {
            Some(c) => {
                &&& c.primary == primary
                &&& offers(st, f, rule, sub, cont, c.post)
                &&& c.kinds.contains(k) <==> continues(st, f, rule, sub, cont, c.post, k)
                &&& c.kinds.contains(k) <==> continues_somehow(st, f, rule, sub, cont, k)
            },
            None => {
                &&& forall|post: PostFirst| !#[trigger] offers(st, f, rule, sub, cont, post)
                &&& !continues_somehow(st, f, rule, sub, cont, k)
            },
        },
{
    match sub {
        TreeView::Leaf(LeafView::Arm(b)) => {
            match recovery::post_of(b.tail, cont) {
                Some(post) => {
                    let kinds = recovery::post_kinds(st, f, rule, post);
                    if kinds != Set::<u16>::empty() {
                        assert(exists|x: u16| kinds.contains(x)) by {
                            if forall|x: u16| !kinds.contains(x) {
                                assert(kinds =~= Set::empty());
                            }
                        }
                        assert(offers(st, f, rule, sub, cont, post));
                    }
                    assert(continues_somehow(st, f, rule, sub, cont, k) <==> continues(
                        st,
                        f,
                        rule,
                        sub,
                        cont,
                        post,
                        k,
                    ));
                },
                None => {},
            }
        },
        _ => {},
    }
}

/// What stands in the list of candidates for the first arm that can go on with
/// the kind.
proof fn lemma_first_candidate(
    st: StateTable,
    f: Firsts,
    rule: Seq<char>,
    kinds: Seq<u16>,
    subs: Seq<TreeView>,
    cont: Option<u32>,
    n: nat,
    a: int,
    k: u16,
) -> (q: int)
    requires
        n <= subs.len(),
        kinds.len() == subs.len(),
        0 <= a < n,
        continues_somehow(st, f, rule, subs[a], cont, k),
        forall|j: int| 0 <= j < a ==> !continues_somehow(st, f, rule, #[trigger] subs[j], cont, k),
    ensures
        ({
            let arms = recovery::candidates(st, f, rule, kinds, subs, cont, n);
            &&& 0 <= q < arms.len()
            &&& arms[q].kinds.contains(k)
            &&& continues(st, f, rule, subs[a], cont, arms[q].post, k)
            &&& forall|j: int| 0 <= j < q ==> !(#[trigger] arms[j]).kinds.contains(k)
        }),
    decreases n,
{
    let before = recovery::candidates(st, f, rule, kinds, subs, cont, (n - 1) as nat);
    let arms = recovery::candidates(st, f, rule, kinds, subs, cont, n);
    lemma_candidate(st, f, rule, kinds[n - 1], subs[n - 1], cont, k);
    if a == n - 1 {
        lemma_no_candidate(st, f, rule, kinds, subs, cont, (n - 1) as nat, k);
        assert forall|j: int| 0 <= j < before.len() implies !(#[trigger] arms[j]).kinds.contains(
            k,
        ) by {
            assert(arms[j] == before[j]);
        }
        before.len() as int
    } else {
        let q = lemma_first_candidate(st, f, rule, kinds, subs, cont, (n - 1) as nat, a, k);
        assert(arms[q] == before[q]);
        assert forall|j: int| 0 <= j < q implies !(#[trigger] arms[j]).kinds.contains(k) by {
            assert(arms[j] == before[j]);
        }
        q
    }
}

proof fn lemma_no_candidate(
    st: StateTable,
    f: Firsts,
    rule: Seq<char>,
    kinds: Seq<u16>,
    subs: Seq<TreeView>,
    cont: Option<u32>,
    n: nat,
    k: u16,
)
    requires
        n <= subs.len(),
        kinds.len() == subs.len(),
        forall|j: int| 0 <= j < n ==> !continues_somehow(st, f, rule, #[trigger] subs[j], cont, k),
    ensures
        forall|j: int|
            0 <= j < recovery::candidates(st, f, rule, kinds, subs, cont, n).len() ==> !(
            #[trigger] recovery::candidates(st, f, rule, kinds, subs, cont, n)[j]).kinds.contains(
                k,
            ),
    decreases n,
{
    if n > 0 {
        lemma_no_candidate(st, f, rule, kinds, subs, cont, (n - 1) as nat, k);
        lemma_candidate(st, f, rule, kinds[n - 1], subs[n - 1], cont, k);
    }
}

/// No candidate begins with a kind that no offering arm begins with.
proof fn lemma_no_primary(
    st: StateTable,
    f: Firsts,
    rule: Seq<char>,
    kinds: Seq<u16>,
    subs: Seq<TreeView>,
    cont: Option<u32>,
    n: nat,
    k: u16,
)
    requires
        n <= subs.len(),
        kinds.len() == subs.len(),
        !kinds.contains(k),
    ensures
        forall|j: int|
            0 <= j < recovery::candidates(st, f, rule, kinds, subs, cont, n).len() ==> (
            #[trigger] recovery::candidates(st, f, rule, kinds, subs, cont, n)[j]).primary != k,
    decreases n,
{
    if n > 0 {
        lemma_no_primary(st, f, rule, kinds, subs, cont, (n - 1) as nat, k);
        lemma_candidate(st, f, rule, kinds[n - 1], subs[n - 1], cont, k);
    }
}

proof fn lemma_covers_first(arms: Seq<recovery::Candidate>, k: u16, n: nat, q: int)
    requires
        0 <= q < n <= arms.len(),
        arms.len() <= usize::MAX,
        arms[q].kinds.contains(k),
        forall|j: int| 0 <= j < q ==> !(#[trigger] arms[j]).kinds.contains(k),
    ensures
        recovery::covers(arms, k, n).len() > 0,
        recovery::covers(arms, k, n)[0] == q,
    decreases n,
{
    if q == n - 1 {
        lemma_covers_none(arms, k, (n - 1) as nat);
    } else {
        lemma_covers_first(arms, k, (n - 1) as nat, q);
    }
}

proof fn lemma_covers_none(arms: Seq<recovery::Candidate>, k: u16, n: nat)
    requires
        n <= arms.len(),
        forall|j: int| 0 <= j < n ==> !(#[trigger] arms[j]).kinds.contains(k),
    ensures
        recovery::covers(arms, k, n).len() == 0,
    decreases n,
{
    if n > 0 {
        lemma_covers_none(arms, k, (n - 1) as nat);
    }
}

proof fn lemma_few_candidates(
    st: StateTable,
    f: Firsts,
    rule: Seq<char>,
    kinds: Seq<u16>,
    subs: Seq<TreeView>,
    cont: Option<u32>,
    n: nat,
)
    ensures
        recovery::candidates(st, f, rule, kinds, subs, cont, n).len() <= n,
    decreases n,
{
    if 0 < n <= subs.len() {
        lemma_few_candidates(st, f, rule, kinds, subs, cont, (n - 1) as nat);
    }
}

/// The insertions that a dispatch is given are right: at a token that begins no
/// arm, but that some arm can go on with behind its first token, the parser goes
/// on there, as the first such arm does.
pub proof fn law_insertions_go_on_as_arms_do(
    st: StateTable,
    f: Firsts,
    rule: Seq<char>,
    tree: TreeView,
    c: CursorView,
    sync: u32,
    cont: Option<u32>,
    a: int,
    post: PostFirst,
)
    requires
        tree is Switch,
        tree->Switch_0 == 0,
        tree->Switch_1.len() == tree->Switch_2.len(),
        tree->Switch_2.len() <= usize::MAX,
        parser::look_kind(c, 0) is Some,
        !tree->Switch_1.contains(parser::look_kind(c, 0)->0),
        0 <= a < tree->Switch_2.len(),
        continues(
            st,
            f,
            rule,
            tree->Switch_2[a],
            cont,
            post,
            parser::look_kind(c, 0)->0,
        ),
        forall|j: int|
            0 <= j < a ==> !continues_somehow(
                st,
                f,
                rule,
                #[trigger] tree->Switch_2[j],
                cont,
                parser::look_kind(c, 0)->0,
            ),
    ensures
        went_on(
            c,
            parser::missed(
                st,
                c,
                sync,
                cont,
                recovery::tree_insertions(st, f, rule, tree, cont),
            ).0,
            post,
        ),
{
    let k = parser::look_kind(c, 0)->0;
    let kinds = tree->Switch_1;
    let subs = tree->Switch_2;
    let arms = recovery::candidates(st, f, rule, kinds, subs, cont, subs.len());
    let l = recovery::tree_insertions(st, f, rule, tree, cont);
    assert(l == recovery::partitioned(arms));
    assert(continues_somehow(st, f, rule, subs[a], cont, k));
    let q = lemma_first_candidate(st, f, rule, kinds, subs, cont, subs.len(), a, k);
    lemma_few_candidates(st, f, rule, kinds, subs, cont, subs.len());
    lemma_covers_first(arms, k, arms.len(), q);
    lemma_no_primary(st, f, rule, kinds, subs, cont, subs.len(), k);
    assert(!recovery::primaries(arms).contains(k)) by {
        if recovery::primaries(arms).contains(k) {
            let j = choose|j: int|
                0 <= j < recovery::primaries(arms).len() && recovery::primaries(arms)[j] == k;
            assert(arms[j].primary == k);
        }
    }
    assert(recovery::covered(arms, k));
    recovery::law_insertions_partition(arms, k);
    law_listed_insertions_are_found(l, Some(k));
    let i = parser::insertion_for(l, Some(k));
    let x = choose|x: int|
        0 <= x < recovery::partitioned(arms).len() && (#[trigger] recovery::partitioned(
            arms,
        )[x]).kinds_to_match.contains(k);
    assert(l[x].kinds_to_match.contains(k));
    assert(lists_first(l, i, k));
    recovery::lemma_goes_on_with(arms, i, k);
    law_missing_tokens_are_inserted(st, c, sync, cont, l, i);
}

/// At a state that begins with a dispatch, a token that no arm is for is missed:
/// what comes of it is what [`law_missing_tokens_are_inserted`] says.
pub proof fn law_unmatched_tokens_are_missed(
    st: StateTable,
    c: CursorView,
    b: BodyView,
    kinds: Seq<u16>,
    subs: Seq<TreeView>,
    sync: u32,
    cont: Option<u32>,
    l: Seq<InsertionView>,
)
    requires
        c.recovery is None,
        c.state != TERMINATED,
        table::body_of(st.states@, c.state) == Some(b),
        b.instrs.len() == 0,
        b.tail == TailView::Dispatch(
            TreeView::Switch(0, kinds, subs, LeafView::Error),
            sync,
            cont,
            l,
        ),
        subs.len() <= kinds.len(),
        forall|i: int| 0 <= i < kinds.len() ==> Some(#[trigger] kinds[i]) != parser::look_kind(
            c,
            0,
        ),
    ensures
        ({
            let (d, e) = parser::missed(st, c, sync, cont, l);
            parser::driven(st, c) == (d, TurnView::Event(e->0)) && e is Some
        }),
{
    lemma_arm_for(kinds, parser::look_kind(c, 0));
    let tree = TreeView::Switch(0, kinds, subs, LeafView::Error);
    reveal_with_fuel(parser::tree_step, 2);
    reveal_with_fuel(parser::leaf_step, 2);
    assert(parser::tree_step(st, c, tree, sync, cont, l) == parser::leaf_step(
        st,
        c,
        LeafView::Error,
        sync,
        cont,
        l,
    ));
    assert(parser::instrs_step(st, c, b.instrs, 0) == (c, None::<EventView<u16, u16, u16>>));
}

/// A dispatch finds the arm for a kind, if there is one.
proof fn lemma_arm_for(kinds: Seq<u16>, kind: Option<u16>)
    ensures
        0 <= parser::arm_for(kinds, kind) <= kinds.len(),
        parser::arm_for(kinds, kind) < kinds.len() ==> Some(
            kinds[parser::arm_for(kinds, kind)],
        ) == kind,
        forall|j: int|
            0 <= j < parser::arm_for(kinds, kind) ==> Some(#[trigger] kinds[j]) != kind,
    decreases kinds.len(),
{
    if kinds.len() > 0 && kind != Some(kinds[0]) {
        lemma_arm_for(kinds.skip(1), kind);
        assert forall|j: int| 0 <= j < parser::arm_for(kinds, kind) implies Some(
            #[trigger] kinds[j],
        ) != kind by {
            if j > 0 {
                assert(kinds[j] == kinds.skip(1)[j - 1]);
            }
        }
    }
}

/// A token that is expected is taken if it comes next. If another comes, it
/// stays: the error is at it, and tokens are dropped from there on.
pub proof fn law_expected_tokens_are_taken(
    c: CursorView,
    kind: u16,
    sync: Seq<u16>,
    msg: Seq<char>,
    label: Option<u16>,
)
    requires
        c.look.len() > 0,
    ensures
        ({
            let (d, e) = parser::expected_step(c, kind, sync, msg, label);
            &&& d.state == c.state && d.ret == c.ret && d.lex.pos == c.lex.pos
            &&& c.look[0].kind == Some(kind) ==> {
                &&& e == EventView::<u16, u16, u16>::Token(TokenView { label, ..c.look[0] })
                &&& c.look == seq![c.look[0]] + d.look
                &&& d.prev_end == c.look[0].span.end
                &&& d.recovery == c.recovery
                &&& d.lex == c.lex
            }
            &&& c.look[0].kind != Some(kind) ==> {
                &&& e == EventView::<u16, u16, u16>::Error(
                    ErrorView { message: msg, span: c.look[0].span },
                )
                &&& d.look == c.look
                &&& d.prev_end == c.prev_end
                &&& d.recovery == Some((sync, Some(kind)))
            }
        }),
{
    let (d, e) = parser::expected_step(c, kind, sync, msg, label);
    if c.look[0].kind == Some(kind) {
        assert(c.look =~= seq![c.look[0]] + d.look);
    }
}

/// Recovery drops tokens one at a time, each as garbage, until the end of input
/// or a kind to stop at comes next. It drops neither: it is over, and the token
/// is taken only if it is the one that was missing.
pub proof fn law_recovery_stops_at_its_kinds(
    c: CursorView,
    sync: Seq<u16>,
    expected: Option<u16>,
)
    requires
        c.look.len() > 0,
        c.recovery == Some((sync, expected)),
    ensures
        ({
            let (d, t) = parser::recovery_turn(c, sync, expected);
            let stops = c.look[0].kind == Some(TOKEN_EOF) || exists|i: int|
                0 <= i < sync.len() && Some(#[trigger] sync[i]) == c.look[0].kind;
            &&& d.state == c.state && d.ret == c.ret && d.lex == c.lex
            &&& stops <==> d.recovery is None
            &&& stops && expected == c.look[0].kind ==> t == TurnView::Event(
                EventView::Token(c.look[0]),
            ) && c.look == seq![c.look[0]] + d.look
            &&& stops && expected != c.look[0].kind ==> t == TurnView::Again && d.look == c.look
            &&& !stops ==> t == TurnView::Event(EventView::Garbage(c.look[0])) && c.look
                == seq![c.look[0]] + d.look && d.recovery == c.recovery
        }),
{
    let (d, t) = parser::recovery_turn(c, sync, expected);
    assert(c.look =~= seq![c.look[0]] + c.look.skip(1));
    if c.look[0].kind is Some && sync.contains(c.look[0].kind->0) {
        let i = choose|i: int| 0 <= i < sync.len() && sync[i] == c.look[0].kind->0;
        assert(Some(sync[i]) == c.look[0].kind);
    }
    if exists|i: int| 0 <= i < sync.len() && Some(#[trigger] sync[i]) == c.look[0].kind {
        let i = choose|i: int| 0 <= i < sync.len() && Some(#[trigger] sync[i]) == c.look[0].kind;
        assert(sync[i] == c.look[0].kind->0);
    }
}

/// Behind the entry rule a parse is over exactly if the text is; if it is not,
/// everything up to the end is dropped.
pub proof fn law_parse_ends_with_the_text(c: CursorView)
    requires
        c.look.len() > 0,
    ensures
        ({
            let (d, t) = parser::end_turn(c);
            &&& t == TurnView::Done <==> c.look[0].kind == Some(TOKEN_EOF)
            &&& t == TurnView::Done ==> d == c
            &&& t != TurnView::Done ==> {
                &&& t == TurnView::Event(
                    EventView::Error(
                        ErrorView { message: "expected end of input"@, span: c.look[0].span },
                    ),
                )
                &&& d.recovery == Some((Seq::<u16>::empty(), None::<u16>))
                &&& d.look == c.look
            }
        }),
{
}

/// Recovery leaves the modes that the rule pushed: the stack is as it was when
/// the rule was called, or as it is if it is not higher. The lowest mode stays.
pub proof fn law_recovery_leaves_modes(c: CursorView, sync: Seq<u16>, expected: Option<u16>)
    requires
        c.lex.modes.len() > 0,
    ensures
        ({
            let d = parser::armed(c, sync, expected);
            let depth = if c.ret.len() > 0 {
                c.ret.last().1
            } else {
                1nat
            };
            &&& d.lex.modes.is_prefix_of(c.lex.modes)
            &&& d.lex.modes.len() == (if c.lex.modes.len() <= depth {
                c.lex.modes.len()
            } else if depth == 0 {
                1nat
            } else {
                depth
            })
            &&& d.lex.buf == c.lex.buf && d.lex.pos == c.lex.pos
        }),
{
}

/// Mode actions are done in order: a push puts the mode on top, a pop takes the
/// one on top away unless it is the last.
pub proof fn law_mode_actions_are_done_in_order(
    modes: Seq<u32>,
    a: Seq<ModeActionInfo>,
    b: Seq<ModeActionInfo>,
    m: u32,
)
    ensures
        parser::acted(modes, a + b, (a + b).len()) == parser::acted(
            parser::acted(modes, a, a.len()),
            b,
            b.len(),
        ),
        parser::acted(modes, seq![ModeActionInfo::Push(m)], 1) == modes.push(m),
        modes.len() > 1 ==> parser::acted(modes, seq![ModeActionInfo::Pop], 1)
            == modes.drop_last(),
        modes.len() == 1 ==> parser::acted(modes, seq![ModeActionInfo::Pop], 1) == modes,
    decreases b.len(),
{
    reveal_with_fuel(parser::acted, 2);
    if b.len() == 0 {
        assert(a + b =~= a);
    } else {
        let p = b.drop_last();
        law_mode_actions_are_done_in_order(modes, a, p, m);
        lemma_acted_front(modes, a + b, a + p, (a + p).len());
        lemma_acted_front(parser::acted(modes, a, a.len()), b, p, p.len());
        assert((a + b)[(a + b).len() - 1] == b[b.len() - 1]);
    }
}

proof fn lemma_acted_front(
    modes: Seq<u32>,
    a: Seq<ModeActionInfo>,
    b: Seq<ModeActionInfo>,
    n: nat,
)
    requires
        n <= a.len(),
        n <= b.len(),
        forall|i: int| 0 <= i < n ==> a[i] == b[i],
    ensures
        parser::acted(modes, a, n) == parser::acted(modes, b, n),
    decreases n,
{
    if n > 0 {
        lemma_acted_front(modes, a, b, (n - 1) as nat);
    }
}

} // verus!
