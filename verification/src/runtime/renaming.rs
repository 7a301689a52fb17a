//! Leaving out states that nothing leads to, and giving states other numbers,
//! changes no event.
use vstd::prelude::*;

use crate::lowering::levels::{self, Owed};
use crate::lowering::optimize;
use crate::lowering::reach;
use crate::lowering::recovery::InsertionView;
use crate::lowering::table::{
    self, BodyView, InstrView, LeafView, StateTable, StateView, TailView, TreeView,
};
use crate::lowering::validate;
use crate::runtime::laws::{self, RawView};
use crate::runtime::lexer::TableMatcher;
use crate::runtime::parser::{self, CursorView, TERMINATED};
use crate::runtime::passes;
use crate::runtime::simulation::{self, Base};
use crate::runtime::tree;

verus! {

/// No dispatch in the body has insertions.
pub open spec fn unstamped(b: BodyView) -> bool
    decreases b, 1nat,
{
    tail_unstamped(b.tail)
}

pub open spec fn tail_unstamped(t: TailView) -> bool
    decreases t, 0nat,
{
    match t {
        TailView::Jump(_) => true,
        TailView::Ret => true,
        TailView::Star(_, b, _, _) => unstamped(*b),
        TailView::Opt(_, b, _) => unstamped(*b),
        TailView::Dispatch(tree, _, _, l) => l.len() == 0 && tree_unstamped(tree),
    }
}

pub open spec fn leaf_unstamped(l: LeafView) -> bool
    decreases l, 0nat,
{
    match l {
        LeafView::Arm(b) => unstamped(*b),
        _ => true,
    }
}

pub open spec fn tree_unstamped(t: TreeView) -> bool
    decreases t, 0nat,
{
    match t {
        TreeView::Leaf(l) => leaf_unstamped(l),
        TreeView::Switch(_, _, subs, default) => leaf_unstamped(default) && forall|i: int|
            0 <= i < subs.len() ==> tree_unstamped(#[trigger] subs[i]),
    }
}

/// No dispatch of the states has insertions.
pub open spec fn all_unstamped(states: Seq<StateView>) -> bool {
    forall|i: int| 0 <= i < states.len() ==> unstamped((#[trigger] states[i]).body)
}

/// Every state of the list is in the set.
pub open spec fn all_in(p: Set<u32>, l: Seq<u32>) -> bool {
    forall|s: u32| #[trigger] l.contains(s) ==> p.contains(s)
}

proof fn lemma_all_in_parts(p: Set<u32>, a: Seq<u32>, b: Seq<u32>)
    requires
        all_in(p, a + b),
    ensures
        all_in(p, a),
        all_in(p, b),
{
    assert forall|s: u32| #[trigger] a.contains(s) implies p.contains(s) by {
        let i = choose|i: int| 0 <= i < a.len() && a[i] == s;
        assert((a + b)[i] == s);
        assert((a + b).contains(s));
    }
    assert forall|s: u32| #[trigger] b.contains(s) implies p.contains(s) by {
        let i = choose|i: int| 0 <= i < b.len() && b[i] == s;
        assert((a + b)[a.len() + i] == s);
        assert((a + b).contains(s));
    }
}

proof fn lemma_all_in_one(p: Set<u32>, s: u32)
    requires
        all_in(p, seq![s]),
    ensures
        p.contains(s),
{
    assert(seq![s][0] == s);
    assert(seq![s].contains(s));
}

proof fn lemma_all_in_sub(p: Set<u32>, subs: Seq<TreeView>, n: nat, i: int)
    requires
        0 <= i < n <= subs.len(),
        all_in(p, optimize::trees_targets(subs, n)),
    ensures
        all_in(p, optimize::tree_targets(subs[i])),
    decreases n,
{
    lemma_all_in_parts(
        p,
        optimize::trees_targets(subs, (n - 1) as nat),
        optimize::tree_targets(subs[n - 1]),
    );
    if i < n - 1 {
        lemma_all_in_sub(p, subs, (n - 1) as nat, i);
    }
}

/// How the states of one run are named in another.
pub ghost struct Naming {
    /// The states that have a name.
    pub known: Set<u32>,
    pub name: spec_fn(u32) -> u32,
}

/// The return stacks are the same under the naming.
pub open spec fn rets_named(w: Naming, a: Seq<(u32, nat)>, b: Seq<(u32, nat)>) -> bool {
    &&& a.len() == b.len()
    &&& forall|i: int|
        0 <= i < a.len() ==> w.known.contains((#[trigger] a[i]).0) && b[i].0 == (w.name)(a[i].0)
}

/// The two have read the same, and their return stacks are the same under the
/// naming.
pub open spec fn near(w: Naming, c: CursorView, d: CursorView) -> bool {
    simulation::same_reading(c, d) && rets_named(w, c.ret, d.ret)
}

/// The states are the same under the naming.
pub open spec fn states_named(w: Naming, a: u32, b: u32) -> bool {
    if a == TERMINATED {
        b == TERMINATED
    } else {
        w.known.contains(a) && b == (w.name)(a)
    }
}

/// The two are the same under the naming.
pub open spec fn named(w: Naming, c: CursorView, d: CursorView) -> bool {
    near(w, c, d) && states_named(w, c.state, d.state)
}

/// The relation of [`named`].
pub open spec fn named_base(w: Naming) -> Base {
    |c: CursorView, d: CursorView| named(w, c, d)
}

/// The naming leaves the end alone.
pub open spec fn proper(w: Naming) -> bool {
    &&& !w.known.contains(TERMINATED)
    &&& forall|s: u32| #[trigger] w.known.contains(s) ==> (w.name)(s) != TERMINATED
}

/// The instructions under the naming.
pub open spec fn instr_named(w: Naming, a: InstrView, b: InstrView) -> bool {
    match a {
        InstrView::PushRet(s) => w.known.contains(s) && b == InstrView::PushRet((w.name)(s)),
        _ => b == a,
    }
}

pub open spec fn instrs_named(w: Naming, a: Seq<InstrView>, b: Seq<InstrView>) -> bool {
    a.len() == b.len() && forall|i: int|
        0 <= i < a.len() ==> instr_named(w, #[trigger] a[i], b[i])
}

pub open spec fn cont_named(w: Naming, a: Option<u32>, b: Option<u32>) -> bool {
    match a {
        Some(s) => w.known.contains(s) && b == Some((w.name)(s)),
        None => b is None,
    }
}

/// The second body is the first under the naming.
pub open spec fn body_named(w: Naming, a: BodyView, b: BodyView) -> bool
    decreases a, 1nat,
{
    instrs_named(w, a.instrs, b.instrs) && tail_named(w, a.tail, b.tail)
}

pub open spec fn tail_named(w: Naming, a: TailView, b: TailView) -> bool
    decreases a, 0nat,
{
    match a {
        TailView::Jump(s) => w.known.contains(s) && b == TailView::Jump((w.name)(s)),
        TailView::Ret => b is Ret,
        TailView::Star(f, x, c, h) => match b {
            TailView::Star(g, y, d, i) => f == g && body_named(w, *x, *y) && cont_named(w, c, d)
                && w.known.contains(h) && i == (w.name)(h),
            _ => false,
        },
        TailView::Opt(f, x, c) => match b {
            TailView::Opt(g, y, d) => f == g && body_named(w, *x, *y) && cont_named(w, c, d),
            _ => false,
        },
        TailView::Dispatch(t, s, c, l) => match b {
            TailView::Dispatch(u, r, d, k) => tree_named(w, t, u) && s == r && cont_named(w, c, d)
                && l.len() == 0 && k.len() == 0,
            _ => false,
        },
    }
}

pub open spec fn leaf_named(w: Naming, a: LeafView, b: LeafView) -> bool
    decreases a, 0nat,
{
    match a {
        LeafView::Arm(x) => match b {
            LeafView::Arm(y) => body_named(w, *x, *y),
            _ => false,
        },
        _ => b == a,
    }
}

pub open spec fn tree_named(w: Naming, a: TreeView, b: TreeView) -> bool
    decreases a, 0nat,
{
    match a {
        TreeView::Leaf(x) => match b {
            TreeView::Leaf(y) => leaf_named(w, x, y),
            _ => false,
        },
        TreeView::Switch(i, kinds, subs, x) => match b {
            TreeView::Switch(j, others, trees, y) => i == j && kinds == others && leaf_named(
                w,
                x,
                y,
            ) && subs.len() == trees.len() && forall|m: int|
                0 <= m < subs.len() ==> tree_named(w, #[trigger] subs[m], trees[m]),
            _ => false,
        },
    }
}

proof fn lemma_near_push(w: Naming, c: CursorView, d: CursorView, s: u32)
    requires
        near(w, c, d),
        w.known.contains(s),
    ensures
        near(w, parser::pushed(c, s), parser::pushed(d, (w.name)(s))),
{
}

proof fn lemma_near_returned(w: Naming, c: CursorView, d: CursorView)
    requires
        proper(w),
        near(w, c, d),
    ensures
        named(w, parser::returned(c), parser::returned(d)),
{
    if c.ret.len() > 0 {
        let n = c.ret.len() - 1;
        assert(w.known.contains(c.ret[n].0));
        let e = parser::returned(c);
        let f = parser::returned(d);
        assert forall|i: int| 0 <= i < e.ret.len() implies w.known.contains((#[trigger] e.ret[i]).0)
            && f.ret[i].0 == (w.name)(e.ret[i].0) by {
            assert(e.ret[i] == c.ret[i]);
            assert(f.ret[i] == d.ret[i]);
        }
    }
}

proof fn lemma_near_go_on(
    w: Naming,
    c: CursorView,
    d: CursorView,
    a: Option<u32>,
    b: Option<u32>,
)
    requires
        proper(w),
        near(w, c, d),
        cont_named(w, a, b),
    ensures
        named(w, parser::go_on(c, a), parser::go_on(d, b)),
{
    if a is None {
        lemma_near_returned(w, c, d);
    }
}

proof fn lemma_near_calling(
    w: Naming,
    c: CursorView,
    d: CursorView,
    a: Option<u32>,
    b: Option<u32>,
)
    requires
        near(w, c, d),
        cont_named(w, a, b),
    ensures
        near(w, parser::calling(c, a), parser::calling(d, b)),
{
    if let Some(s) = a {
        lemma_near_push(w, c, d, s);
    }
}

proof fn lemma_near_armed(w: Naming, c: CursorView, d: CursorView, sync: Seq<u16>, k: Option<u16>)
    requires
        near(w, c, d),
        c.lex.modes.len() == 1,
    ensures
        near(w, parser::armed(c, sync, k), parser::armed(d, sync, k)),
{
    assert(c.lex.modes.take(1) =~= c.lex.modes);
}

proof fn lemma_near_instrs(
    st: StateTable,
    w: Naming,
    c: CursorView,
    d: CursorView,
    a: Seq<InstrView>,
    b: Seq<InstrView>,
    n: nat,
)
    requires
        n <= a.len(),
        near(w, c, d),
        instrs_named(w, a, b),
        c.lex.modes.len() == 1 || tree::clean(laws::instrs_trace(st, d, b, n)),
    ensures
        near(w, parser::instrs_step(st, c, a, n).0, parser::instrs_step(st, d, b, n).0),
        parser::instrs_step(st, c, a, n).1 == parser::instrs_step(st, d, b, n).1,
    decreases n,
{
    if n > 0 {
        let f = parser::instrs_step(st, d, b, (n - 1) as nat).0;
        if c.lex.modes.len() == 1 {
            simulation::lemma_one_mode(st, c, a, (n - 1) as nat);
        } else {
            simulation::lemma_calm_part(st, d, b, n);
        }
        lemma_near_instrs(st, w, c, d, a, b, (n - 1) as nat);
        let e = parser::instrs_step(st, c, a, (n - 1) as nat).0;
        assert(instr_named(w, a[n - 1], b[n - 1]));
        match a[n - 1] {
            InstrView::PushRet(s) => lemma_near_push(w, e, f, s),
            InstrView::Expect(kind, name, sync, label) => {
                if parser::look_kind(e, 0) != Some(kind) {
                    lemma_near_armed(w, e, f, parser::sync_kinds(st, sync), Some(kind));
                }
            },
            _ => {},
        }
    }
}

/// A body does the same under another name.
proof fn lemma_near_body(
    st: StateTable,
    w: Naming,
    c: CursorView,
    d: CursorView,
    a: BodyView,
    b: BodyView,
)
    requires
        proper(w),
        near(w, c, d),
        body_named(w, a, b),
        c.lex.modes.len() == 1 || tree::clean(laws::body_trace(st, d, b)),
    ensures
        named(w, parser::body_step(st, c, a).0, parser::body_step(st, d, b).0),
        parser::body_step(st, c, a).1 == parser::body_step(st, d, b).1,
    decreases a, 1nat,
{
    let n = a.instrs.len();
    let f = parser::instrs_step(st, d, b.instrs, n).0;
    if c.lex.modes.len() == 1 {
        simulation::lemma_one_mode(st, c, a.instrs, n);
    } else {
        tree::lemma_clean_parts(
            laws::instrs_trace(st, d, b.instrs, n),
            laws::tail_trace(st, f, b.tail),
        );
    }
    lemma_near_instrs(st, w, c, d, a.instrs, b.instrs, n);
    lemma_near_tail(st, w, parser::instrs_step(st, c, a.instrs, n).0, f, a.tail, b.tail);
}

proof fn lemma_near_tail(
    st: StateTable,
    w: Naming,
    c: CursorView,
    d: CursorView,
    a: TailView,
    b: TailView,
)
    requires
        proper(w),
        near(w, c, d),
        tail_named(w, a, b),
        c.lex.modes.len() == 1 || tree::clean(laws::tail_trace(st, d, b)),
    ensures
        named(w, parser::tail_step(st, c, a).0, parser::tail_step(st, d, b).0),
        parser::tail_step(st, c, a).1 == parser::tail_step(st, d, b).1,
    decreases a, 0nat,
{
    match a {
        TailView::Jump(_) => {},
        TailView::Ret => lemma_near_returned(w, c, d),
        TailView::Star(first, x, cont, head) => {
            simulation::lemma_in_first(c, d, parser::first_seqs(st, first));
            if parser::in_first(c, parser::first_seqs(st, first)) {
                lemma_near_push(w, c, d, head);
                lemma_near_body(
                    st,
                    w,
                    parser::pushed(c, head),
                    parser::pushed(d, b->Star_3),
                    *x,
                    *b->Star_1,
                );
            } else {
                lemma_near_go_on(w, c, d, cont, b->Star_2);
            }
        },
        TailView::Opt(first, x, cont) => {
            simulation::lemma_in_first(c, d, parser::first_seqs(st, first));
            if parser::in_first(c, parser::first_seqs(st, first)) {
                lemma_near_calling(w, c, d, cont, b->Opt_2);
                lemma_near_body(
                    st,
                    w,
                    parser::calling(c, cont),
                    parser::calling(d, b->Opt_2),
                    *x,
                    *b->Opt_1,
                );
            } else {
                lemma_near_go_on(w, c, d, cont, b->Opt_2);
            }
        },
        TailView::Dispatch(t, sync, cont, l) => {
            lemma_near_tree(
                st,
                w,
                c,
                d,
                t,
                b->Dispatch_0,
                sync,
                cont,
                b->Dispatch_2,
                l,
                b->Dispatch_3,
            );
        },
    }
}

proof fn lemma_near_leaf(
    st: StateTable,
    w: Naming,
    c: CursorView,
    d: CursorView,
    a: LeafView,
    b: LeafView,
    sync: u32,
    p: Option<u32>,
    q: Option<u32>,
    l: Seq<InsertionView>,
    k: Seq<InsertionView>,
)
    requires
        proper(w),
        near(w, c, d),
        leaf_named(w, a, b),
        cont_named(w, p, q),
        l.len() == 0,
        k.len() == 0,
        c.lex.modes.len() == 1 || tree::clean(laws::leaf_trace(st, d, b, sync, q, k)),
    ensures
        named(
            w,
            parser::leaf_step(st, c, a, sync, p, l).0,
            parser::leaf_step(st, d, b, sync, q, k).0,
        ),
        parser::leaf_step(st, c, a, sync, p, l).1 == parser::leaf_step(st, d, b, sync, q, k).1,
    decreases a, 0nat,
{
    match a {
        LeafView::Arm(x) => {
            lemma_near_calling(w, c, d, p, q);
            lemma_near_body(
                st,
                w,
                parser::calling(c, p),
                parser::calling(d, q),
                *x,
                *b->Arm_0,
            );
        },
        LeafView::Fallthrough => lemma_near_go_on(w, c, d, p, q),
        LeafView::Error => {
            assert(laws::leaf_trace(st, d, b, sync, q, k)[0] is Error);
            lemma_near_go_on(w, c, d, p, q);
            lemma_near_armed(
                w,
                parser::go_on(c, p),
                parser::go_on(d, q),
                parser::sync_kinds(st, sync),
                None,
            );
        },
    }
}

proof fn lemma_near_tree(
    st: StateTable,
    w: Naming,
    c: CursorView,
    d: CursorView,
    a: TreeView,
    b: TreeView,
    sync: u32,
    p: Option<u32>,
    q: Option<u32>,
    l: Seq<InsertionView>,
    k: Seq<InsertionView>,
)
    requires
        proper(w),
        near(w, c, d),
        tree_named(w, a, b),
        cont_named(w, p, q),
        l.len() == 0,
        k.len() == 0,
        c.lex.modes.len() == 1 || tree::clean(laws::tree_trace(st, d, b, sync, q, k)),
    ensures
        named(
            w,
            parser::tree_step(st, c, a, sync, p, l).0,
            parser::tree_step(st, d, b, sync, q, k).0,
        ),
        parser::tree_step(st, c, a, sync, p, l).1 == parser::tree_step(st, d, b, sync, q, k).1,
    decreases a, 0nat,
{
    match a {
        TreeView::Leaf(x) => lemma_near_leaf(st, w, c, d, x, b->Leaf_0, sync, p, q, l, k),
        TreeView::Switch(depth, kinds, subs, default) => {
            assert(parser::look_kind(d, depth as int) == parser::look_kind(c, depth as int));
            let i = parser::arm_for(kinds, parser::look_kind(c, depth as int));
            if 0 <= i < subs.len() {
                assert(tree_named(w, subs[i], b->Switch_2[i]));
                lemma_near_tree(st, w, c, d, subs[i], b->Switch_2[i], sync, p, q, l, k);
            } else {
                lemma_near_leaf(st, w, c, d, default, b->Switch_3, sync, p, q, l, k);
            }
        },
    }
}

/// Each known state has, under its name, its body under the naming.
pub open spec fn states_carried(w: Naming, slow: Seq<StateView>, fast: Seq<StateView>) -> bool {
    forall|s: u32| #[trigger]
        w.known.contains(s) ==> match table::body_of(slow, s) {
            Some(a) => match table::body_of(fast, (w.name)(s)) {
                Some(b) => body_named(w, a, b),
                None => false,
            },
            None => table::body_of(fast, (w.name)(s)) is None,
        }
}

proof fn lemma_named_step(
    st: StateTable,
    slow: Seq<StateView>,
    fast: Seq<StateView>,
    m: TableMatcher,
    emit: bool,
    w: Naming,
    c: CursorView,
    d: CursorView,
)
    requires
        proper(w),
        states_carried(w, slow, fast),
        validate::all_valid(fast),
        named(w, c, d),
        simulation::ready(st, c),
        d.state != TERMINATED,
    ensures
        simulation::steps_match(st, slow, fast, m, emit, named_base(w), c, d),
{
    let base = named_base(w);
    let (f, e) = simulation::state_step(st, fast, d);
    if simulation::calm(d, e) {
        assert(w.known.contains(c.state));
        passes::lemma_ready_turn(st, slow, m, emit, c, 0);
        assert(laws::listed(e) + Seq::<RawView>::empty() =~= laws::listed(e));
        if let Some(a) = table::body_of(slow, c.state) {
            let b = table::body_of(fast, d.state)->0;
            laws::lemma_body_of(fast, d.state);
            let i = choose|i: int|
                0 <= i < fast.len() && (#[trigger] fast[i]).id == d.state && fast[i].body == b;
            assert(validate::valid_body(fast[i].body));
            laws::law_no_event_is_lost(st, d, b);
            if let Some(x) = e {
                assert(laws::listed(e)[0] == x);
            }
            lemma_near_body(st, w, c, d, a, b);
        }
        assert(simulation::reaches(st, slow, m, emit, base, c, f, e, 1, 0));
    }
}

proof fn lemma_named_carries(
    st: StateTable,
    slow: Seq<StateView>,
    fast: Seq<StateView>,
    m: TableMatcher,
    emit: bool,
    w: Naming,
)
    requires
        proper(w),
        states_carried(w, slow, fast),
        validate::all_valid(fast),
    ensures
        simulation::carries(st, slow, fast, m, emit, named_base(w)),
{
    let base = named_base(w);
    assert forall|c: CursorView, e: CursorView, d: CursorView| #[trigger]
        base(c, d) && #[trigger] simulation::alike(Set::empty(), c, e) implies base(e, d) by {
        simulation::lemma_thin_empty(c.ret, e.ret);
        assert forall|i: int| 0 <= i < e.ret.len() implies w.known.contains((#[trigger] e.ret[i]).0)
            && d.ret[i].0 == (w.name)(e.ret[i].0) by {
            assert(c.ret[i].0 == e.ret[i].0);
        }
    }
    assert forall|c: CursorView, d: CursorView| #[trigger]
        base(c, d) && simulation::ready(st, c) && d.state
            != TERMINATED implies simulation::steps_match(
        st,
        slow,
        fast,
        m,
        emit,
        base,
        c,
        d,
    ) by {
        lemma_named_step(st, slow, fast, m, emit, w, c, d);
    }
}

/// Every state that a level body refers to has a level.
proof fn lemma_level_targets(o: Owed, b: BodyView, cur: Seq<u16>)
    requires
        levels::body_level(o, b, cur),
    ensures
        all_in(o.dom(), optimize::body_targets(b)),
    decreases b, 1nat,
{
    let n = b.instrs.len();
    lemma_owed_targets(o, b.instrs, cur);
    lemma_tail_targets(o, b.tail, levels::instrs_owed(o, b.instrs, n, cur)->0);
    lemma_all_in_joined(
        o.dom(),
        optimize::instr_targets(b.instrs),
        optimize::tail_targets(b.tail),
    );
}

proof fn lemma_all_in_joined(p: Set<u32>, a: Seq<u32>, b: Seq<u32>)
    requires
        all_in(p, a),
        all_in(p, b),
    ensures
        all_in(p, a + b),
{
    assert forall|s: u32| #[trigger] (a + b).contains(s) implies p.contains(s) by {
        let i = choose|i: int| 0 <= i < (a + b).len() && (a + b)[i] == s;
        if i < a.len() {
            assert(a[i] == s);
            assert(a.contains(s));
        } else {
            assert(b[i - a.len()] == s);
            assert(b.contains(s));
        }
    }
}

proof fn lemma_owed_targets(o: Owed, l: Seq<InstrView>, cur: Seq<u16>)
    requires
        levels::instrs_owed(o, l, l.len(), cur) is Some,
    ensures
        all_in(o.dom(), optimize::instr_targets(l)),
    decreases l.len(),
{
    if l.len() > 0 {
        let p = l.drop_last();
        levels::lemma_owed_prefix(o, p, l, p.len(), cur);
        lemma_owed_targets(o, p, cur);
        if let InstrView::PushRet(s) = l.last() {
            let t = optimize::instr_targets(p);
            assert(optimize::instr_targets(l) =~= t + seq![s]);
            assert(all_in(o.dom(), seq![s]));
            lemma_all_in_joined(o.dom(), t, seq![s]);
        }
    }
}

proof fn lemma_tail_targets(o: Owed, t: TailView, cur: Seq<u16>)
    requires
        levels::tail_level(o, t, cur),
    ensures
        all_in(o.dom(), optimize::tail_targets(t)),
    decreases t, 0nat,
{
    match t {
        TailView::Star(_, b, cont, head) => {
            lemma_level_targets(o, *b, levels::above(o, head, cur)->0);
            let x = optimize::body_targets(*b);
            let y = optimize::cont_targets(cont);
            lemma_all_in_joined(o.dom(), x, y);
            lemma_all_in_joined(o.dom(), x + y, seq![head]);
        },
        TailView::Opt(_, b, cont) => {
            lemma_level_targets(o, *b, levels::above_cont(o, cont, cur)->0);
            lemma_all_in_joined(
                o.dom(),
                optimize::body_targets(*b),
                optimize::cont_targets(cont),
            );
        },
        TailView::Dispatch(tree, _, cont, _) => {
            lemma_tree_targets(o, tree, levels::above_cont(o, cont, cur)->0);
            lemma_all_in_joined(
                o.dom(),
                optimize::cont_targets(cont),
                optimize::tree_targets(tree),
            );
        },
        _ => {},
    }
}

proof fn lemma_leaf_targets(o: Owed, l: LeafView, cur: Seq<u16>)
    requires
        levels::leaf_level(o, l, cur),
    ensures
        all_in(o.dom(), optimize::leaf_targets(l)),
    decreases l, 0nat,
{
    if let LeafView::Arm(b) = l {
        lemma_level_targets(o, *b, cur);
    }
}

proof fn lemma_tree_targets(o: Owed, t: TreeView, cur: Seq<u16>)
    requires
        levels::tree_level(o, t, cur),
    ensures
        all_in(o.dom(), optimize::tree_targets(t)),
    decreases t, 0nat,
{
    match t {
        TreeView::Leaf(l) => lemma_leaf_targets(o, l, cur),
        TreeView::Switch(_, _, subs, default) => {
            lemma_leaf_targets(o, default, cur);
            lemma_trees_targets(o, subs, subs.len(), cur);
            lemma_all_in_joined(
                o.dom(),
                optimize::leaf_targets(default),
                optimize::trees_targets(subs, subs.len()),
            );
        },
    }
}

proof fn lemma_trees_targets(o: Owed, subs: Seq<TreeView>, n: nat, cur: Seq<u16>)
    requires
        n <= subs.len(),
        forall|i: int| 0 <= i < subs.len() ==> levels::tree_level(o, #[trigger] subs[i], cur),
    ensures
        all_in(o.dom(), optimize::trees_targets(subs, n)),
    decreases subs, n,
{
    if n > 0 {
        lemma_trees_targets(o, subs, (n - 1) as nat, cur);
        assert(levels::tree_level(o, subs[n - 1], cur));
        lemma_tree_targets(o, subs[n - 1], cur);
        lemma_all_in_joined(
            o.dom(),
            optimize::trees_targets(subs, (n - 1) as nat),
            optimize::tree_targets(subs[n - 1]),
        );
    }
}

/// Every state keeps its number.
pub open spec fn same_names(known: Set<u32>) -> Naming {
    Naming { known, name: |s: u32| s }
}

proof fn lemma_self_instrs(known: Set<u32>, l: Seq<InstrView>)
    requires
        all_in(known, optimize::instr_targets(l)),
    ensures
        instrs_named(same_names(known), l, l),
    decreases l.len(),
{
    if l.len() > 0 {
        let p = l.drop_last();
        let t = optimize::instr_targets(p);
        if let InstrView::PushRet(s) = l.last() {
            assert(optimize::instr_targets(l) =~= t + seq![s]);
            lemma_all_in_parts(known, t, seq![s]);
            lemma_all_in_one(known, s);
        }
        lemma_self_instrs(known, p);
        assert forall|i: int| 0 <= i < l.len() implies instr_named(
            same_names(known),
            #[trigger] l[i],
            l[i],
        ) by {
            if i < p.len() {
                assert(p[i] == l[i]);
                assert(instr_named(same_names(known), p[i], p[i]));
            }
        }
    }
}

proof fn lemma_self_cont(known: Set<u32>, c: Option<u32>)
    requires
        all_in(known, optimize::cont_targets(c)),
    ensures
        cont_named(same_names(known), c, c),
{
    if let Some(s) = c {
        lemma_all_in_one(known, s);
    }
}

proof fn lemma_self_body(known: Set<u32>, b: BodyView)
    requires
        all_in(known, optimize::body_targets(b)),
        unstamped(b),
    ensures
        body_named(same_names(known), b, b),
    decreases b, 1nat,
{
    lemma_all_in_parts(known, optimize::instr_targets(b.instrs), optimize::tail_targets(b.tail));
    lemma_self_instrs(known, b.instrs);
    lemma_self_tail(known, b.tail);
}

proof fn lemma_self_tail(known: Set<u32>, t: TailView)
    requires
        all_in(known, optimize::tail_targets(t)),
        tail_unstamped(t),
    ensures
        tail_named(same_names(known), t, t),
    decreases t, 0nat,
{
    match t {
        TailView::Jump(s) => lemma_all_in_one(known, s),
        TailView::Ret => {},
        TailView::Star(_, b, c, h) => {
            let x = optimize::body_targets(*b);
            let y = optimize::cont_targets(c);
            lemma_all_in_parts(known, x + y, seq![h]);
            lemma_all_in_parts(known, x, y);
            lemma_all_in_one(known, h);
            lemma_self_cont(known, c);
            lemma_self_body(known, *b);
        },
        TailView::Opt(_, b, c) => {
            lemma_all_in_parts(known, optimize::body_targets(*b), optimize::cont_targets(c));
            lemma_self_cont(known, c);
            lemma_self_body(known, *b);
        },
        TailView::Dispatch(tree, _, c, _) => {
            lemma_all_in_parts(known, optimize::cont_targets(c), optimize::tree_targets(tree));
            lemma_self_cont(known, c);
            lemma_self_tree(known, tree);
        },
    }
}

proof fn lemma_self_leaf(known: Set<u32>, l: LeafView)
    requires
        all_in(known, optimize::leaf_targets(l)),
        leaf_unstamped(l),
    ensures
        leaf_named(same_names(known), l, l),
    decreases l, 0nat,
{
    if let LeafView::Arm(b) = l {
        lemma_self_body(known, *b);
    }
}

proof fn lemma_self_tree(known: Set<u32>, t: TreeView)
    requires
        all_in(known, optimize::tree_targets(t)),
        tree_unstamped(t),
    ensures
        tree_named(same_names(known), t, t),
    decreases t, 0nat,
{
    match t {
        TreeView::Leaf(l) => lemma_self_leaf(known, l),
        TreeView::Switch(_, _, subs, default) => {
            lemma_all_in_parts(
                known,
                optimize::leaf_targets(default),
                optimize::trees_targets(subs, subs.len()),
            );
            lemma_self_leaf(known, default);
            assert forall|i: int| 0 <= i < subs.len() implies tree_named(
                same_names(known),
                #[trigger] subs[i],
                subs[i],
            ) by {
                lemma_all_in_sub(known, subs, subs.len(), i);
                lemma_self_tree(known, subs[i]);
            }
        },
    }
}

/// Every state gets its new number.
pub open spec fn new_names(known: Set<u32>, states: Seq<StateView>) -> Naming {
    Naming { known, name: |s: u32| optimize::new_id(states, s) }
}

proof fn lemma_new_instrs(known: Set<u32>, states: Seq<StateView>, l: Seq<InstrView>)
    requires
        all_in(known, optimize::instr_targets(l)),
    ensures
        instrs_named(new_names(known, states), l, optimize::instrs_renumbered(states, l)),
{
    lemma_self_instrs(known, l);
    let r = optimize::instrs_renumbered(states, l);
    assert forall|i: int| 0 <= i < l.len() implies instr_named(
        new_names(known, states),
        #[trigger] l[i],
        r[i],
    ) by {
        assert(instr_named(same_names(known), l[i], l[i]));
    }
}

proof fn lemma_new_cont(known: Set<u32>, states: Seq<StateView>, c: Option<u32>)
    requires
        all_in(known, optimize::cont_targets(c)),
    ensures
        cont_named(new_names(known, states), c, optimize::cont_renumbered(states, c)),
{
    if let Some(s) = c {
        lemma_all_in_one(known, s);
    }
}

proof fn lemma_new_body(known: Set<u32>, states: Seq<StateView>, b: BodyView)
    requires
        all_in(known, optimize::body_targets(b)),
        unstamped(b),
    ensures
        body_named(new_names(known, states), b, optimize::body_renumbered(states, b)),
    decreases b, 1nat,
{
    lemma_all_in_parts(known, optimize::instr_targets(b.instrs), optimize::tail_targets(b.tail));
    lemma_new_instrs(known, states, b.instrs);
    lemma_new_tail(known, states, b.tail);
}

proof fn lemma_new_tail(known: Set<u32>, states: Seq<StateView>, t: TailView)
    requires
        all_in(known, optimize::tail_targets(t)),
        tail_unstamped(t),
    ensures
        tail_named(new_names(known, states), t, optimize::tail_renumbered(states, t)),
    decreases t, 0nat,
{
    match t {
        TailView::Jump(s) => lemma_all_in_one(known, s),
        TailView::Ret => {},
        TailView::Star(_, b, c, h) => {
            let x = optimize::body_targets(*b);
            let y = optimize::cont_targets(c);
            lemma_all_in_parts(known, x + y, seq![h]);
            lemma_all_in_parts(known, x, y);
            lemma_all_in_one(known, h);
            lemma_new_cont(known, states, c);
            lemma_new_body(known, states, *b);
        },
        TailView::Opt(_, b, c) => {
            lemma_all_in_parts(known, optimize::body_targets(*b), optimize::cont_targets(c));
            lemma_new_cont(known, states, c);
            lemma_new_body(known, states, *b);
        },
        TailView::Dispatch(tree, _, c, _) => {
            lemma_all_in_parts(known, optimize::cont_targets(c), optimize::tree_targets(tree));
            lemma_new_cont(known, states, c);
            lemma_new_tree(known, states, tree);
        },
    }
}

proof fn lemma_new_leaf(known: Set<u32>, states: Seq<StateView>, l: LeafView)
    requires
        all_in(known, optimize::leaf_targets(l)),
        leaf_unstamped(l),
    ensures
        leaf_named(new_names(known, states), l, optimize::leaf_renumbered(states, l)),
    decreases l, 0nat,
{
    if let LeafView::Arm(b) = l {
        lemma_new_body(known, states, *b);
    }
}

proof fn lemma_new_tree(known: Set<u32>, states: Seq<StateView>, t: TreeView)
    requires
        all_in(known, optimize::tree_targets(t)),
        tree_unstamped(t),
    ensures
        tree_named(new_names(known, states), t, optimize::tree_renumbered(states, t)),
    decreases t, 0nat,
{
    match t {
        TreeView::Leaf(l) => lemma_new_leaf(known, states, l),
        TreeView::Switch(_, _, subs, default) => {
            lemma_all_in_parts(
                known,
                optimize::leaf_targets(default),
                optimize::trees_targets(subs, subs.len()),
            );
            lemma_new_leaf(known, states, default);
            let next = optimize::trees_renumbered(states, subs);
            assert forall|i: int| 0 <= i < subs.len() implies tree_named(
                new_names(known, states),
                #[trigger] subs[i],
                next[i],
            ) by {
                lemma_all_in_sub(known, subs, subs.len(), i);
                lemma_new_tree(known, states, subs[i]);
            }
        },
    }
}

/// The states that are reached and have a level.
pub open spec fn alive(o: Owed, states: Seq<StateView>, entries: Seq<u32>) -> Set<u32> {
    Set::new(|s: u32| o.contains_key(s) && optimize::reached(states, entries, s))
}

/// Leaving out what is not reached changes no event.
pub proof fn lemma_elimination_carries(
    st: StateTable,
    o: Owed,
    states: Seq<StateView>,
    entries: Seq<u32>,
    m: TableMatcher,
    emit: bool,
)
    requires
        table::ascending(states),
        validate::all_valid(states),
        levels::all_level(o, states),
        all_unstamped(states),
        passes::ends_apart(states),
    ensures
        simulation::carries(
            st,
            states,
            optimize::dead_eliminated(states, entries),
            m,
            emit,
            named_base(same_names(alive(o, states, entries))),
        ),
{
    let known = alive(o, states, entries);
    let w = same_names(known);
    let fast = optimize::dead_eliminated(states, entries);
    let edges = optimize::edges_of(states);
    optimize::lemma_kept_ascending(states, entries, states);
    assert(proper(w)) by {
        if o.contains_key(TERMINATED) {
            assert(table::has_state(states, TERMINATED));
        }
    }
    assert forall|s: u32| #[trigger] known.contains(s) implies match table::body_of(states, s) {
        Some(a) => match table::body_of(fast, s) {
            Some(b) => body_named(w, a, b),
            None => false,
        },
        None => table::body_of(fast, s) is None,
    } by {
        assert(table::has_state(states, s));
        let i = choose|i: int| 0 <= i < states.len() && (#[trigger] states[i]).id == s;
        table::lemma_body_at(states, i);
        assert(fast.contains(states[i]));
        let j = choose|j: int| 0 <= j < fast.len() && fast[j] == states[i];
        table::lemma_body_at(fast, j);
        let b = states[i].body;
        let l = optimize::body_targets(b);
        lemma_level_targets(o, b, o[s]);
        assert forall|t: u32| #[trigger] l.contains(t) implies known.contains(t) by {
            assert(edges[i].0 == s && edges[i].1 == l);
            assert(reach::refers(edges, s, t));
            reach::lemma_reached_step(edges, entries, s, t);
        }
        assert(unstamped(states[i].body));
        lemma_self_body(known, b);
    }
    assert forall|i: int| 0 <= i < fast.len() implies validate::valid_body(
        (#[trigger] fast[i]).body,
    ) by {
        assert(fast.contains(fast[i]));
        let j = choose|j: int| 0 <= j < states.len() && states[j] == fast[i];
        assert(validate::valid_body(states[j].body));
    }
    lemma_named_carries(st, states, fast, m, emit, w);
}

/// Giving the states other numbers changes no event.
pub proof fn lemma_compacting_carries(
    st: StateTable,
    o: Owed,
    states: Seq<StateView>,
    m: TableMatcher,
    emit: bool,
)
    requires
        table::ascending(states),
        validate::all_valid(optimize::compacted(states)),
        levels::all_level(o, states),
        all_unstamped(states),
        passes::ends_apart(states),
        states.len() < u32::MAX,
    ensures
        simulation::carries(
            st,
            states,
            optimize::compacted(states),
            m,
            emit,
            named_base(new_names(o.dom(), states)),
        ),
{
    let w = new_names(o.dom(), states);
    let fast = optimize::compacted(states);
    assert forall|i: int, j: int| 0 <= i < j < fast.len() implies (#[trigger] fast[i]).id < (
    #[trigger] fast[j]).id by {}
    assert(proper(w)) by {
        if o.contains_key(TERMINATED) {
            assert(table::has_state(states, TERMINATED));
        }
        assert forall|s: u32| #[trigger] w.known.contains(s) implies (w.name)(s)
            != TERMINATED by {
            assert(o.contains_key(s));
            let i = choose|i: int| 0 <= i < states.len() && (#[trigger] states[i]).id == s;
            optimize::lemma_new_id_at(states, i);
        }
    }
    assert forall|s: u32| #[trigger] w.known.contains(s) implies match table::body_of(states, s) {
        Some(a) => match table::body_of(fast, (w.name)(s)) {
            Some(b) => body_named(w, a, b),
            None => false,
        },
        None => table::body_of(fast, (w.name)(s)) is None,
    } by {
        assert(o.contains_key(s));
        assert(table::has_state(states, s));
        let i = choose|i: int| 0 <= i < states.len() && (#[trigger] states[i]).id == s;
        optimize::lemma_new_id_at(states, i);
        table::lemma_body_at(states, i);
        table::lemma_body_at(fast, i);
        let b = states[i].body;
        lemma_level_targets(o, b, o[s]);
        assert(unstamped(states[i].body));
        lemma_new_body(o.dom(), states, b);
    }
    lemma_named_carries(st, states, fast, m, emit, w);
}

} // verus!
