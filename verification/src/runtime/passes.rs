//! The passes over the states change no event.
use vstd::prelude::*;

use crate::lowering::kept;
use crate::lowering::optimize;
use crate::lowering::recovery::InsertionView;
use crate::lowering::table::{
    self, BodyView, InstrView, LeafView, StateTable, StateView, TailView, TreeView,
};
use crate::lowering::validate;
use crate::runtime::laws::{self, RawView};
use crate::runtime::lexer::TableMatcher;
use crate::runtime::parser::{self, CursorView, TERMINATED};
use crate::runtime::simulation;
use crate::runtime::tree;

verus! {

proof fn lemma_first_state(c: CursorView, s: u32, seqs: Seq<Seq<u16>>)
    ensures
        parser::in_first(parser::at_state(c, s), seqs) == parser::in_first(c, seqs),
{
    simulation::lemma_in_first(parser::at_state(c, s), c, seqs);
}

proof fn lemma_instrs_state(st: StateTable, c: CursorView, s: u32, l: Seq<InstrView>, n: nat)
    ensures
        ({
            let (d, e) = parser::instrs_step(st, c, l, n);
            parser::instrs_step(st, parser::at_state(c, s), l, n) == (parser::at_state(d, s), e)
        }),
    decreases n,
{
    if 0 < n <= l.len() {
        lemma_instrs_state(st, c, s, l, (n - 1) as nat);
    }
}

/// A body does the same whatever state it is run from.
proof fn lemma_body_state(st: StateTable, c: CursorView, s: u32, b: BodyView)
    ensures
        parser::body_step(st, parser::at_state(c, s), b) == parser::body_step(st, c, b),
        laws::body_trace(st, parser::at_state(c, s), b) == laws::body_trace(st, c, b),
    decreases b, 1nat,
{
    lemma_instrs_state(st, c, s, b.instrs, b.instrs.len());
    lemma_trace_state(st, c, s, b.instrs, b.instrs.len());
    lemma_tail_state(st, parser::instrs_step(st, c, b.instrs, b.instrs.len()).0, s, b.tail);
}

proof fn lemma_trace_state(st: StateTable, c: CursorView, s: u32, l: Seq<InstrView>, n: nat)
    ensures
        laws::instrs_trace(st, parser::at_state(c, s), l, n) == laws::instrs_trace(st, c, l, n),
    decreases n,
{
    if 0 < n <= l.len() {
        lemma_trace_state(st, c, s, l, (n - 1) as nat);
        lemma_instrs_state(st, c, s, l, (n - 1) as nat);
    }
}

proof fn lemma_tail_state(st: StateTable, c: CursorView, s: u32, t: TailView)
    ensures
        parser::tail_step(st, parser::at_state(c, s), t) == parser::tail_step(st, c, t),
        laws::tail_trace(st, parser::at_state(c, s), t) == laws::tail_trace(st, c, t),
    decreases t, 0nat,
{
    let d = parser::at_state(c, s);
    match t {
        TailView::Star(first, x, cont, head) => {
            lemma_first_state(c, s, parser::first_seqs(st, first));
            assert(parser::pushed(d, head) == parser::at_state(parser::pushed(c, head), s));
            lemma_body_state(st, parser::pushed(c, head), s, *x);
        },
        TailView::Opt(first, x, cont) => {
            lemma_first_state(c, s, parser::first_seqs(st, first));
            assert(parser::calling(d, cont) == parser::at_state(parser::calling(c, cont), s));
            lemma_body_state(st, parser::calling(c, cont), s, *x);
        },
        TailView::Dispatch(tree, sync, cont, l) => {
            lemma_tree_state(st, c, s, tree, sync, cont, l);
        },
        _ => {},
    }
}

proof fn lemma_leaf_state(
    st: StateTable,
    c: CursorView,
    s: u32,
    leaf: LeafView,
    sync: u32,
    cont: Option<u32>,
    l: Seq<InsertionView>,
)
    ensures
        parser::leaf_step(st, parser::at_state(c, s), leaf, sync, cont, l) == parser::leaf_step(
            st,
            c,
            leaf,
            sync,
            cont,
            l,
        ),
        laws::leaf_trace(st, parser::at_state(c, s), leaf, sync, cont, l) == laws::leaf_trace(
            st,
            c,
            leaf,
            sync,
            cont,
            l,
        ),
    decreases leaf, 0nat,
{
    let d = parser::at_state(c, s);
    if let LeafView::Arm(x) = leaf {
        assert(parser::calling(d, cont) == parser::at_state(parser::calling(c, cont), s));
        lemma_body_state(st, parser::calling(c, cont), s, *x);
    }
}

proof fn lemma_tree_state(
    st: StateTable,
    c: CursorView,
    s: u32,
    tree: TreeView,
    sync: u32,
    cont: Option<u32>,
    l: Seq<InsertionView>,
)
    ensures
        parser::tree_step(st, parser::at_state(c, s), tree, sync, cont, l) == parser::tree_step(
            st,
            c,
            tree,
            sync,
            cont,
            l,
        ),
        laws::tree_trace(st, parser::at_state(c, s), tree, sync, cont, l) == laws::tree_trace(
            st,
            c,
            tree,
            sync,
            cont,
            l,
        ),
    decreases tree, 0nat,
{
    let d = parser::at_state(c, s);
    match tree {
        TreeView::Leaf(leaf) => lemma_leaf_state(st, c, s, leaf, sync, cont, l),
        TreeView::Switch(depth, kinds, subs, default) => {
            assert(parser::look_kind(d, depth as int) == parser::look_kind(c, depth as int));
            let j = parser::arm_for(kinds, parser::look_kind(c, depth as int));
            if 0 <= j < subs.len() {
                lemma_tree_state(st, c, s, subs[j], sync, cont, l);
            } else {
                lemma_leaf_state(st, c, s, default, sync, cont, l);
            }
        },
    }
}

proof fn lemma_instrs_prefix(
    st: StateTable,
    c: CursorView,
    a: Seq<InstrView>,
    b: Seq<InstrView>,
    n: nat,
)
    requires
        n <= a.len(),
    ensures
        parser::instrs_step(st, c, a + b, n) == parser::instrs_step(st, c, a, n),
        laws::instrs_trace(st, c, a + b, n) == laws::instrs_trace(st, c, a, n),
    decreases n,
{
    if n > 0 {
        lemma_instrs_prefix(st, c, a, b, (n - 1) as nat);
        assert((a + b)[n - 1] == a[n - 1]);
    }
}

proof fn lemma_instrs_spliced(
    st: StateTable,
    c: CursorView,
    a: Seq<InstrView>,
    b: Seq<InstrView>,
    n: nat,
)
    requires
        n <= b.len(),
    ensures
        ({
            let (d, e) = parser::instrs_step(st, c, a, a.len());
            let (f, g) = parser::instrs_step(st, d, b, n);
            &&& parser::instrs_step(st, c, a + b, a.len() + n) == (f, parser::later(e, g))
            &&& laws::instrs_trace(st, c, a + b, a.len() + n) == laws::instrs_trace(
                st,
                c,
                a,
                a.len(),
            ) + laws::instrs_trace(st, d, b, n)
        }),
    decreases n,
{
    let (d, e) = parser::instrs_step(st, c, a, a.len());
    if n == 0 {
        lemma_instrs_prefix(st, c, a, b, a.len());
        let x = laws::instrs_trace(st, c, a, a.len());
        assert(x + Seq::<RawView>::empty() =~= x);
    } else {
        lemma_instrs_spliced(st, c, a, b, (n - 1) as nat);
        assert((a + b)[a.len() + n - 1] == b[n - 1]);
        assert((a.len() + n - 1) as nat == a.len() + (n - 1) as nat);
        let f = parser::instrs_step(st, d, b, (n - 1) as nat).0;
        let x = laws::instrs_trace(st, c, a, a.len());
        let y = laws::instrs_trace(st, d, b, (n - 1) as nat);
        let z = laws::listed(parser::instr_step(st, f, b[n - 1]).1);
        assert((x + y) + z =~= x + (y + z));
    }
}

/// A body and the one that its jump leads to, one after the other.
proof fn lemma_spliced(st: StateTable, c: CursorView, a: BodyView, b: BodyView)
    requires
        a.tail is Jump,
    ensures
        ({
            let (d, e) = parser::body_step(st, c, a);
            let (f, g) = parser::body_step(st, d, b);
            &&& parser::body_step(st, c, optimize::spliced(a, b)) == (f, parser::later(e, g))
            &&& laws::body_trace(st, c, optimize::spliced(a, b)) == laws::body_trace(st, c, a)
                + laws::body_trace(st, d, b)
        }),
{
    let (x, e) = parser::instrs_step(st, c, a.instrs, a.instrs.len());
    lemma_instrs_spliced(st, c, a.instrs, b.instrs, b.instrs.len());
    lemma_body_state(st, x, a.tail->Jump_0, b);
    let p = laws::instrs_trace(st, c, a.instrs, a.instrs.len());
    let q = laws::instrs_trace(st, x, b.instrs, b.instrs.len());
    let y = parser::instrs_step(st, x, b.instrs, b.instrs.len()).0;
    let r = laws::tail_trace(st, y, b.tail);
    assert((p + q) + r =~= p + (q + r));
    assert(p + Seq::<RawView>::empty() =~= p);
    assert(laws::body_trace(st, c, a) == p);
}

/// Steps that take no token read nothing.
proof fn lemma_no_expect(st: StateTable, c: CursorView, l: Seq<InstrView>, n: nat)
    requires
        n <= l.len(),
        !validate::has_expect(l),
    ensures
        ({
            let d = parser::instrs_step(st, c, l, n).0;
            d.look == c.look && d.recovery == c.recovery && d.lex == c.lex
        }),
    decreases n,
{
    if n > 0 {
        lemma_no_expect(st, c, l, (n - 1) as nat);
        assert(!(l[n - 1] is Expect));
    }
}

proof fn lemma_no_events(l: Seq<InstrView>, i: int)
    requires
        validate::instrs_events(l) == 0,
        0 <= i < l.len(),
    ensures
        l[i] is PushRet,
    decreases l.len(),
{
    if i < l.len() - 1 {
        lemma_no_events(l.drop_last(), i);
        assert(l.drop_last()[i] == l[i]);
    }
}

proof fn lemma_events_joined(a: Seq<InstrView>, b: Seq<InstrView>)
    ensures
        validate::instrs_events(a + b) == validate::instrs_events(a) + validate::instrs_events(b),
    decreases b.len(),
{
    if b.len() == 0 {
        assert(a + b =~= a);
    } else {
        assert((a + b).drop_last() =~= a + b.drop_last());
        assert((a + b).last() == b.last());
        lemma_events_joined(a, b.drop_last());
    }
}

proof fn lemma_expect_counts(l: Seq<InstrView>)
    requires
        validate::has_expect(l),
    ensures
        validate::instrs_events(l) >= 1,
    decreases l.len(),
{
    let i = choose|i: int| 0 <= i < l.len() && (#[trigger] l[i]) is Expect;
    if i < l.len() - 1 {
        assert(l.drop_last()[i] is Expect);
        lemma_expect_counts(l.drop_last());
    }
}

/// No state has the id that stands for the end.
pub open spec fn ends_apart(states: Seq<StateView>) -> bool {
    !table::has_state(states, TERMINATED)
}

/// A state with a body is there.
proof fn lemma_body_there(states: Seq<StateView>, s: u32)
    requires
        table::body_of(states, s) is Some,
    ensures
        exists|i: int|
            0 <= i < states.len() && (#[trigger] states[i]).id == s && table::body_of(states, s)
                == Some(states[i].body),
        table::has_state(states, s),
{
    laws::lemma_body_of(states, s);
}

/// The event list of one event or none.
proof fn lemma_listed_later(e: Option<RawView>, g: Option<RawView>)
    requires
        (laws::listed(e) + laws::listed(g)).len() <= 1,
    ensures
        laws::listed(e) + laws::listed(g) == laws::listed(parser::later(e, g)),
{
    if g is None {
        assert(laws::listed(e) + laws::listed(g) =~= laws::listed(e));
    } else {
        assert(laws::listed(e) + laws::listed(g) =~= laws::listed(g));
    }
}

/// One turn of a parser that is ready.
pub proof fn lemma_ready_turn(
    st: StateTable,
    states: Seq<StateView>,
    m: TableMatcher,
    emit: bool,
    c: CursorView,
    n: nat,
)
    requires
        simulation::ready(st, c),
        c.state != TERMINATED,
    ensures
        ({
            let (d, e) = simulation::state_step(st, states, c);
            let p = simulation::at(c);
            let q = simulation::at(d);
            &&& simulation::after_in(st, states, m, emit, p, n + 1) == simulation::after_in(
                st,
                states,
                m,
                emit,
                q,
                n,
            )
            &&& simulation::events_in(st, states, m, emit, p, n + 1) == laws::listed(e)
                + simulation::events_in(st, states, m, emit, q, n)
        }),
{
    let (d, e) = simulation::state_step(st, states, c);
    let p = simulation::at(c);
    let q = simulation::at(d);
    let rest = simulation::events_in(st, states, m, emit, q, n);
    assert(simulation::turn_in(st, states, m, emit, p) == (q, parser::turn_of(e)));
    assert(((n + 1) - 1) as nat == n);
    if e is None {
        assert(Seq::<RawView>::empty() + rest =~= rest);
    }
}

proof fn lemma_alike_self(c: CursorView)
    ensures
        simulation::alike(Set::empty(), c, c),
{
    simulation::lemma_thin_same(Set::empty(), c.ret);
}

/// Running a body with the bodies taken in that its jumps lead to is running
/// it and going on.
proof fn lemma_absorbed_run(
    st: StateTable,
    states: Seq<StateView>,
    m: TableMatcher,
    emit: bool,
    body: BodyView,
    visited: Seq<u32>,
    c: CursorView,
) -> (r: (nat, nat))
    requires
        validate::all_valid(states),
        ends_apart(states),
        validate::valid_body(body),
        simulation::ready(st, c),
    ensures
        ({
            let (d, e) = parser::body_step(st, c, body);
            let (f, g) = parser::body_step(st, c, optimize::absorbed(states, body, visited));
            let q = simulation::after_in(st, states, m, emit, simulation::at(d), r.0);
            &&& laws::listed(e) + simulation::events_in(
                st,
                states,
                m,
                emit,
                simulation::at(d),
                r.0,
            ) == laws::listed(g)
            &&& q.garbage is None
            &&& simulation::behind(
                st,
                states,
                simulation::alike_base(Set::empty()),
                q.cursor,
                f,
                r.1,
            )
            &&& validate::has_expect(body.instrs) ==> r.0 == 0
        }),
    decreases states.len() - visited.len(),
{
    let (d, e) = parser::body_step(st, c, body);
    let goes = match body.tail {
        TailView::Jump(t) => !(visited.contains(t) || visited.len() >= states.len())
            && table::body_of(states, t) is Some && validate::valid_body(
            optimize::spliced(body, table::body_of(states, t)->0),
        ),
        _ => false,
    };
    if goes {
        let t = body.tail->Jump_0;
        let next = table::body_of(states, t)->0;
        let joint = optimize::spliced(body, next);
        let (k, j) = lemma_absorbed_run(st, states, m, emit, joint, visited.push(t), c);
        let (f, g) = parser::body_step(st, d, next);
        lemma_spliced(st, c, body, next);
        lemma_body_there(states, t);
        let i = choose|i: int|
            0 <= i < states.len() && (#[trigger] states[i]).id == t && states[i].body == next;
        assert(validate::valid_body(states[i].body));
        assert(t != TERMINATED);
        laws::law_no_event_is_lost(st, c, body);
        laws::law_no_event_is_lost(st, d, next);
        laws::law_no_event_is_lost(st, c, joint);
        lemma_listed_later(e, g);
        if validate::has_expect(body.instrs) {
            lemma_expect_counts(body.instrs);
            lemma_events_joined(body.instrs, next.instrs);
            assert forall|i: int| 0 <= i < next.instrs.len() implies (
            #[trigger] next.instrs[i]) is PushRet by {
                lemma_no_events(next.instrs, i);
            }
            let i = choose|i: int| 0 <= i < body.instrs.len() && (#[trigger] body.instrs[i]) is Expect;
            assert(joint.instrs[i] is Expect);
            assert(validate::has_expect(joint.instrs));
            assert(simulation::quiet(next));
            simulation::lemma_quiet_reading(st, d, next);
            assert(d.state == t);
            (0, j + 1)
        } else {
            lemma_no_expect(st, c, body.instrs, body.instrs.len());
            lemma_ready_turn(st, states, m, emit, d, k);
            let rest = simulation::events_in(st, states, m, emit, simulation::at(f), k);
            assert((laws::listed(e) + laws::listed(g)) + rest =~= laws::listed(e) + (
            laws::listed(g) + rest));
            (k + 1, j)
        }
    } else {
        assert(optimize::absorbed(states, body, visited) == body);
        lemma_alike_self(d);
        assert(laws::listed(e) + Seq::<RawView>::empty() =~= laws::listed(e));
        (0, 0)
    }
}

/// Behind is behind what is alike.
proof fn lemma_behind_right(
    st: StateTable,
    states: Seq<StateView>,
    t: Set<u32>,
    c: CursorView,
    d: CursorView,
    e: CursorView,
    j: nat,
)
    requires
        simulation::behind(st, states, simulation::alike_base(t), c, d, j),
        simulation::alike(Set::empty(), d, e),
    ensures
        simulation::behind(st, states, simulation::alike_base(t), c, e, j),
    decreases j,
{
    if j == 0 {
        lemma_thin_right(t, c.ret, d.ret, e.ret);
    } else {
        let b = table::body_of(states, c.state)->0;
        lemma_behind_right(
            st,
            states,
            t,
            parser::body_step(st, c, b).0,
            d,
            e,
            (j - 1) as nat,
        );
    }
}

proof fn lemma_thin_right(
    t: Set<u32>,
    a: Seq<(u32, nat)>,
    b: Seq<(u32, nat)>,
    e: Seq<(u32, nat)>,
)
    requires
        simulation::thin(t, a, b),
        simulation::thin(Set::empty(), b, e),
    ensures
        simulation::thin(t, a, e),
    decreases a.len(),
{
    if a.len() > 0 {
        if b.len() > 0 && a.last().0 == b.last().0 && simulation::thin(
            t,
            a.drop_last(),
            b.drop_last(),
        ) {
            lemma_thin_right(t, a.drop_last(), b.drop_last(), e.drop_last());
        } else {
            lemma_thin_right(t, a.drop_last(), b, e);
        }
    }
}

/// States with other bodies, by id.
proof fn lemma_mapped_body(a: Seq<StateView>, b: Seq<StateView>, s: u32)
    requires
        table::ascending(a),
        a.len() == b.len(),
        forall|i: int| 0 <= i < a.len() ==> (#[trigger] b[i]).id == a[i].id,
    ensures
        match table::body_of(a, s) {
            Some(x) => exists|i: int|
                0 <= i < a.len() && (#[trigger] a[i]).id == s && a[i].body == x && table::body_of(
                    b,
                    s,
                ) == Some(b[i].body),
            None => table::body_of(b, s) is None,
        },
{
    if table::body_of(a, s) is Some {
        lemma_body_there(a, s);
        let i = choose|i: int|
            0 <= i < a.len() && (#[trigger] a[i]).id == s && table::body_of(a, s) == Some(
                a[i].body,
            );
        assert forall|x: int, y: int| 0 <= x < y < b.len() implies (#[trigger] b[x]).id < (
        #[trigger] b[y]).id by {
            assert(a[x].id < a[y].id);
        }
        table::lemma_body_at(b, i);
        assert(b[i].id == s);
    } else {
        assert forall|i: int| 0 <= i < b.len() implies (#[trigger] b[i]).id != s by {
            if b[i].id == s {
                table::lemma_body_at(a, i);
            }
        }
        table::lemma_no_body(b, s);
    }
}

/// Two runs of a valid body from cursors that are alike.
proof fn lemma_valid_close(
    st: StateTable,
    states: Seq<StateView>,
    c: CursorView,
    d: CursorView,
    b: BodyView,
)
    requires
        validate::valid_body(b),
        simulation::alike(Set::empty(), c, d),
        simulation::calm(d, parser::body_step(st, d, b).1),
    ensures
        simulation::alike(
            Set::empty(),
            parser::body_step(st, c, b).0,
            parser::body_step(st, d, b).0,
        ),
        parser::body_step(st, c, b).1 == parser::body_step(st, d, b).1,
{
    simulation::lemma_thin_empty(c.ret, d.ret);
    laws::law_no_event_is_lost(st, d, b);
    let e = parser::body_step(st, d, b).1;
    if let Some(x) = e {
        assert(laws::listed(e)[0] == x);
    }
    let j = simulation::lemma_body_close(st, states, Set::empty(), d, c, b);
    let f = parser::body_step(st, d, b).0;
    let g = parser::body_step(st, c, b).0;
    assert(simulation::alike(Set::empty(), f, g));
    simulation::lemma_thin_empty(f.ret, g.ret);
}

proof fn lemma_alike_carries(
    st: StateTable,
    slow: Seq<StateView>,
    fast: Seq<StateView>,
    m: TableMatcher,
    emit: bool,
    t: Set<u32>,
)
    requires
        forall|c: CursorView, d: CursorView| #[trigger]
            simulation::alike(t, c, d) && simulation::ready(st, c) && d.state != TERMINATED
                ==> simulation::steps_match(
                st,
                slow,
                fast,
                m,
                emit,
                simulation::alike_base(t),
                c,
                d,
            ),
    ensures
        simulation::carries(st, slow, fast, m, emit, simulation::alike_base(t)),
{
    let base = simulation::alike_base(t);
    assert forall|c: CursorView, e: CursorView, d: CursorView| #[trigger]
        base(c, d) && #[trigger] simulation::alike(Set::empty(), c, e) implies base(e, d) by {
        simulation::lemma_thin_other(t, c.ret, e.ret, d.ret);
    }
    assert forall|c: CursorView, d: CursorView| #[trigger]
        base(c, d) && simulation::ready(st, c) && d.state
            != TERMINATED implies simulation::steps_match(
        st,
        slow,
        fast,
        m,
        emit,
        base,
        c,
        d,
    ) by {
        assert(simulation::alike(t, c, d));
    }
}

proof fn lemma_jumps_step(
    st: StateTable,
    states: Seq<StateView>,
    m: TableMatcher,
    emit: bool,
    c: CursorView,
    d: CursorView,
)
    requires
        table::ascending(states),
        validate::all_valid(states),
        ends_apart(states),
        simulation::alike(Set::empty(), c, d),
        simulation::ready(st, c),
        d.state != TERMINATED,
    ensures
        simulation::steps_match(
            st,
            states,
            optimize::jumps_inlined(states),
            m,
            emit,
            simulation::alike_base(Set::empty()),
            c,
            d,
        ),
{
    let fast = optimize::jumps_inlined(states);
    let base = simulation::alike_base(Set::empty());
    let (f, e) = simulation::state_step(st, fast, d);
    if simulation::calm(d, e) {
        lemma_mapped_body(states, fast, c.state);
        match table::body_of(states, c.state) {
            Some(b) => {
                let i = choose|i: int|
                    0 <= i < states.len() && (#[trigger] states[i]).id == c.state
                        && states[i].body == b && table::body_of(fast, c.state) == Some(
                        fast[i].body,
                    );
                assert(validate::valid_body(states[i].body));
                let visited = seq![states[i].id];
                let whole = optimize::absorbed(states, b, visited);
                kept::lemma_absorbed_valid(states, b, visited);
                lemma_valid_close(st, states, c, d, whole);
                let (k, j) = lemma_absorbed_run(st, states, m, emit, b, visited, c);
                lemma_ready_turn(st, states, m, emit, c, k);
                let q = simulation::after_in(st, states, m, emit, simulation::at(c), k + 1);
                lemma_behind_right(
                    st,
                    states,
                    Set::empty(),
                    q.cursor,
                    parser::body_step(st, c, whole).0,
                    f,
                    j,
                );
                assert(simulation::reaches(st, states, m, emit, base, c, f, e, k + 1, j));
            },
            None => {
                lemma_ready_turn(st, states, m, emit, c, 0);
                assert(laws::listed(e) + Seq::<RawView>::empty() =~= laws::listed(e));
                assert(simulation::reaches(st, states, m, emit, base, c, f, e, 1, 0));
            },
        }
    }
}

/// Taking in the states that jumps lead to changes no event.
pub proof fn lemma_jumps_carry(
    st: StateTable,
    states: Seq<StateView>,
    m: TableMatcher,
    emit: bool,
)
    requires
        table::ascending(states),
        validate::all_valid(states),
        ends_apart(states),
    ensures
        simulation::carries(
            st,
            states,
            optimize::jumps_inlined(states),
            m,
            emit,
            simulation::alike_base(Set::empty()),
        ),
{
    assert forall|c: CursorView, d: CursorView| #[trigger]
        simulation::alike(Set::empty(), c, d) && simulation::ready(st, c) && d.state
            != TERMINATED implies simulation::steps_match(
        st,
        states,
        optimize::jumps_inlined(states),
        m,
        emit,
        simulation::alike_base(Set::empty()),
        c,
        d,
    ) by {
        lemma_jumps_step(st, states, m, emit, c, d);
    }
    lemma_alike_carries(st, states, optimize::jumps_inlined(states), m, emit, Set::empty());
}

/// Running a branch with the state taken in that it jumps to is running it
/// and going on.
proof fn lemma_branch_run(
    st: StateTable,
    states: Seq<StateView>,
    entries: Seq<u32>,
    m: TableMatcher,
    emit: bool,
    b: BodyView,
    depth: nat,
    c: CursorView,
) -> (k: nat)
    requires
        ends_apart(states),
        validate::valid_body(optimize::branch_inlined(states, entries, b, depth)),
        simulation::ready(st, c),
    ensures
        goes_to(
            st,
            states,
            m,
            emit,
            parser::body_step(st, c, b),
            parser::body_step(st, c, optimize::branch_inlined(states, entries, b, depth)),
            k,
        ),
    decreases depth, b, 2nat,
{
    match optimize::branch_target(states, entries, b) {
        Some(next) => {
            if depth == 0 {
                lemma_goes_nowhere(st, states, m, emit, parser::body_step(st, c, b));
                0
            } else {
                let s = b.tail->Jump_0;
                let d = parser::at_state(c, s);
                assert(parser::instrs_step(st, c, b.instrs, b.instrs.len()) == (
                    c,
                    None::<RawView>,
                ));
                assert(parser::body_step(st, c, b) == (d, None::<RawView>));
                lemma_body_there(states, s);
                lemma_body_state(st, c, s, next);
                let k = lemma_same_run(
                    st,
                    states,
                    entries,
                    m,
                    emit,
                    next,
                    (depth - 1) as nat,
                    c,
                );
                lemma_ready_turn(st, states, m, emit, d, k);
                let all = simulation::events_in(st, states, m, emit, simulation::at(d), k + 1);
                assert(Seq::<RawView>::empty() + all =~= all);
                k + 1
            }
        },
        None => lemma_same_run(st, states, entries, m, emit, b, depth, c),
    }
}

/// From the first result, `k` more turns lead to the second.
spec fn goes_to(
    st: StateTable,
    states: Seq<StateView>,
    m: TableMatcher,
    emit: bool,
    a: (CursorView, Option<RawView>),
    b: (CursorView, Option<RawView>),
    k: nat,
) -> bool {
    &&& laws::listed(a.1) + simulation::events_in(
        st,
        states,
        m,
        emit,
        simulation::at(a.0),
        k,
    ) == laws::listed(b.1)
    &&& simulation::after_in(st, states, m, emit, simulation::at(a.0), k) == simulation::at(b.0)
}

proof fn lemma_goes_nowhere(
    st: StateTable,
    states: Seq<StateView>,
    m: TableMatcher,
    emit: bool,
    a: (CursorView, Option<RawView>),
)
    ensures
        goes_to(st, states, m, emit, a, a, 0),
{
    assert(laws::listed(a.1) + Seq::<RawView>::empty() =~= laws::listed(a.1));
}

/// The body with its branches inlined.
spec fn inlined(
    states: Seq<StateView>,
    entries: Seq<u32>,
    b: BodyView,
    depth: nat,
) -> BodyView {
    BodyView { instrs: b.instrs, tail: optimize::tail_inlined(states, entries, b.tail, depth) }
}

proof fn lemma_same_run(
    st: StateTable,
    states: Seq<StateView>,
    entries: Seq<u32>,
    m: TableMatcher,
    emit: bool,
    b: BodyView,
    depth: nat,
    c: CursorView,
) -> (k: nat)
    requires
        ends_apart(states),
        validate::valid_body(inlined(states, entries, b, depth)),
        simulation::ready(st, c),
    ensures
        goes_to(
            st,
            states,
            m,
            emit,
            parser::body_step(st, c, b),
            parser::body_step(st, c, inlined(states, entries, b, depth)),
            k,
        ),
    decreases depth, b, 1nat,
{
    let x = inlined(states, entries, b, depth);
    let n = b.instrs.len();
    if validate::has_expect(b.instrs) {
        assert(!validate::reads_ahead(x.tail));
        assert(x.tail == b.tail);
        lemma_goes_nowhere(st, states, m, emit, parser::body_step(st, c, b));
        0
    } else {
        let (d, e) = parser::instrs_step(st, c, b.instrs, n);
        lemma_no_expect(st, c, b.instrs, n);
        let k = lemma_tail_run(st, states, entries, m, emit, b.tail, depth, d);
        let (f, g) = parser::tail_step(st, d, b.tail);
        let (h, i) = parser::tail_step(st, d, x.tail);
        assert(b.instrs.take(n as int) =~= b.instrs);
        laws::lemma_instrs_trace(st, c, b.instrs, n);
        laws::lemma_tail_trace(st, d, x.tail);
        let rest = simulation::events_in(st, states, m, emit, simulation::at(f), k);
        if e is Some {
            assert(laws::listed(e).len() == 1);
            assert(laws::listed(i).len() == 0);
            assert((laws::listed(g) + rest).len() == 0);
            assert(g is None);
            assert(rest =~= Seq::empty());
            assert(laws::listed(e) + rest =~= laws::listed(e));
        }
        k
    }
}

proof fn lemma_tail_run(
    st: StateTable,
    states: Seq<StateView>,
    entries: Seq<u32>,
    m: TableMatcher,
    emit: bool,
    t: TailView,
    depth: nat,
    c: CursorView,
) -> (k: nat)
    requires
        ends_apart(states),
        validate::tail_events(optimize::tail_inlined(states, entries, t, depth)) <= 1,
        validate::tail_no_peek(optimize::tail_inlined(states, entries, t, depth)),
        simulation::ready(st, c),
    ensures
        goes_to(
            st,
            states,
            m,
            emit,
            parser::tail_step(st, c, t),
            parser::tail_step(st, c, optimize::tail_inlined(states, entries, t, depth)),
            k,
        ),
    decreases depth, t, 0nat,
{
    match t {
        TailView::Star(first, x, cont, head) => {
            if parser::in_first(c, parser::first_seqs(st, first)) {
                lemma_branch_run(
                    st,
                    states,
                    entries,
                    m,
                    emit,
                    *x,
                    depth,
                    parser::pushed(c, head),
                )
            } else {
                lemma_goes_nowhere(st, states, m, emit, parser::tail_step(st, c, t));
                0
            }
        },
        TailView::Opt(first, x, cont) => {
            if parser::in_first(c, parser::first_seqs(st, first)) {
                lemma_branch_run(
                    st,
                    states,
                    entries,
                    m,
                    emit,
                    *x,
                    depth,
                    parser::calling(c, cont),
                )
            } else {
                lemma_goes_nowhere(st, states, m, emit, parser::tail_step(st, c, t));
                0
            }
        },
        TailView::Dispatch(tree, sync, cont, l) => lemma_tree_run(
            st,
            states,
            entries,
            m,
            emit,
            tree,
            depth,
            c,
            sync,
            cont,
            l,
        ),
        _ => {
            lemma_goes_nowhere(st, states, m, emit, parser::tail_step(st, c, t));
            0
        },
    }
}

proof fn lemma_leaf_run(
    st: StateTable,
    states: Seq<StateView>,
    entries: Seq<u32>,
    m: TableMatcher,
    emit: bool,
    leaf: LeafView,
    depth: nat,
    c: CursorView,
    sync: u32,
    cont: Option<u32>,
    l: Seq<InsertionView>,
) -> (k: nat)
    requires
        ends_apart(states),
        validate::leaf_events(optimize::leaf_inlined(states, entries, leaf, depth)) <= 1,
        validate::leaf_no_peek(optimize::leaf_inlined(states, entries, leaf, depth)),
        simulation::ready(st, c),
    ensures
        goes_to(
            st,
            states,
            m,
            emit,
            parser::leaf_step(st, c, leaf, sync, cont, l),
            parser::leaf_step(
                st,
                c,
                optimize::leaf_inlined(states, entries, leaf, depth),
                sync,
                cont,
                l,
            ),
            k,
        ),
    decreases depth, leaf, 0nat,
{
    match leaf {
        LeafView::Arm(x) => lemma_branch_run(
            st,
            states,
            entries,
            m,
            emit,
            *x,
            depth,
            parser::calling(c, cont),
        ),
        _ => {
            lemma_goes_nowhere(
                st,
                states,
                m,
                emit,
                parser::leaf_step(st, c, leaf, sync, cont, l),
            );
            0
        },
    }
}

proof fn lemma_tree_run(
    st: StateTable,
    states: Seq<StateView>,
    entries: Seq<u32>,
    m: TableMatcher,
    emit: bool,
    tree: TreeView,
    depth: nat,
    c: CursorView,
    sync: u32,
    cont: Option<u32>,
    l: Seq<InsertionView>,
) -> (k: nat)
    requires
        ends_apart(states),
        validate::tree_events(optimize::tree_inlined(states, entries, tree, depth)) <= 1,
        validate::tree_no_peek(optimize::tree_inlined(states, entries, tree, depth)),
        simulation::ready(st, c),
    ensures
        goes_to(
            st,
            states,
            m,
            emit,
            parser::tree_step(st, c, tree, sync, cont, l),
            parser::tree_step(
                st,
                c,
                optimize::tree_inlined(states, entries, tree, depth),
                sync,
                cont,
                l,
            ),
            k,
        ),
    decreases depth, tree, 0nat,
{
    match tree {
        TreeView::Leaf(leaf) => lemma_leaf_run(
            st,
            states,
            entries,
            m,
            emit,
            leaf,
            depth,
            c,
            sync,
            cont,
            l,
        ),
        TreeView::Switch(at, kinds, subs, default) => {
            let j = parser::arm_for(kinds, parser::look_kind(c, at as int));
            let next = optimize::trees_inlined(states, entries, subs, depth);
            if 0 <= j < subs.len() {
                laws::lemma_trees_events(next, next.len(), j);
                assert(validate::tree_no_peek(next[j]));
                assert(next[j] == optimize::tree_inlined(states, entries, subs[j], depth));
                lemma_tree_run(
                    st,
                    states,
                    entries,
                    m,
                    emit,
                    subs[j],
                    depth,
                    c,
                    sync,
                    cont,
                    l,
                )
            } else {
                lemma_leaf_run(
                    st,
                    states,
                    entries,
                    m,
                    emit,
                    default,
                    depth,
                    c,
                    sync,
                    cont,
                    l,
                )
            }
        },
    }
}

proof fn lemma_branches_step(
    st: StateTable,
    states: Seq<StateView>,
    entries: Seq<u32>,
    m: TableMatcher,
    emit: bool,
    c: CursorView,
    d: CursorView,
)
    requires
        table::ascending(states),
        validate::all_valid(states),
        ends_apart(states),
        simulation::alike(Set::empty(), c, d),
        simulation::ready(st, c),
        d.state != TERMINATED,
    ensures
        simulation::steps_match(
            st,
            states,
            optimize::branches_inlined(states, entries),
            m,
            emit,
            simulation::alike_base(Set::empty()),
            c,
            d,
        ),
{
    let fast = optimize::branches_inlined(states, entries);
    let base = simulation::alike_base(Set::empty());
    let (f, e) = simulation::state_step(st, fast, d);
    if simulation::calm(d, e) {
        lemma_mapped_body(states, fast, c.state);
        match table::body_of(states, c.state) {
            Some(b) => {
                let i = choose|i: int|
                    0 <= i < states.len() && (#[trigger] states[i]).id == c.state
                        && states[i].body == b && table::body_of(fast, c.state) == Some(
                        fast[i].body,
                    );
                assert(validate::valid_body(states[i].body));
                let whole = optimize::body_inlined(states, entries, b);
                assert(fast[i].body == whole);
                lemma_valid_close(st, states, c, d, whole);
                let depth = usize::MAX as nat;
                let k = if validate::valid_body(inlined(states, entries, b, depth)) {
                    lemma_same_run(st, states, entries, m, emit, b, depth, c)
                } else {
                    lemma_goes_nowhere(st, states, m, emit, parser::body_step(st, c, b));
                    0
                };
                lemma_ready_turn(st, states, m, emit, c, k);
                assert(simulation::reaches(st, states, m, emit, base, c, f, e, k + 1, 0));
            },
            None => {
                lemma_ready_turn(st, states, m, emit, c, 0);
                assert(laws::listed(e) + Seq::<RawView>::empty() =~= laws::listed(e));
                assert(simulation::reaches(st, states, m, emit, base, c, f, e, 1, 0));
            },
        }
    }
}

/// Inlining branches changes no event.
pub proof fn lemma_branches_carry(
    st: StateTable,
    states: Seq<StateView>,
    entries: Seq<u32>,
    m: TableMatcher,
    emit: bool,
)
    requires
        table::ascending(states),
        validate::all_valid(states),
        ends_apart(states),
    ensures
        simulation::carries(
            st,
            states,
            optimize::branches_inlined(states, entries),
            m,
            emit,
            simulation::alike_base(Set::empty()),
        ),
{
    let fast = optimize::branches_inlined(states, entries);
    assert forall|c: CursorView, d: CursorView| #[trigger]
        simulation::alike(Set::empty(), c, d) && simulation::ready(st, c) && d.state
            != TERMINATED implies simulation::steps_match(
        st,
        states,
        fast,
        m,
        emit,
        simulation::alike_base(Set::empty()),
        c,
        d,
    ) by {
        lemma_branches_step(st, states, entries, m, emit, c, d);
    }
    lemma_alike_carries(st, states, fast, m, emit, Set::empty());
}

/// The states that only return and are no entry points.
pub open spec fn trampolines(states: Seq<StateView>, entries: Seq<u32>) -> Set<u32> {
    Set::new(|s: u32| optimize::only_returns(states, entries, s))
}

proof fn lemma_folded_instrs(
    st: StateTable,
    states: Seq<StateView>,
    entries: Seq<u32>,
    c: CursorView,
    d: CursorView,
    l: Seq<InstrView>,
)
    requires
        simulation::close(trampolines(states, entries), c, d),
        ({
            let f = optimize::instrs_folded(states, entries, l);
            c.lex.modes.len() == 1 || tree::clean(laws::instrs_trace(st, d, f, f.len()))
        }),
    ensures
        ({
            let f = optimize::instrs_folded(states, entries, l);
            let (x, e) = parser::instrs_step(st, c, l, l.len());
            let (y, g) = parser::instrs_step(st, d, f, f.len());
            &&& simulation::close(trampolines(states, entries), x, y)
            &&& e == g
        }),
    decreases l.len(),
{
    let t = trampolines(states, entries);
    if l.len() > 0 {
        let p = l.drop_last();
        let a = optimize::instrs_folded(states, entries, p);
        let f = optimize::instrs_folded(states, entries, l);
        let i = l.last();
        assert(l =~= p + seq![i]);
        lemma_instrs_prefix(st, c, p, seq![i], p.len());
        if f.len() > a.len() {
            assert(f =~= a + seq![i]);
            lemma_instrs_prefix(st, d, a, seq![i], a.len());
            let y = parser::instrs_step(st, d, a, a.len()).0;
            let g = parser::instr_step(st, y, i).1;
            assert(f[f.len() - 1] == i);
            if c.lex.modes.len() != 1 {
                tree::lemma_clean_parts(laws::instrs_trace(st, d, a, a.len()), laws::listed(g));
                if let Some(x) = g {
                    assert(laws::listed(g)[0] == x);
                }
            } else {
                simulation::lemma_one_mode(st, c, p, p.len());
            }
            lemma_folded_instrs(st, states, entries, c, d, p);
            let x = parser::instrs_step(st, c, p, p.len()).0;
            simulation::lemma_instr_close(st, t, x, y, i);
        } else {
            assert(f =~= a);
            lemma_folded_instrs(st, states, entries, c, d, p);
            let x = parser::instrs_step(st, c, p, p.len()).0;
            let y = parser::instrs_step(st, d, a, a.len()).0;
            let s = i->PushRet_0;
            assert(t.contains(s));
            simulation::lemma_thin_push(t, x.ret, y.ret, s, x.lex.modes.len(), 0);
        }
    }
}

/// The continuation was kept, or it only returns.
spec fn conts_match(t: Set<u32>, a: Option<u32>, b: Option<u32>) -> bool {
    a == b || (b is None && a is Some && t.contains(a->0))
}

proof fn lemma_go_on_folded(
    st: StateTable,
    states: Seq<StateView>,
    t: Set<u32>,
    c: CursorView,
    d: CursorView,
    a: Option<u32>,
    b: Option<u32>,
) -> (j: nat)
    requires
        simulation::only_return(states, t),
        simulation::close(t, c, d),
        conts_match(t, a, b),
    ensures
        simulation::behind(
            st,
            states,
            simulation::alike_base(t),
            parser::go_on(c, a),
            parser::go_on(d, b),
            j,
        ),
{
    if a == b {
        simulation::lemma_go_on_close(st, states, t, c, d, a)
    } else {
        let e = parser::at_state(c, a->0);
        let j = simulation::lemma_returned_close(st, states, t, e, d);
        simulation::lemma_ret_body(st, e);
        j + 1
    }
}

proof fn lemma_calling_folded(
    t: Set<u32>,
    c: CursorView,
    d: CursorView,
    a: Option<u32>,
    b: Option<u32>,
)
    requires
        simulation::close(t, c, d),
        conts_match(t, a, b),
    ensures
        simulation::close(t, parser::calling(c, a), parser::calling(d, b)),
{
    if a == b {
        simulation::lemma_calling_close(t, c, d, a);
    } else {
        simulation::lemma_thin_push(t, c.ret, d.ret, a->0, c.lex.modes.len(), 0);
    }
}

proof fn lemma_leaf_folded(
    st: StateTable,
    states: Seq<StateView>,
    t: Set<u32>,
    c: CursorView,
    d: CursorView,
    leaf: LeafView,
    sync: u32,
    a: Option<u32>,
    b: Option<u32>,
    l: Seq<InsertionView>,
) -> (j: nat)
    requires
        simulation::only_return(states, t),
        simulation::close(t, c, d),
        conts_match(t, a, b),
        c.lex.modes.len() == 1 || tree::clean(laws::leaf_trace(st, d, leaf, sync, b, l)),
    ensures
        simulation::behind(
            st,
            states,
            simulation::alike_base(t),
            parser::leaf_step(st, c, leaf, sync, a, l).0,
            parser::leaf_step(st, d, leaf, sync, b, l).0,
            j,
        ),
        parser::leaf_step(st, c, leaf, sync, a, l).1 == parser::leaf_step(
            st,
            d,
            leaf,
            sync,
            b,
            l,
        ).1,
{
    match leaf {
        LeafView::Arm(x) => {
            lemma_calling_folded(t, c, d, a, b);
            simulation::lemma_body_close(
                st,
                states,
                t,
                parser::calling(c, a),
                parser::calling(d, b),
                *x,
            )
        },
        LeafView::Fallthrough => lemma_go_on_folded(st, states, t, c, d, a, b),
        LeafView::Error => {
            assert(laws::leaf_trace(st, d, leaf, sync, b, l)[0] is Error);
            assert(c.lex.modes.len() == 1);
            assert(parser::look_kind(d, 0) == parser::look_kind(c, 0));
            let i = parser::insertion_for(l, parser::look_kind(c, 0));
            if i < l.len() {
                simulation::lemma_leaf_close(st, states, t, c, d, leaf, sync, a, l)
            } else {
                let j = lemma_go_on_folded(st, states, t, c, d, a, b);
                simulation::lemma_behind_armed(
                    st,
                    states,
                    t,
                    parser::go_on(c, a),
                    parser::go_on(d, b),
                    j,
                    parser::sync_kinds(st, sync),
                );
                j
            }
        },
    }
}

proof fn lemma_tree_folded(
    st: StateTable,
    states: Seq<StateView>,
    t: Set<u32>,
    c: CursorView,
    d: CursorView,
    tree: TreeView,
    sync: u32,
    a: Option<u32>,
    b: Option<u32>,
    l: Seq<InsertionView>,
) -> (j: nat)
    requires
        simulation::only_return(states, t),
        simulation::close(t, c, d),
        conts_match(t, a, b),
        c.lex.modes.len() == 1 || tree::clean(laws::tree_trace(st, d, tree, sync, b, l)),
    ensures
        simulation::behind(
            st,
            states,
            simulation::alike_base(t),
            parser::tree_step(st, c, tree, sync, a, l).0,
            parser::tree_step(st, d, tree, sync, b, l).0,
            j,
        ),
        parser::tree_step(st, c, tree, sync, a, l).1 == parser::tree_step(
            st,
            d,
            tree,
            sync,
            b,
            l,
        ).1,
    decreases tree,
{
    match tree {
        TreeView::Leaf(leaf) => lemma_leaf_folded(st, states, t, c, d, leaf, sync, a, b, l),
        TreeView::Switch(depth, kinds, subs, default) => {
            assert(parser::look_kind(d, depth as int) == parser::look_kind(c, depth as int));
            let i = parser::arm_for(kinds, parser::look_kind(c, depth as int));
            if 0 <= i < subs.len() {
                lemma_tree_folded(st, states, t, c, d, subs[i], sync, a, b, l)
            } else {
                lemma_leaf_folded(st, states, t, c, d, default, sync, a, b, l)
            }
        },
    }
}

proof fn lemma_body_folded(
    st: StateTable,
    states: Seq<StateView>,
    entries: Seq<u32>,
    c: CursorView,
    d: CursorView,
    b: BodyView,
) -> (j: nat)
    requires
        ends_apart(states),
        simulation::close(trampolines(states, entries), c, d),
        c.lex.modes.len() == 1 || tree::clean(
            laws::body_trace(st, d, optimize::body_folded(states, entries, b)),
        ),
    ensures
        ({
            let (x, e) = parser::body_step(st, c, b);
            let (y, g) = parser::body_step(st, d, optimize::body_folded(states, entries, b));
            &&& simulation::behind(
                st,
                states,
                simulation::alike_base(trampolines(states, entries)),
                x,
                y,
                j,
            )
            &&& e == g
        }),
{
    let t = trampolines(states, entries);
    let w = optimize::body_folded(states, entries, b);
    assert(simulation::only_return(states, t)) by {
        if t.contains(TERMINATED) {
            lemma_body_there(states, TERMINATED);
        }
    }
    let y = parser::instrs_step(st, d, w.instrs, w.instrs.len()).0;
    if c.lex.modes.len() == 1 {
        simulation::lemma_one_mode(st, c, b.instrs, b.instrs.len());
    } else {
        tree::lemma_clean_parts(
            laws::instrs_trace(st, d, w.instrs, w.instrs.len()),
            laws::tail_trace(st, y, w.tail),
        );
    }
    lemma_folded_instrs(st, states, entries, c, d, b.instrs);
    let x = parser::instrs_step(st, c, b.instrs, b.instrs.len()).0;
    match b.tail {
        TailView::Star(first, z, cont, head) => {
            let fold = optimize::cont_folded(states, entries, cont);
            assert(conts_match(t, cont, fold));
            simulation::lemma_in_first(x, y, parser::first_seqs(st, first));
            if parser::in_first(x, parser::first_seqs(st, first)) {
                simulation::lemma_thin_push(
                    t,
                    x.ret,
                    y.ret,
                    head,
                    x.lex.modes.len(),
                    y.lex.modes.len(),
                );
                simulation::lemma_body_close(
                    st,
                    states,
                    t,
                    parser::pushed(x, head),
                    parser::pushed(y, head),
                    *z,
                )
            } else {
                lemma_go_on_folded(st, states, t, x, y, cont, fold)
            }
        },
        TailView::Opt(first, z, cont) => {
            let fold = optimize::cont_folded(states, entries, cont);
            assert(conts_match(t, cont, fold));
            simulation::lemma_in_first(x, y, parser::first_seqs(st, first));
            if parser::in_first(x, parser::first_seqs(st, first)) {
                lemma_calling_folded(t, x, y, cont, fold);
                simulation::lemma_body_close(
                    st,
                    states,
                    t,
                    parser::calling(x, cont),
                    parser::calling(y, fold),
                    *z,
                )
            } else {
                lemma_go_on_folded(st, states, t, x, y, cont, fold)
            }
        },
        TailView::Dispatch(tree, sync, cont, l) => {
            let fold = optimize::cont_folded(states, entries, cont);
            assert(conts_match(t, cont, fold));
            lemma_tree_folded(st, states, t, x, y, tree, sync, cont, fold, l)
        },
        _ => simulation::lemma_tail_close(st, states, t, x, y, b.tail),
    }
}

proof fn lemma_folds_step(
    st: StateTable,
    states: Seq<StateView>,
    entries: Seq<u32>,
    m: TableMatcher,
    emit: bool,
    c: CursorView,
    d: CursorView,
)
    requires
        table::ascending(states),
        validate::all_valid(optimize::trampolines_folded(states, entries)),
        ends_apart(states),
        simulation::alike(trampolines(states, entries), c, d),
        simulation::ready(st, c),
        d.state != TERMINATED,
    ensures
        simulation::steps_match(
            st,
            states,
            optimize::trampolines_folded(states, entries),
            m,
            emit,
            simulation::alike_base(trampolines(states, entries)),
            c,
            d,
        ),
{
    let fast = optimize::trampolines_folded(states, entries);
    let base = simulation::alike_base(trampolines(states, entries));
    let (f, e) = simulation::state_step(st, fast, d);
    if simulation::calm(d, e) {
        lemma_mapped_body(states, fast, c.state);
        lemma_ready_turn(st, states, m, emit, c, 0);
        assert(laws::listed(e) + Seq::<RawView>::empty() =~= laws::listed(e));
        match table::body_of(states, c.state) {
            Some(b) => {
                let i = choose|i: int|
                    0 <= i < states.len() && (#[trigger] states[i]).id == c.state
                        && states[i].body == b && table::body_of(fast, c.state) == Some(
                        fast[i].body,
                    );
                let w = fast[i].body;
                assert(validate::valid_body(w));
                laws::law_no_event_is_lost(st, d, w);
                if let Some(x) = e {
                    assert(laws::listed(e)[0] == x);
                }
                let j = lemma_body_folded(st, states, entries, c, d, b);
                assert(simulation::reaches(st, states, m, emit, base, c, f, e, 1, j));
            },
            None => {
                assert(simulation::reaches(st, states, m, emit, base, c, f, e, 1, 0));
            },
        }
    }
}

/// Folding trampolines changes no event.
pub proof fn lemma_folds_carry(
    st: StateTable,
    states: Seq<StateView>,
    entries: Seq<u32>,
    m: TableMatcher,
    emit: bool,
)
    requires
        table::ascending(states),
        validate::all_valid(optimize::trampolines_folded(states, entries)),
        ends_apart(states),
    ensures
        simulation::carries(
            st,
            states,
            optimize::trampolines_folded(states, entries),
            m,
            emit,
            simulation::alike_base(trampolines(states, entries)),
        ),
{
    let fast = optimize::trampolines_folded(states, entries);
    let t = trampolines(states, entries);
    assert forall|c: CursorView, d: CursorView| #[trigger]
        simulation::alike(t, c, d) && simulation::ready(st, c) && d.state
            != TERMINATED implies simulation::steps_match(
        st,
        states,
        fast,
        m,
        emit,
        simulation::alike_base(t),
        c,
        d,
    ) by {
        lemma_folds_step(st, states, entries, m, emit, c, d);
    }
    lemma_alike_carries(st, states, fast, m, emit, t);
}

} // verus!
