//! When two lists of states give the same events.
//!
//! One list follows another if a parser over it does in one turn what a parser
//! over the other does in one turn or several. The slower parser may be behind
//! by quiet states: states that give no event and look at no token.
use vstd::prelude::*;

use crate::lowering::layout;
use crate::lowering::recovery::{InsertionView, PostFirst};
use crate::lowering::table::{
    self, BodyView, InstrView, LeafView, StateTable, StateView, TailView, TreeView,
};
use crate::runtime::events::EventView;
use crate::runtime::laws::{self, RawView};
use crate::runtime::lexer::{self, TableMatcher};
use crate::runtime::parser::{self, CursorView, ParserView, TurnView, TERMINATED};
use crate::runtime::tree;

verus! {

/// The step of the state that the parser is at.
pub open spec fn state_step(st: StateTable, states: Seq<StateView>, c: CursorView) -> (
    CursorView,
    Option<RawView>,
) {
    match table::body_of(states, c.state) {
        Some(b) => parser::body_step(st, c, b),
        None => (parser::at_state(c, TERMINATED), None),
    }
}

/// A turn of a parser that has the given states, and the rest of the table.
pub open spec fn turn_in(
    st: StateTable,
    states: Seq<StateView>,
    m: TableMatcher,
    emit: bool,
    p: ParserView,
) -> (ParserView, TurnView) {
    let c = p.cursor;
    match p.garbage {
        Some(t) => (
            ParserView { garbage: None, ..p },
            TurnView::Event(EventView::Garbage(t)),
        ),
        None => if c.look.len() < st.k {
            parser::fill_turn(st, m, emit, c)
        } else {
            let (d, t) = match c.recovery {
                Some(r) => parser::recovery_turn(c, r.0, r.1),
                None => if c.state == TERMINATED {
                    parser::end_turn(c)
                } else {
                    let (d, e) = state_step(st, states, c);
                    (d, parser::turn_of(e))
                },
            };
            (ParserView { cursor: d, garbage: None }, t)
        },
    }
}

/// The events of the first `n` turns with the given states.
pub open spec fn events_in(
    st: StateTable,
    states: Seq<StateView>,
    m: TableMatcher,
    emit: bool,
    p: ParserView,
    n: nat,
) -> Seq<RawView>
    decreases n,
{
    if n == 0 {
        Seq::empty()
    } else {
        let (q, t) = turn_in(st, states, m, emit, p);
        match t {
            TurnView::Event(e) => seq![e] + events_in(st, states, m, emit, q, (n - 1) as nat),
            TurnView::Again => events_in(st, states, m, emit, q, (n - 1) as nat),
            TurnView::Done => Seq::empty(),
        }
    }
}

/// The parser after `n` turns with the given states.
pub open spec fn after_in(
    st: StateTable,
    states: Seq<StateView>,
    m: TableMatcher,
    emit: bool,
    p: ParserView,
    n: nat,
) -> ParserView
    decreases n,
{
    if n == 0 {
        p
    } else {
        after_in(st, states, m, emit, turn_in(st, states, m, emit, p).0, (n - 1) as nat)
    }
}

/// With the states of the table these are the events of the parser.
pub proof fn lemma_events_in(st: StateTable, m: TableMatcher, emit: bool, p: ParserView, n: nat)
    ensures
        events_in(st, st.states@, m, emit, p, n) == parser::events_within(st, m, emit, p, n),
        after_in(st, st.states@, m, emit, p, n) == laws::after_turns(st, m, emit, p, n),
        turn_in(st, st.states@, m, emit, p) == parser::turn(st, m, emit, p),
    decreases n,
{
    if n > 0 {
        lemma_events_in(st, m, emit, turn_in(st, st.states@, m, emit, p).0, (n - 1) as nat);
    }
}

proof fn lemma_done_in(
    st: StateTable,
    states: Seq<StateView>,
    m: TableMatcher,
    emit: bool,
    p: ParserView,
    n: nat,
)
    requires
        turn_in(st, states, m, emit, p).1 is Done,
    ensures
        after_in(st, states, m, emit, p, n) == p,
        events_in(st, states, m, emit, p, n) == Seq::<RawView>::empty(),
    decreases n,
{
    if n > 0 {
        lemma_done_in(st, states, m, emit, p, (n - 1) as nat);
    }
}

/// Turns add up.
pub proof fn lemma_turns_add(
    st: StateTable,
    states: Seq<StateView>,
    m: TableMatcher,
    emit: bool,
    p: ParserView,
    a: nat,
    b: nat,
)
    ensures
        ({
            let q = after_in(st, states, m, emit, p, a);
            &&& after_in(st, states, m, emit, p, a + b) == after_in(st, states, m, emit, q, b)
            &&& events_in(st, states, m, emit, p, a + b) == events_in(
                st,
                states,
                m,
                emit,
                p,
                a,
            ) + events_in(st, states, m, emit, q, b)
        }),
    decreases a,
{
    let q = after_in(st, states, m, emit, p, a);
    let tail = events_in(st, states, m, emit, q, b);
    if a == 0 {
        assert(Seq::<RawView>::empty() + tail =~= tail);
    } else {
        let (r, t) = turn_in(st, states, m, emit, p);
        lemma_turns_add(st, states, m, emit, r, (a - 1) as nat, b);
        assert(((a - 1) as nat + b) as nat == (a + b - 1) as nat);
        match t {
            TurnView::Event(e) => {
                let head = events_in(st, states, m, emit, r, (a - 1) as nat);
                assert(seq![e] + (head + tail) =~= (seq![e] + head) + tail);
            },
            TurnView::Again => {},
            TurnView::Done => {
                lemma_done_in(st, states, m, emit, p, a);
                lemma_done_in(st, states, m, emit, p, b);
                assert(Seq::<RawView>::empty() + Seq::<RawView>::empty() =~= Seq::<
                    RawView,
                >::empty());
            },
        }
    }
}

/// What the two have read is the same.
pub open spec fn same_reading(c: CursorView, d: CursorView) -> bool {
    c.lex == d.lex && c.look == d.look && c.prev_end == d.prev_end && c.recovery == d.recovery
}

/// The state and return stack of `c`, with what `x` has read.
pub open spec fn moved(c: CursorView, x: CursorView) -> CursorView {
    CursorView { state: c.state, ret: c.ret, ..x }
}

/// The first return stack is the second, but for states of `t` among it. The
/// numbers of modes are left out.
pub open spec fn thin(t: Set<u32>, a: Seq<(u32, nat)>, b: Seq<(u32, nat)>) -> bool
    decreases a.len(),
{
    ||| a.len() == 0 && b.len() == 0
    ||| a.len() > 0 && b.len() > 0 && a.last().0 == b.last().0 && thin(
        t,
        a.drop_last(),
        b.drop_last(),
    )
    ||| a.len() > 0 && t.contains(a.last().0) && thin(t, a.drop_last(), b)
}

/// The two have read the same and have the same return stack, but for states
/// of `t`.
pub open spec fn close(t: Set<u32>, c: CursorView, d: CursorView) -> bool {
    same_reading(c, d) && thin(t, c.ret, d.ret)
}

/// The two are close and at the same state.
pub open spec fn alike(t: Set<u32>, c: CursorView, d: CursorView) -> bool {
    close(t, c, d) && c.state == d.state
}

/// A relation of cursors.
pub type Base = spec_fn(CursorView, CursorView) -> bool;

/// The body gives no event and looks at no token.
pub open spec fn quiet(b: BodyView) -> bool {
    &&& forall|i: int| 0 <= i < b.instrs.len() ==> (#[trigger] b.instrs[i]) is PushRet
    &&& b.tail is Jump || b.tail is Ret
}

/// Behind `j` quiet states the first cursor is related to the second.
pub open spec fn behind(
    st: StateTable,
    states: Seq<StateView>,
    base: Base,
    c: CursorView,
    d: CursorView,
    j: nat,
) -> bool
    decreases j,
{
    if j == 0 {
        base(c, d)
    } else {
        match table::body_of(states, c.state) {
            Some(b) => quiet(b) && c.state != TERMINATED && behind(
                st,
                states,
                base,
                parser::body_step(st, c, b).0,
                d,
                (j - 1) as nat,
            ),
            None => false,
        }
    }
}

/// The lookahead is full, and nothing is to be skipped.
pub open spec fn ready(st: StateTable, c: CursorView) -> bool {
    c.look.len() >= st.k && c.recovery is None
}

/// A parser at the cursor.
pub open spec fn at(c: CursorView) -> ParserView {
    ParserView { cursor: c, garbage: None }
}

/// Modes are not cut, or there is nothing to cut them for.
pub open spec fn calm(c: CursorView, e: Option<RawView>) -> bool {
    c.lex.modes.len() == 1 || !(e matches Some(EventView::Error(_)))
}

/// What the second parser does in one step the first does in one or several.
pub open spec fn steps_match(
    st: StateTable,
    slow: Seq<StateView>,
    fast: Seq<StateView>,
    m: TableMatcher,
    emit: bool,
    base: Base,
    c: CursorView,
    d: CursorView,
) -> bool {
    let (f, e) = state_step(st, fast, d);
    calm(d, e) ==> exists|k: nat, j: nat| #[trigger]
        reaches(st, slow, m, emit, base, c, f, e, k, j)
}

/// After `k` turns, with the event, the first parser is behind the second by
/// `j` quiet states.
pub open spec fn reaches(
    st: StateTable,
    slow: Seq<StateView>,
    m: TableMatcher,
    emit: bool,
    base: Base,
    c: CursorView,
    f: CursorView,
    e: Option<RawView>,
    k: nat,
    j: nat,
) -> bool {
    let q = after_in(st, slow, m, emit, at(c), k);
    &&& k >= 1
    &&& q.garbage is None
    &&& events_in(st, slow, m, emit, at(c), k) == laws::listed(e)
    &&& behind(st, slow, base, q.cursor, f, j)
}

/// The relation carries the steps of the second list over to the first.
pub open spec fn carries(
    st: StateTable,
    slow: Seq<StateView>,
    fast: Seq<StateView>,
    m: TableMatcher,
    emit: bool,
    base: Base,
) -> bool {
    &&& forall|c: CursorView, d: CursorView| #[trigger]
        base(c, d) ==> same_reading(c, d) && (c.state == TERMINATED <==> d.state == TERMINATED)
    &&& forall|c: CursorView, d: CursorView, x: CursorView|
        base(c, d) ==> #[trigger] base(moved(c, x), moved(d, x))
    &&& forall|c: CursorView, e: CursorView, d: CursorView| #[trigger]
        base(c, d) && #[trigger] alike(Set::empty(), c, e) ==> base(e, d)
    &&& forall|c: CursorView, d: CursorView| #[trigger]
        base(c, d) && ready(st, c) && d.state != TERMINATED ==> steps_match(
            st,
            slow,
            fast,
            m,
            emit,
            base,
            c,
            d,
        )
}

pub proof fn lemma_thin_same(t: Set<u32>, a: Seq<(u32, nat)>)
    ensures
        thin(t, a, a),
    decreases a.len(),
{
    if a.len() > 0 {
        lemma_thin_same(t, a.drop_last());
    }
}

pub proof fn lemma_thin_push(
    t: Set<u32>,
    a: Seq<(u32, nat)>,
    b: Seq<(u32, nat)>,
    s: u32,
    x: nat,
    y: nat,
)
    requires
        thin(t, a, b),
    ensures
        thin(t, a.push((s, x)), b.push((s, y))),
        t.contains(s) ==> thin(t, a.push((s, x)), b),
{
    assert(a.push((s, x)).drop_last() =~= a);
    assert(b.push((s, y)).drop_last() =~= b);
}

/// Other numbers of modes make no difference.
pub proof fn lemma_thin_other(
    t: Set<u32>,
    a: Seq<(u32, nat)>,
    e: Seq<(u32, nat)>,
    b: Seq<(u32, nat)>,
)
    requires
        thin(t, a, b),
        thin(Set::empty(), a, e),
    ensures
        thin(t, e, b),
    decreases a.len(),
{
    if a.len() > 0 {
        if b.len() > 0 && a.last().0 == b.last().0 && thin(t, a.drop_last(), b.drop_last()) {
            lemma_thin_other(t, a.drop_last(), e.drop_last(), b.drop_last());
        } else {
            lemma_thin_other(t, a.drop_last(), e.drop_last(), b);
        }
    }
}

pub proof fn lemma_thin_empty(a: Seq<(u32, nat)>, b: Seq<(u32, nat)>)
    requires
        thin(Set::empty(), a, b),
    ensures
        a.len() == b.len(),
        forall|i: int| 0 <= i < a.len() ==> (#[trigger] a[i]).0 == b[i].0,
        thin(Set::empty(), b, a),
    decreases a.len(),
{
    if a.len() > 0 {
        lemma_thin_empty(a.drop_last(), b.drop_last());
        assert forall|i: int| 0 <= i < a.len() implies (#[trigger] a[i]).0 == b[i].0 by {
            if i < a.len() - 1 {
                assert(a.drop_last()[i] == a[i]);
                assert(b.drop_last()[i] == b[i]);
            }
        }
    }
}

/// The states of `t` only return.
pub open spec fn only_return(states: Seq<StateView>, t: Set<u32>) -> bool {
    &&& !t.contains(TERMINATED)
    &&& forall|s: u32| #[trigger]
        t.contains(s) ==> table::body_of(states, s) == Some(
            layout::only(TailView::Ret),
        )
}

/// The relation of [`alike`].
pub open spec fn alike_base(t: Set<u32>) -> Base {
    |c: CursorView, d: CursorView| alike(t, c, d)
}

/// A body that only returns.
pub proof fn lemma_ret_body(st: StateTable, c: CursorView)
    ensures
        parser::body_step(st, c, layout::only(TailView::Ret)) == (
            parser::returned(c),
            None::<RawView>,
        ),
        quiet(layout::only(TailView::Ret)),
{
    let b = layout::only(TailView::Ret);
    assert(parser::instrs_step(st, c, b.instrs, b.instrs.len()) == (c, None::<RawView>));
}

/// After a return the first is behind the second by the states of `t` that
/// lie between.
pub proof fn lemma_returned_close(
    st: StateTable,
    states: Seq<StateView>,
    t: Set<u32>,
    c: CursorView,
    d: CursorView,
) -> (j: nat)
    requires
        only_return(states, t),
        close(t, c, d),
    ensures
        behind(st, states, alike_base(t), parser::returned(c), parser::returned(d), j),
        t == Set::<u32>::empty() ==> j == 0,
    decreases c.ret.len(),
{
    let a = c.ret;
    let b = d.ret;
    if a.len() == 0 {
        0
    } else if b.len() > 0 && a.last().0 == b.last().0 && thin(t, a.drop_last(), b.drop_last()) {
        0
    } else {
        let e = parser::returned(c);
        let i = lemma_returned_close(st, states, t, e, d);
        lemma_ret_body(st, e);
        assert(e.state != TERMINATED);
        i + 1
    }
}

pub proof fn lemma_instr_close(
    st: StateTable,
    t: Set<u32>,
    c: CursorView,
    d: CursorView,
    i: InstrView,
)
    requires
        close(t, c, d),
        calm(c, parser::instr_step(st, c, i).1) || calm(d, parser::instr_step(st, d, i).1),
    ensures
        close(t, parser::instr_step(st, c, i).0, parser::instr_step(st, d, i).0),
        parser::instr_step(st, c, i).1 == parser::instr_step(st, d, i).1,
{
    if let InstrView::PushRet(s) = i {
        lemma_thin_push(t, c.ret, d.ret, s, c.lex.modes.len(), d.lex.modes.len());
    }
    if let InstrView::Expect(kind, name, sync, label) = i {
        if parser::look_kind(c, 0) != Some(kind) {
            lemma_armed_close(t, c, d, parser::sync_kinds(st, sync), Some(kind));
        }
    }
}

pub proof fn lemma_armed_close(
    t: Set<u32>,
    c: CursorView,
    d: CursorView,
    sync: Seq<u16>,
    kind: Option<u16>,
)
    requires
        close(t, c, d),
        c.lex.modes.len() == 1,
    ensures
        close(t, parser::armed(c, sync, kind), parser::armed(d, sync, kind)),
        parser::armed(c, sync, kind).lex == c.lex,
        parser::armed(c, sync, kind).state == c.state,
        parser::armed(c, sync, kind).ret == c.ret,
        parser::armed(d, sync, kind).state == d.state,
        parser::armed(d, sync, kind).ret == d.ret,
{
    assert(c.lex.modes.take(1) =~= c.lex.modes);
}

/// The steps keep the number of modes, if there is one.
pub proof fn lemma_one_mode(st: StateTable, c: CursorView, l: Seq<InstrView>, n: nat)
    requires
        c.lex.modes.len() == 1,
    ensures
        parser::instrs_step(st, c, l, n).0.lex.modes.len() == 1,
    decreases n,
{
    if 0 < n <= l.len() {
        lemma_one_mode(st, c, l, (n - 1) as nat);
    }
}

pub proof fn lemma_calm_part(st: StateTable, c: CursorView, l: Seq<InstrView>, n: nat)
    requires
        0 < n <= l.len(),
        tree::clean(laws::instrs_trace(st, c, l, n)),
    ensures
        tree::clean(laws::instrs_trace(st, c, l, (n - 1) as nat)),
        ({
            let e = parser::instrs_step(st, c, l, (n - 1) as nat).0;
            calm(e, parser::instr_step(st, e, l[n - 1]).1)
        }),
{
    let e = parser::instrs_step(st, c, l, (n - 1) as nat).0;
    let g = parser::instr_step(st, e, l[n - 1]).1;
    tree::lemma_clean_parts(laws::instrs_trace(st, c, l, (n - 1) as nat), laws::listed(g));
    if let Some(x) = g {
        assert(laws::listed(g)[0] == x);
    }
}

/// Steps do the same with close cursors.
pub proof fn lemma_instrs_close(
    st: StateTable,
    t: Set<u32>,
    c: CursorView,
    d: CursorView,
    l: Seq<InstrView>,
    n: nat,
)
    requires
        n <= l.len(),
        close(t, c, d),
        c.lex.modes.len() == 1 || tree::clean(laws::instrs_trace(st, c, l, n)) || tree::clean(
            laws::instrs_trace(st, d, l, n),
        ),
    ensures
        close(t, parser::instrs_step(st, c, l, n).0, parser::instrs_step(st, d, l, n).0),
        parser::instrs_step(st, c, l, n).1 == parser::instrs_step(st, d, l, n).1,
        laws::instrs_trace(st, c, l, n) == laws::instrs_trace(st, d, l, n),
    decreases n,
{
    if n > 0 {
        let e = parser::instrs_step(st, c, l, (n - 1) as nat).0;
        let f = parser::instrs_step(st, d, l, (n - 1) as nat).0;
        if c.lex.modes.len() == 1 {
            lemma_one_mode(st, c, l, (n - 1) as nat);
        } else if tree::clean(laws::instrs_trace(st, c, l, n)) {
            lemma_calm_part(st, c, l, n);
        } else {
            lemma_calm_part(st, d, l, n);
        }
        lemma_instrs_close(st, t, c, d, l, (n - 1) as nat);
        lemma_instr_close(st, t, e, f, l[n - 1]);
    }
}

/// A body does the same with close cursors; behind it the first may be behind
/// by states of `t`.
pub proof fn lemma_body_close(
    st: StateTable,
    states: Seq<StateView>,
    t: Set<u32>,
    c: CursorView,
    d: CursorView,
    b: BodyView,
) -> (j: nat)
    requires
        only_return(states, t),
        close(t, c, d),
        c.lex.modes.len() == 1 || tree::clean(laws::body_trace(st, c, b)) || tree::clean(
            laws::body_trace(st, d, b),
        ),
    ensures
        behind(
            st,
            states,
            alike_base(t),
            parser::body_step(st, c, b).0,
            parser::body_step(st, d, b).0,
            j,
        ),
        t == Set::<u32>::empty() ==> j == 0,
        parser::body_step(st, c, b).1 == parser::body_step(st, d, b).1,
        laws::body_trace(st, c, b) == laws::body_trace(st, d, b),
    decreases b, 1nat,
{
    let n = b.instrs.len();
    let e = parser::instrs_step(st, c, b.instrs, n).0;
    let f = parser::instrs_step(st, d, b.instrs, n).0;
    if c.lex.modes.len() == 1 {
        lemma_one_mode(st, c, b.instrs, n);
    } else if tree::clean(laws::body_trace(st, c, b)) {
        tree::lemma_clean_parts(
            laws::instrs_trace(st, c, b.instrs, n),
            laws::tail_trace(st, e, b.tail),
        );
    } else {
        tree::lemma_clean_parts(
            laws::instrs_trace(st, d, b.instrs, n),
            laws::tail_trace(st, f, b.tail),
        );
    }
    lemma_instrs_close(st, t, c, d, b.instrs, n);
    lemma_tail_close(st, states, t, e, f, b.tail)
}

pub proof fn lemma_tail_close(
    st: StateTable,
    states: Seq<StateView>,
    t: Set<u32>,
    c: CursorView,
    d: CursorView,
    tail: TailView,
) -> (j: nat)
    requires
        only_return(states, t),
        close(t, c, d),
        c.lex.modes.len() == 1 || tree::clean(laws::tail_trace(st, c, tail)) || tree::clean(
            laws::tail_trace(st, d, tail),
        ),
    ensures
        behind(
            st,
            states,
            alike_base(t),
            parser::tail_step(st, c, tail).0,
            parser::tail_step(st, d, tail).0,
            j,
        ),
        t == Set::<u32>::empty() ==> j == 0,
        parser::tail_step(st, c, tail).1 == parser::tail_step(st, d, tail).1,
        laws::tail_trace(st, c, tail) == laws::tail_trace(st, d, tail),
    decreases tail, 0nat,
{
    match tail {
        TailView::Jump(s) => 0,
        TailView::Ret => lemma_returned_close(st, states, t, c, d),
        TailView::Star(first, x, cont, head) => {
            lemma_in_first(c, d, parser::first_seqs(st, first));
            if parser::in_first(c, parser::first_seqs(st, first)) {
                lemma_thin_push(t, c.ret, d.ret, head, c.lex.modes.len(), d.lex.modes.len());
                lemma_body_close(
                    st,
                    states,
                    t,
                    parser::pushed(c, head),
                    parser::pushed(d, head),
                    *x,
                )
            } else {
                lemma_go_on_close(st, states, t, c, d, cont)
            }
        },
        TailView::Opt(first, x, cont) => {
            lemma_in_first(c, d, parser::first_seqs(st, first));
            if parser::in_first(c, parser::first_seqs(st, first)) {
                lemma_calling_close(t, c, d, cont);
                lemma_body_close(
                    st,
                    states,
                    t,
                    parser::calling(c, cont),
                    parser::calling(d, cont),
                    *x,
                )
            } else {
                lemma_go_on_close(st, states, t, c, d, cont)
            }
        },
        TailView::Dispatch(tree, sync, cont, l) => lemma_tree_close(
            st,
            states,
            t,
            c,
            d,
            tree,
            sync,
            cont,
            l,
        ),
    }
}

/// Close cursors see the same lookahead.
pub proof fn lemma_in_first(c: CursorView, d: CursorView, seqs: Seq<Seq<u16>>)
    requires
        c.look == d.look,
    ensures
        parser::in_first(c, seqs) == parser::in_first(d, seqs),
{
    assert forall|i: int| 0 <= i < seqs.len() implies parser::begins(c, #[trigger] seqs[i])
        == parser::begins(d, seqs[i]) by {
        if parser::begins(c, seqs[i]) {
            assert forall|j: int| 0 <= j < seqs[i].len() implies parser::look_kind(d, j) == Some(
                #[trigger] seqs[i][j],
            ) by {
                assert(parser::look_kind(c, j) == Some(seqs[i][j]));
            }
        }
        if parser::begins(d, seqs[i]) {
            assert forall|j: int| 0 <= j < seqs[i].len() implies parser::look_kind(c, j) == Some(
                #[trigger] seqs[i][j],
            ) by {
                assert(parser::look_kind(d, j) == Some(seqs[i][j]));
            }
        }
    }
    if parser::in_first(c, seqs) {
        let i = choose|i: int| 0 <= i < seqs.len() && #[trigger] parser::begins(c, seqs[i]);
        assert(parser::begins(d, seqs[i]));
    }
    if parser::in_first(d, seqs) {
        let i = choose|i: int| 0 <= i < seqs.len() && #[trigger] parser::begins(d, seqs[i]);
        assert(parser::begins(c, seqs[i]));
    }
}

pub proof fn lemma_go_on_close(
    st: StateTable,
    states: Seq<StateView>,
    t: Set<u32>,
    c: CursorView,
    d: CursorView,
    cont: Option<u32>,
) -> (j: nat)
    requires
        only_return(states, t),
        close(t, c, d),
    ensures
        behind(
            st,
            states,
            alike_base(t),
            parser::go_on(c, cont),
            parser::go_on(d, cont),
            j,
        ),
        t == Set::<u32>::empty() ==> j == 0,
{
    match cont {
        Some(s) => 0,
        None => lemma_returned_close(st, states, t, c, d),
    }
}

pub proof fn lemma_calling_close(t: Set<u32>, c: CursorView, d: CursorView, cont: Option<u32>)
    requires
        close(t, c, d),
    ensures
        close(t, parser::calling(c, cont), parser::calling(d, cont)),
{
    if let Some(s) = cont {
        lemma_thin_push(t, c.ret, d.ret, s, c.lex.modes.len(), d.lex.modes.len());
    }
}

/// Starting recovery keeps the first behind the second.
pub proof fn lemma_behind_armed(
    st: StateTable,
    states: Seq<StateView>,
    t: Set<u32>,
    c: CursorView,
    d: CursorView,
    j: nat,
    sync: Seq<u16>,
)
    requires
        behind(st, states, alike_base(t), c, d, j),
        c.lex.modes.len() == 1,
    ensures
        behind(
            st,
            states,
            alike_base(t),
            parser::armed(c, sync, None),
            parser::armed(d, sync, None),
            j,
        ),
    decreases j,
{
    assert(c.lex.modes.take(1) =~= c.lex.modes);
    if j == 0 {
        lemma_armed_close(t, c, d, sync, None);
    } else {
        let b = table::body_of(states, c.state)->0;
        let e = parser::body_step(st, c, b).0;
        lemma_quiet_moved(st, c, parser::armed(c, sync, None), b);
        let f = parser::body_step(st, parser::armed(c, sync, None), b).0;
        lemma_quiet_reading(st, c, b);
        lemma_behind_armed(st, states, t, e, d, (j - 1) as nat, sync);
        assert(e.lex.modes.take(1) =~= e.lex.modes);
        assert(parser::armed(e, sync, None) == moved(e, parser::armed(c, sync, None)));
        lemma_behind_alike(
            st,
            states,
            t,
            moved(e, parser::armed(c, sync, None)),
            f,
            parser::armed(d, sync, None),
            (j - 1) as nat,
        );
    }
}

/// A quiet body reads nothing.
pub proof fn lemma_quiet_reading(st: StateTable, c: CursorView, b: BodyView)
    requires
        quiet(b),
    ensures
        same_reading(parser::body_step(st, c, b).0, c),
        parser::body_step(st, c, b).1 is None,
{
    lemma_quiet_instrs(st, c, c, b.instrs, b.instrs.len());
}

proof fn lemma_quiet_instrs(
    st: StateTable,
    c: CursorView,
    x: CursorView,
    l: Seq<InstrView>,
    n: nat,
)
    requires
        n <= l.len(),
        forall|i: int| 0 <= i < l.len() ==> (#[trigger] l[i]) is PushRet,
    ensures
        ({
            let (d, e) = parser::instrs_step(st, c, l, n);
            let (f, g) = parser::instrs_step(st, moved(c, x), l, n);
            &&& same_reading(d, c)
            &&& same_reading(f, x)
            &&& d.state == c.state
            &&& f.state == c.state
            &&& thin(Set::empty(), d.ret, f.ret)
            &&& e is None
            &&& g is None
        }),
    decreases n,
{
    if n == 0 {
        lemma_thin_same(Set::empty(), c.ret);
    } else {
        lemma_quiet_instrs(st, c, x, l, (n - 1) as nat);
        assert(l[n - 1] is PushRet);
        let d = parser::instrs_step(st, c, l, (n - 1) as nat).0;
        let f = parser::instrs_step(st, moved(c, x), l, (n - 1) as nat).0;
        lemma_thin_push(
            Set::empty(),
            d.ret,
            f.ret,
            l[n - 1]->PushRet_0,
            d.lex.modes.len(),
            f.lex.modes.len(),
        );
    }
}

/// A quiet body does the same whatever was read.
pub proof fn lemma_quiet_moved(st: StateTable, c: CursorView, x: CursorView, b: BodyView)
    requires
        quiet(b),
    ensures
        alike(
            Set::empty(),
            moved(parser::body_step(st, c, b).0, x),
            parser::body_step(st, moved(c, x), b).0,
        ),
{
    let n = b.instrs.len();
    lemma_quiet_instrs(st, c, x, b.instrs, n);
    let d = parser::instrs_step(st, c, b.instrs, n).0;
    let f = parser::instrs_step(st, moved(c, x), b.instrs, n).0;
    if b.tail is Ret {
        lemma_thin_empty(d.ret, f.ret);
    }
}

proof fn lemma_behind_alike(
    st: StateTable,
    states: Seq<StateView>,
    t: Set<u32>,
    c: CursorView,
    e: CursorView,
    d: CursorView,
    j: nat,
)
    requires
        behind(st, states, alike_base(t), c, d, j),
        alike(Set::empty(), c, e),
    ensures
        behind(st, states, alike_base(t), e, d, j),
    decreases j,
{
    if j == 0 {
        lemma_thin_other(t, c.ret, e.ret, d.ret);
    } else {
        let b = table::body_of(states, c.state)->0;
        lemma_quiet_alike(st, c, e, b);
        lemma_behind_alike(
            st,
            states,
            t,
            parser::body_step(st, c, b).0,
            parser::body_step(st, e, b).0,
            d,
            (j - 1) as nat,
        );
    }
}

/// A quiet body does the same with alike cursors.
pub proof fn lemma_quiet_alike(st: StateTable, c: CursorView, e: CursorView, b: BodyView)
    requires
        quiet(b),
        close(Set::empty(), c, e),
    ensures
        alike(
            Set::empty(),
            parser::body_step(st, c, b).0,
            parser::body_step(st, e, b).0,
        ),
{
    let n = b.instrs.len();
    lemma_quiet_close(st, c, e, b.instrs, n);
    let d = parser::instrs_step(st, c, b.instrs, n).0;
    let f = parser::instrs_step(st, e, b.instrs, n).0;
    if b.tail is Ret {
        lemma_thin_empty(d.ret, f.ret);
    }
}

proof fn lemma_quiet_close(
    st: StateTable,
    c: CursorView,
    e: CursorView,
    l: Seq<InstrView>,
    n: nat,
)
    requires
        n <= l.len(),
        forall|i: int| 0 <= i < l.len() ==> (#[trigger] l[i]) is PushRet,
        close(Set::empty(), c, e),
    ensures
        close(
            Set::empty(),
            parser::instrs_step(st, c, l, n).0,
            parser::instrs_step(st, e, l, n).0,
        ),
    decreases n,
{
    if n > 0 {
        lemma_quiet_close(st, c, e, l, (n - 1) as nat);
        assert(l[n - 1] is PushRet);
        let d = parser::instrs_step(st, c, l, (n - 1) as nat).0;
        let f = parser::instrs_step(st, e, l, (n - 1) as nat).0;
        lemma_thin_push(
            Set::empty(),
            d.ret,
            f.ret,
            l[n - 1]->PushRet_0,
            d.lex.modes.len(),
            f.lex.modes.len(),
        );
    }
}

pub proof fn lemma_leaf_close(
    st: StateTable,
    states: Seq<StateView>,
    t: Set<u32>,
    c: CursorView,
    d: CursorView,
    leaf: LeafView,
    sync: u32,
    cont: Option<u32>,
    l: Seq<InsertionView>,
) -> (j: nat)
    requires
        only_return(states, t),
        close(t, c, d),
        c.lex.modes.len() == 1 || tree::clean(laws::leaf_trace(st, c, leaf, sync, cont, l)) || tree::clean(
            laws::leaf_trace(st, d, leaf, sync, cont, l),
        ),
    ensures
        behind(
            st,
            states,
            alike_base(t),
            parser::leaf_step(st, c, leaf, sync, cont, l).0,
            parser::leaf_step(st, d, leaf, sync, cont, l).0,
            j,
        ),
        t == Set::<u32>::empty() ==> j == 0,
        parser::leaf_step(st, c, leaf, sync, cont, l).1 == parser::leaf_step(
            st,
            d,
            leaf,
            sync,
            cont,
            l,
        ).1,
        laws::leaf_trace(st, c, leaf, sync, cont, l) == laws::leaf_trace(
            st,
            d,
            leaf,
            sync,
            cont,
            l,
        ),
    decreases leaf, 0nat,
{
    match leaf {
        LeafView::Arm(x) => {
            lemma_calling_close(t, c, d, cont);
            lemma_body_close(st, states, t, parser::calling(c, cont), parser::calling(d, cont), *x)
        },
        LeafView::Fallthrough => lemma_go_on_close(st, states, t, c, d, cont),
        LeafView::Error => {
            let err = parser::missed(st, c, sync, cont, l).1->0;
            assert(laws::leaf_trace(st, c, leaf, sync, cont, l)[0] == err);
            assert(laws::leaf_trace(st, d, leaf, sync, cont, l)[0] is Error);
            assert(c.lex.modes.len() == 1);
            let i = parser::insertion_for(l, parser::look_kind(c, 0));
            assert(parser::look_kind(d, 0) == parser::look_kind(c, 0));
            if i < l.len() {
                match l[i].post_first {
                    PostFirst::Jump(s) => 0,
                    PostFirst::PushRetAndJump { push, jump } => {
                        lemma_thin_push(
                            t,
                            c.ret,
                            d.ret,
                            push,
                            c.lex.modes.len(),
                            d.lex.modes.len(),
                        );
                        0
                    },
                    PostFirst::Ret => lemma_returned_close(
                        st,
                        states,
                        t,
                        c,
                        d,
                    ),
                }
            } else {
                let j = lemma_go_on_close(st, states, t, c, d, cont);
                lemma_behind_armed(
                    st,
                    states,
                    t,
                    parser::go_on(c, cont),
                    parser::go_on(d, cont),
                    j,
                    parser::sync_kinds(st, sync),
                );
                j
            }
        },
    }
}

pub proof fn lemma_tree_close(
    st: StateTable,
    states: Seq<StateView>,
    t: Set<u32>,
    c: CursorView,
    d: CursorView,
    tree: TreeView,
    sync: u32,
    cont: Option<u32>,
    l: Seq<InsertionView>,
) -> (j: nat)
    requires
        only_return(states, t),
        close(t, c, d),
        c.lex.modes.len() == 1 || tree::clean(laws::tree_trace(st, c, tree, sync, cont, l)) || tree::clean(
            laws::tree_trace(st, d, tree, sync, cont, l),
        ),
    ensures
        behind(
            st,
            states,
            alike_base(t),
            parser::tree_step(st, c, tree, sync, cont, l).0,
            parser::tree_step(st, d, tree, sync, cont, l).0,
            j,
        ),
        t == Set::<u32>::empty() ==> j == 0,
        parser::tree_step(st, c, tree, sync, cont, l).1 == parser::tree_step(
            st,
            d,
            tree,
            sync,
            cont,
            l,
        ).1,
        laws::tree_trace(st, c, tree, sync, cont, l) == laws::tree_trace(
            st,
            d,
            tree,
            sync,
            cont,
            l,
        ),
    decreases tree, 0nat,
{
    match tree {
        TreeView::Leaf(leaf) => lemma_leaf_close(st, states, t, c, d, leaf, sync, cont, l),
        TreeView::Switch(depth, kinds, subs, default) => {
            assert(parser::look_kind(d, depth as int) == parser::look_kind(c, depth as int));
            let i = parser::arm_for(kinds, parser::look_kind(c, depth as int));
            if 0 <= i < subs.len() {
                lemma_tree_close(st, states, t, c, d, subs[i], sync, cont, l)
            } else {
                lemma_leaf_close(st, states, t, c, d, default, sync, cont, l)
            }
        },
    }
}

proof fn lemma_behind_same(
    st: StateTable,
    slow: Seq<StateView>,
    fast: Seq<StateView>,
    m: TableMatcher,
    emit: bool,
    base: Base,
    c: CursorView,
    e: CursorView,
    d: CursorView,
    j: nat,
)
    requires
        carries(st, slow, fast, m, emit, base),
        behind(st, slow, base, c, d, j),
        alike(Set::empty(), c, e),
    ensures
        behind(st, slow, base, e, d, j),
    decreases j,
{
    if j > 0 {
        let b = table::body_of(slow, c.state)->0;
        lemma_quiet_alike(st, c, e, b);
        lemma_behind_same(
            st,
            slow,
            fast,
            m,
            emit,
            base,
            parser::body_step(st, c, b).0,
            parser::body_step(st, e, b).0,
            d,
            (j - 1) as nat,
        );
    } else {
        assert(base(c, d) && alike(Set::empty(), c, e));
    }
}

pub proof fn lemma_behind_moved(
    st: StateTable,
    slow: Seq<StateView>,
    fast: Seq<StateView>,
    m: TableMatcher,
    emit: bool,
    base: Base,
    c: CursorView,
    d: CursorView,
    x: CursorView,
    j: nat,
)
    requires
        carries(st, slow, fast, m, emit, base),
        behind(st, slow, base, c, d, j),
    ensures
        behind(st, slow, base, moved(c, x), moved(d, x), j),
        same_reading(c, d),
    decreases j,
{
    if j == 0 {
        assert(base(c, d));
        assert(base(moved(c, x), moved(d, x)));
    } else {
        let b = table::body_of(slow, c.state)->0;
        let e = parser::body_step(st, c, b).0;
        let f = parser::body_step(st, moved(c, x), b).0;
        lemma_quiet_reading(st, c, b);
        lemma_behind_moved(st, slow, fast, m, emit, base, e, d, x, (j - 1) as nat);
        lemma_quiet_moved(st, c, x, b);
        lemma_behind_same(
            st,
            slow,
            fast,
            m,
            emit,
            base,
            moved(e, x),
            f,
            moved(d, x),
            (j - 1) as nat,
        );
    }
}

/// A parser that is ready runs through the quiet states without an event.
pub proof fn lemma_catch_up(
    st: StateTable,
    slow: Seq<StateView>,
    m: TableMatcher,
    emit: bool,
    base: Base,
    c: CursorView,
    d: CursorView,
    j: nat,
)
    requires
        behind(st, slow, base, c, d, j),
        ready(st, c),
    ensures
        ({
            let q = after_in(st, slow, m, emit, at(c), j);
            &&& events_in(st, slow, m, emit, at(c), j) == Seq::<RawView>::empty()
            &&& q.garbage is None
            &&& base(q.cursor, d)
            &&& ready(st, q.cursor)
        }),
    decreases j,
{
    if j > 0 {
        let b = table::body_of(slow, c.state)->0;
        let e = parser::body_step(st, c, b).0;
        lemma_quiet_reading(st, c, b);
        assert(turn_in(st, slow, m, emit, at(c)) == (at(e), TurnView::Again));
        lemma_catch_up(st, slow, m, emit, base, e, d, (j - 1) as nat);
    }
}

/// No token has a mode action.
pub open spec fn modeless(st: StateTable) -> bool {
    forall|i: int| 0 <= i < st.tokens@.len() ==> (#[trigger] st.tokens@[i]).mode_actions@.len() == 0
}

/// One turn of the second parser is carried over to the first.
pub proof fn lemma_turn_carried(
    st: StateTable,
    slow: Seq<StateView>,
    fast: Seq<StateView>,
    m: TableMatcher,
    emit: bool,
    base: Base,
    p: ParserView,
    q: ParserView,
    j: nat,
) -> (r: (nat, nat))
    requires
        carries(st, slow, fast, m, emit, base),
        p.garbage == q.garbage,
        behind(st, slow, base, p.cursor, q.cursor, j),
        q.cursor.lex.modes.len() == 1 || !(turn_in(st, fast, m, emit, q).1 matches TurnView::Event(
            EventView::Error(_),
        )),
        !(turn_in(st, fast, m, emit, q).1 is Done),
    ensures
        ({
            let (f, t) = turn_in(st, fast, m, emit, q);
            let g = after_in(st, slow, m, emit, p, r.0);
            &&& r.0 >= 1
            &&& g.garbage == f.garbage
            &&& behind(st, slow, base, g.cursor, f.cursor, r.1)
            &&& events_in(st, slow, m, emit, p, r.0) == (match t {
                TurnView::Event(e) => seq![e],
                _ => Seq::empty(),
            })
        }),
{
    let c = p.cursor;
    let d = q.cursor;
    let (f, t) = turn_in(st, fast, m, emit, q);
    lemma_behind_moved(st, slow, fast, m, emit, base, c, d, c, j);
    reveal_with_fuel(after_in, 2);
    reveal_with_fuel(events_in, 2);
    if p.garbage is Some {
        assert(events_in(st, slow, m, emit, p, 1) =~= seq![t->Event_0]);
        (1, j)
    } else if d.look.len() < st.k {
        let (g, u) = turn_in(st, slow, m, emit, p);
        lemma_behind_moved(st, slow, fast, m, emit, base, c, d, g.cursor, j);
        assert(g.cursor == moved(c, g.cursor));
        assert(f.cursor == moved(d, g.cursor));
        assert(u == t);
        if t is Event {
            assert(events_in(st, slow, m, emit, p, 1) =~= seq![t->Event_0]);
        }
        (1, j)
    } else if d.recovery is Some {
        let (g, u) = turn_in(st, slow, m, emit, p);
        lemma_behind_moved(st, slow, fast, m, emit, base, c, d, g.cursor, j);
        assert(g.cursor == moved(c, g.cursor));
        assert(f.cursor == moved(d, g.cursor));
        assert(u == t);
        if t is Event {
            assert(events_in(st, slow, m, emit, p, 1) =~= seq![t->Event_0]);
        }
        (1, j)
    } else {
        assert(p == at(c));
        lemma_catch_up(st, slow, m, emit, base, c, d, j);
        let h = after_in(st, slow, m, emit, p, j);
        assert(base(h.cursor, d));
        assert(h == at(h.cursor));
        if d.state == TERMINATED {
            let (g, u) = turn_in(st, slow, m, emit, h);
            assert(u == t);
            assert(d.lex.modes.take(1) =~= d.lex.modes);
            assert(g.cursor == moved(h.cursor, g.cursor));
            assert(f.cursor == moved(d, g.cursor));
            assert(base(moved(h.cursor, g.cursor), moved(d, g.cursor)));
            lemma_turns_add(st, slow, m, emit, p, j, 1);
            assert(events_in(st, slow, m, emit, h, 1) =~= seq![t->Event_0]);
            assert(Seq::<RawView>::empty() + seq![t->Event_0] =~= seq![t->Event_0]);
            assert(behind(st, slow, base, g.cursor, f.cursor, 0));
            (j + 1, 0)
        } else {
            assert(steps_match(st, slow, fast, m, emit, base, h.cursor, d));
            let (x, e) = state_step(st, fast, d);
            assert(calm(d, e));
            let (k, i) = choose|k: nat, i: nat| #[trigger]
                reaches(st, slow, m, emit, base, h.cursor, x, e, k, i);
            lemma_turns_add(st, slow, m, emit, p, j, k);
            let more = events_in(st, slow, m, emit, h, k);
            assert(Seq::<RawView>::empty() + more =~= more);
            (j + k, i)
        }
    }
}

/// A turn keeps the one mode of a parser whose tokens have no mode actions.
proof fn lemma_keeps_one_mode(
    st: StateTable,
    states: Seq<StateView>,
    m: TableMatcher,
    emit: bool,
    q: ParserView,
)
    requires
        modeless(st),
        q.cursor.lex.modes.len() == 1,
    ensures
        turn_in(st, states, m, emit, q).0.cursor.lex.modes.len() == 1,
{
    let c = q.cursor;
    if q.garbage is None {
        if c.look.len() < st.k {
            let t = lexer::next_lexed(m, c.lex);
            let l = parser::kind_actions(st, t.kind);
            assert(l.len() == 0);
        } else if c.recovery is None && c.state != TERMINATED {
            if let Some(b) = table::body_of(states, c.state) {
                lemma_body_one_mode(st, c, b);
            }
        }
    }
}

proof fn lemma_body_one_mode(st: StateTable, c: CursorView, b: BodyView)
    requires
        c.lex.modes.len() == 1,
    ensures
        parser::body_step(st, c, b).0.lex.modes.len() == 1,
    decreases b, 1nat,
{
    lemma_one_mode(st, c, b.instrs, b.instrs.len());
    let d = parser::instrs_step(st, c, b.instrs, b.instrs.len()).0;
    match b.tail {
        TailView::Star(first, x, cont, head) => {
            if parser::in_first(d, parser::first_seqs(st, first)) {
                lemma_body_one_mode(st, parser::pushed(d, head), *x);
            }
        },
        TailView::Opt(first, x, cont) => {
            if parser::in_first(d, parser::first_seqs(st, first)) {
                lemma_body_one_mode(st, parser::calling(d, cont), *x);
            }
        },
        TailView::Dispatch(tree, sync, cont, l) => {
            lemma_tree_one_mode(st, d, tree, sync, cont, l);
        },
        _ => {},
    }
}

proof fn lemma_leaf_one_mode(
    st: StateTable,
    c: CursorView,
    leaf: LeafView,
    sync: u32,
    cont: Option<u32>,
    l: Seq<InsertionView>,
)
    requires
        c.lex.modes.len() == 1,
    ensures
        parser::leaf_step(st, c, leaf, sync, cont, l).0.lex.modes.len() == 1,
    decreases leaf, 0nat,
{
    if let LeafView::Arm(x) = leaf {
        lemma_body_one_mode(st, parser::calling(c, cont), *x);
    }
}

proof fn lemma_tree_one_mode(
    st: StateTable,
    c: CursorView,
    tree: TreeView,
    sync: u32,
    cont: Option<u32>,
    l: Seq<InsertionView>,
)
    requires
        c.lex.modes.len() == 1,
    ensures
        parser::tree_step(st, c, tree, sync, cont, l).0.lex.modes.len() == 1,
    decreases tree, 0nat,
{
    match tree {
        TreeView::Leaf(leaf) => lemma_leaf_one_mode(st, c, leaf, sync, cont, l),
        TreeView::Switch(depth, kinds, subs, default) => {
            let j = parser::arm_for(kinds, parser::look_kind(c, depth as int));
            if 0 <= j < subs.len() {
                lemma_tree_one_mode(st, c, subs[j], sync, cont, l);
            } else {
                lemma_leaf_one_mode(st, c, default, sync, cont, l);
            }
        },
    }
}

/// After `n` turns of the second parser the first, after `k` turns, has given
/// the same events, and has come to the end exactly if the second has.
pub open spec fn keeps_up(
    st: StateTable,
    slow: Seq<StateView>,
    fast: Seq<StateView>,
    m: TableMatcher,
    emit: bool,
    p: ParserView,
    q: ParserView,
    n: nat,
    k: nat,
) -> bool {
    &&& k >= n
    &&& events_in(st, slow, m, emit, p, k) == events_in(st, fast, m, emit, q, n)
    &&& turn_in(st, fast, m, emit, after_in(st, fast, m, emit, q, n)).1 is Done <==> turn_in(
        st,
        slow,
        m,
        emit,
        after_in(st, slow, m, emit, p, k),
    ).1 is Done
}

/// Where the relation carries steps over, the parsers give the same events.
pub proof fn lemma_run_carried(
    st: StateTable,
    slow: Seq<StateView>,
    fast: Seq<StateView>,
    m: TableMatcher,
    emit: bool,
    base: Base,
    p: ParserView,
    q: ParserView,
    j: nat,
    n: nat,
) -> (k: nat)
    requires
        carries(st, slow, fast, m, emit, base),
        p.garbage == q.garbage,
        behind(st, slow, base, p.cursor, q.cursor, j),
        modeless(st) && q.cursor.lex.modes.len() == 1 || tree::clean(
            events_in(st, fast, m, emit, q, n),
        ),
    ensures
        keeps_up(st, slow, fast, m, emit, p, q, n, k),
    decreases n,
{
    let (f, t) = turn_in(st, fast, m, emit, q);
    if t is Done {
        lemma_done_in(st, fast, m, emit, q, n);
        let c = p.cursor;
        let d = q.cursor;
        lemma_behind_moved(st, slow, fast, m, emit, base, c, d, c, j);
        assert(ready(st, c) && d.state == TERMINATED);
        assert(p == at(c));
        lemma_catch_up(st, slow, m, emit, base, c, d, j);
        let h = after_in(st, slow, m, emit, p, j);
        assert(base(h.cursor, d));
        assert(turn_in(st, slow, m, emit, h).1 is Done);
        lemma_turns_add(st, slow, m, emit, p, j, n);
        lemma_done_in(st, slow, m, emit, h, n);
        assert(Seq::<RawView>::empty() + Seq::<RawView>::empty() =~= Seq::<RawView>::empty());
        j + n
    } else if n == 0 {
        assert(!(turn_in(st, slow, m, emit, p).1 is Done)) by {
            if j == 0 {
                assert(base(p.cursor, q.cursor));
            } else {
                assert(p.cursor.state != TERMINATED);
            }
        }
        0
    } else {
        let rest = events_in(st, fast, m, emit, f, (n - 1) as nat);
        if modeless(st) && q.cursor.lex.modes.len() == 1 {
            lemma_keeps_one_mode(st, fast, m, emit, q);
        } else if let TurnView::Event(e) = t {
            tree::lemma_clean_parts(seq![e], rest);
            assert(seq![e][0] == e);
        }
        let (a, i) = lemma_turn_carried(st, slow, fast, m, emit, base, p, q, j);
        let g = after_in(st, slow, m, emit, p, a);
        let b = lemma_run_carried(st, slow, fast, m, emit, base, g, f, i, (n - 1) as nat);
        lemma_turns_add(st, slow, m, emit, p, a, b);
        if !(t is Event) {
            assert(Seq::<RawView>::empty() + rest =~= rest);
        }
        a + b
    }
}

} // verus!
