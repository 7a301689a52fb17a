//! Where one parser gives no error, one that is carried over to it gives none.
use vstd::prelude::*;

use crate::lowering::recovery::{InsertionView, PostFirst};
use crate::lowering::table::{
    self, BodyView, InstrView, LeafView, StateTable, StateView, TailView, TreeView,
};
use crate::lowering::validate;
use crate::runtime::events::EventView;
use crate::runtime::laws::{self, RawView};
use crate::runtime::lexer::{ScanView, TableMatcher};
use crate::runtime::parser::{self, CursorView, ParserView, TurnView, TERMINATED};
use crate::runtime::simulation::{self, Base};
use crate::runtime::tree;

verus! {

/// The two differ in their modes only.
spec fn twin(c: CursorView, e: CursorView) -> bool {
    &&& c.look == e.look
    &&& c.prev_end == e.prev_end
    &&& c.state == e.state
    &&& c.recovery == e.recovery
    &&& c.ret.len() == e.ret.len()
    &&& forall|i: int| 0 <= i < c.ret.len() ==> (#[trigger] c.ret[i]).0 == e.ret[i].0
}

proof fn lemma_pushed(c: CursorView, e: CursorView, s: u32)
    requires
        twin(c, e),
    ensures
        twin(parser::pushed(c, s), parser::pushed(e, s)),
{
    let (x, y) = (parser::pushed(c, s), parser::pushed(e, s));
    assert forall|i: int| 0 <= i < x.ret.len() implies (#[trigger] x.ret[i]).0 == y.ret[i].0 by {
        if i < c.ret.len() {
            assert(x.ret[i] == c.ret[i] && y.ret[i] == e.ret[i]);
        }
    }
}

proof fn lemma_returned(c: CursorView, e: CursorView)
    requires
        twin(c, e),
    ensures
        twin(parser::returned(c), parser::returned(e)),
{
    if c.ret.len() > 0 {
        let (x, y) = (parser::returned(c), parser::returned(e));
        assert(c.ret[c.ret.len() - 1].0 == e.ret[e.ret.len() - 1].0);
        assert forall|i: int| 0 <= i < x.ret.len() implies (#[trigger] x.ret[i]).0 == y.ret[i].0 by {
            assert(x.ret[i] == c.ret[i] && y.ret[i] == e.ret[i]);
        }
    }
}

proof fn lemma_go_on(c: CursorView, e: CursorView, cont: Option<u32>)
    requires
        twin(c, e),
    ensures
        twin(parser::go_on(c, cont), parser::go_on(e, cont)),
        twin(parser::calling(c, cont), parser::calling(e, cont)),
{
    lemma_returned(c, e);
    if let Some(s) = cont {
        lemma_pushed(c, e, s);
    }
}

/// The steps give the same event, and the cursors stay twins.
spec fn together(r: (CursorView, Option<RawView>), q: (CursorView, Option<RawView>)) -> bool {
    r.1 == q.1 && twin(r.0, q.0)
}

proof fn lemma_first(c: CursorView, e: CursorView, seqs: Seq<Seq<u16>>)
    requires
        c.look == e.look,
    ensures
        parser::in_first(c, seqs) == parser::in_first(e, seqs),
{
    if parser::in_first(c, seqs) {
        let i = choose|i: int| 0 <= i < seqs.len() && #[trigger] parser::begins(c, seqs[i]);
        assert(parser::begins(e, seqs[i]));
    }
    if parser::in_first(e, seqs) {
        let i = choose|i: int| 0 <= i < seqs.len() && #[trigger] parser::begins(e, seqs[i]);
        assert(parser::begins(c, seqs[i]));
    }
}

proof fn lemma_instrs(st: StateTable, c: CursorView, e: CursorView, l: Seq<InstrView>, n: nat)
    requires
        twin(c, e),
    ensures
        together(parser::instrs_step(st, c, l, n), parser::instrs_step(st, e, l, n)),
    decreases n,
{
    if 0 < n <= l.len() {
        lemma_instrs(st, c, e, l, (n - 1) as nat);
        let x = parser::instrs_step(st, c, l, (n - 1) as nat).0;
        let y = parser::instrs_step(st, e, l, (n - 1) as nat).0;
        if let InstrView::PushRet(s) = l[n - 1] {
            lemma_pushed(x, y, s);
        }
    }
}

proof fn lemma_body(st: StateTable, c: CursorView, e: CursorView, b: BodyView)
    requires
        twin(c, e),
    ensures
        together(parser::body_step(st, c, b), parser::body_step(st, e, b)),
    decreases b, 1nat,
{
    let n = b.instrs.len();
    lemma_instrs(st, c, e, b.instrs, n);
    lemma_tail(
        st,
        parser::instrs_step(st, c, b.instrs, n).0,
        parser::instrs_step(st, e, b.instrs, n).0,
        b.tail,
    );
}

proof fn lemma_tail(st: StateTable, c: CursorView, e: CursorView, t: TailView)
    requires
        twin(c, e),
    ensures
        together(parser::tail_step(st, c, t), parser::tail_step(st, e, t)),
    decreases t, 0nat,
{
    match t {
        TailView::Jump(_) => {},
        TailView::Ret => lemma_returned(c, e),
        TailView::Star(first, x, cont, head) => {
            lemma_first(c, e, parser::first_seqs(st, first));
            lemma_go_on(c, e, cont);
            lemma_pushed(c, e, head);
            lemma_body(st, parser::pushed(c, head), parser::pushed(e, head), *x);
        },
        TailView::Opt(first, x, cont) => {
            lemma_first(c, e, parser::first_seqs(st, first));
            lemma_go_on(c, e, cont);
            lemma_body(st, parser::calling(c, cont), parser::calling(e, cont), *x);
        },
        TailView::Dispatch(tree, sync, cont, l) => lemma_tree(st, c, e, tree, sync, cont, l),
    }
}

proof fn lemma_leaf(
    st: StateTable,
    c: CursorView,
    e: CursorView,
    leaf: LeafView,
    sync: u32,
    cont: Option<u32>,
    l: Seq<InsertionView>,
)
    requires
        twin(c, e),
    ensures
        together(
            parser::leaf_step(st, c, leaf, sync, cont, l),
            parser::leaf_step(st, e, leaf, sync, cont, l),
        ),
    decreases leaf, 0nat,
{
    lemma_go_on(c, e, cont);
    match leaf {
        LeafView::Arm(x) => {
            lemma_body(st, parser::calling(c, cont), parser::calling(e, cont), *x);
        },
        LeafView::Fallthrough => {},
        LeafView::Error => {
            let i = parser::insertion_for(l, parser::look_kind(c, 0));
            if i < l.len() {
                lemma_returned(c, e);
                if let PostFirst::PushRetAndJump { push, jump: _ } = l[i].post_first {
                    lemma_pushed(c, e, push);
                }
            }
        },
    }
}

proof fn lemma_tree(
    st: StateTable,
    c: CursorView,
    e: CursorView,
    tree: TreeView,
    sync: u32,
    cont: Option<u32>,
    l: Seq<InsertionView>,
)
    requires
        twin(c, e),
    ensures
        together(
            parser::tree_step(st, c, tree, sync, cont, l),
            parser::tree_step(st, e, tree, sync, cont, l),
        ),
    decreases tree, 0nat,
{
    match tree {
        TreeView::Leaf(leaf) => lemma_leaf(st, c, e, leaf, sync, cont, l),
        TreeView::Switch(depth, kinds, subs, default) => {
            let j = parser::arm_for(kinds, parser::look_kind(c, depth as int));
            if 0 <= j < subs.len() {
                lemma_tree(st, c, e, subs[j], sync, cont, l);
            } else {
                lemma_leaf(st, c, e, default, sync, cont, l);
            }
        },
    }
}

/// An error that is the first event of one is the first event of its twin.
proof fn lemma_first_error(
    st: StateTable,
    states: Seq<StateView>,
    m: TableMatcher,
    emit: bool,
    c: CursorView,
    e: CursorView,
    error: RawView,
    k: nat,
)
    requires
        validate::all_valid(states),
        twin(c, e),
        c.look.len() >= st.k,
        error is Error,
        simulation::events_in(st, states, m, emit, simulation::at(e), k) == seq![error],
    ensures
        exists|n: nat|
            !tree::clean(
                #[trigger] simulation::events_in(st, states, m, emit, simulation::at(c), n),
            ),
    decreases k,
{
    let (q, t) = simulation::turn_in(st, states, m, emit, simulation::at(e));
    let (p, u) = simulation::turn_in(st, states, m, emit, simulation::at(c));
    let events = simulation::events_in(st, states, m, emit, simulation::at(e), k);
    assert(events.len() == 1);
    if e.recovery is None && e.state != TERMINATED {
        if let Some(b) = table::body_of(states, e.state) {
            lemma_body(st, c, e, b);
            laws::lemma_body_of(states, e.state);
            lemma_valid(states, e.state);
            laws::lemma_body(st, e, b);
        }
    }
    match t {
        TurnView::Event(x) => {
            assert(events[0] == x);
            assert(u == t);
            let one = simulation::events_in(st, states, m, emit, simulation::at(c), 1);
            reveal_with_fuel(simulation::events_in, 2);
            assert(one =~= seq![x]);
            assert(one[0] is Error);
            assert(!tree::clean(one));
        },
        TurnView::Again => {
            assert(u == t);
            assert(p == simulation::at(p.cursor) && q == simulation::at(q.cursor));
            lemma_first_error(
                st,
                states,
                m,
                emit,
                p.cursor,
                q.cursor,
                error,
                (k - 1) as nat,
            );
            let n = choose|n: nat|
                !tree::clean(
                    #[trigger] simulation::events_in(
                        st,
                        states,
                        m,
                        emit,
                        simulation::at(p.cursor),
                        n,
                    ),
                );
            assert(simulation::events_in(st, states, m, emit, simulation::at(c), n + 1)
                == simulation::events_in(st, states, m, emit, simulation::at(p.cursor), n));
        },
        TurnView::Done => {},
    }
}

proof fn lemma_valid(states: Seq<StateView>, id: u32)
    requires
        validate::all_valid(states),
    ensures
        table::body_of(states, id) matches Some(b) ==> validate::body_events(b) <= 1,
    decreases states.len(),
{
    if states.len() > 0 {
        let p = states.drop_last();
        assert(validate::valid_body(states[states.len() - 1].body));
        assert forall|i: int| 0 <= i < p.len() implies validate::valid_body(
            (#[trigger] p[i]).body,
        ) by {
            assert(p[i] == states[i]);
        }
        lemma_valid(p, id);
    }
}

/// The parser never gives an error.
pub open spec fn always_clean(
    st: StateTable,
    states: Seq<StateView>,
    m: TableMatcher,
    emit: bool,
    p: ParserView,
) -> bool {
    forall|n: nat| tree::clean(#[trigger] simulation::events_in(st, states, m, emit, p, n))
}

/// Where the first parser gives no error, the second gives none.
pub proof fn lemma_clean_carried(
    st: StateTable,
    slow: Seq<StateView>,
    fast: Seq<StateView>,
    m: TableMatcher,
    emit: bool,
    base: Base,
    p: ParserView,
    q: ParserView,
    j: nat,
    n: nat,
)
    requires
        simulation::carries(st, slow, fast, m, emit, base),
        validate::all_valid(slow),
        p.garbage == q.garbage,
        simulation::behind(st, slow, base, p.cursor, q.cursor, j),
        always_clean(st, slow, m, emit, p),
    ensures
        tree::clean(simulation::events_in(st, fast, m, emit, q, n)),
    decreases n,
{
    if n > 0 {
        let (f, t) = simulation::turn_in(st, fast, m, emit, q);
        let c = p.cursor;
        let d = q.cursor;
        let failed = t matches TurnView::Event(EventView::Error(_));
        if t is Done {
        } else if failed && d.lex.modes.len() != 1 {
            let error = t->Event_0;
            simulation::lemma_behind_moved(st, slow, fast, m, emit, base, c, d, c, j);
            reveal_with_fuel(simulation::events_in, 2);
            if d.look.len() < st.k {
                let one = simulation::events_in(st, slow, m, emit, p, 1);
                assert(one =~= seq![error]);
                assert(one[0] is Error);
                assert(tree::clean(one));
            } else {
                assert(p == simulation::at(c));
                simulation::lemma_catch_up(st, slow, m, emit, base, c, d, j);
                let h = simulation::after_in(st, slow, m, emit, p, j);
                let none = Seq::<RawView>::empty();
                if d.state == TERMINATED {
                    simulation::lemma_turns_add(st, slow, m, emit, p, j, 1);
                    let one = simulation::events_in(st, slow, m, emit, h, 1);
                    assert(one =~= seq![error]);
                    assert(none + one =~= one);
                    assert(tree::clean(simulation::events_in(st, slow, m, emit, p, j + 1)));
                    assert(one[0] is Error);
                } else {
                    let x = CursorView {
                        lex: ScanView { modes: seq![0u32], ..d.lex },
                        ..d
                    };
                    let hm = simulation::moved(h.cursor, x);
                    let dm = simulation::moved(d, x);
                    assert(base(h.cursor, d));
                    assert(base(hm, dm));
                    assert(simulation::steps_match(st, slow, fast, m, emit, base, hm, dm));
                    if let Some(b) = table::body_of(fast, d.state) {
                        lemma_body(st, d, dm, b);
                    }
                    let (y, e) = simulation::state_step(st, fast, dm);
                    assert(e == Some(error));
                    let (k, i) = choose|k: nat, i: nat| #[trigger]
                        simulation::reaches(st, slow, m, emit, base, hm, y, e, k, i);
                    assert(laws::listed(e) =~= seq![error]);
                    assert(h == simulation::at(h.cursor));
                    lemma_first_error(st, slow, m, emit, h.cursor, hm, error, k);
                    let a = choose|a: nat|
                        !tree::clean(
                            #[trigger] simulation::events_in(
                                st,
                                slow,
                                m,
                                emit,
                                simulation::at(h.cursor),
                                a,
                            ),
                        );
                    simulation::lemma_turns_add(st, slow, m, emit, p, j, a);
                    let more = simulation::events_in(st, slow, m, emit, h, a);
                    assert(none + more =~= more);
                    assert(tree::clean(simulation::events_in(st, slow, m, emit, p, j + a)));
                }
            }
        } else {
            let (a, i) = simulation::lemma_turn_carried(st, slow, fast, m, emit, base, p, q, j);
            let g = simulation::after_in(st, slow, m, emit, p, a);
            let here = simulation::events_in(st, slow, m, emit, p, a);
            assert(tree::clean(here));
            if let TurnView::Event(e) = t {
                assert(here[0] == e);
            }
            assert forall|k: nat| tree::clean(
                #[trigger] simulation::events_in(st, slow, m, emit, g, k),
            ) by {
                simulation::lemma_turns_add(st, slow, m, emit, p, a, k);
                let more = simulation::events_in(st, slow, m, emit, g, k);
                assert(tree::clean(simulation::events_in(st, slow, m, emit, p, a + k)));
                tree::lemma_clean_parts(here, more);
            }
            lemma_clean_carried(st, slow, fast, m, emit, base, g, f, i, (n - 1) as nat);
            if let TurnView::Event(e) = t {
                let rest = simulation::events_in(st, fast, m, emit, f, (n - 1) as nat);
                let all = seq![e] + rest;
                assert forall|k: int| 0 <= k < all.len() implies !((#[trigger] all[k])
                    is Error) by {
                    if k > 0 {
                        assert(all[k] == rest[k - 1]);
                    }
                }
            }
        }
    }
}

} // verus!
