//! The events of a parse form a tree: a rule is left before those around it.
use vstd::prelude::*;

use crate::analysis::AnalyzedGrammar;
use crate::lowering::levels::{self, Owed};
use crate::lowering::lexer_dfa::DfaOpts;
use crate::lowering::nesting;
use crate::lowering::optimize::LoweringOpts;
use crate::lowering::pipeline;
use crate::lowering::recovery::{self, InsertionView, PostFirst};
use crate::lowering::state_first::Firsts;
use crate::lowering::table::{
    self, BodyView, InstrView, LeafView, StateTable, TailView, TreeView,
};
use crate::lowering::validate;
use crate::runtime::events::EventView;
use crate::runtime::laws::{self, RawView};
use crate::runtime::lexer::TableMatcher;
use crate::runtime::parser::{self, CursorView, ParserView, TurnView, TERMINATED};
use crate::runtime::stamping;

verus! {

/// The rules that are open behind the events, the innermost last, if those of
/// `open` are open before them; none if some rule is left that is not the
/// innermost.
pub open spec fn nested(events: Seq<RawView>, open: Seq<u16>) -> Option<Seq<u16>>
    decreases events.len(),
{
    if events.len() == 0 {
        Some(open)
    } else {
        match events[0] {
            EventView::Enter(k, _) => nested(events.skip(1), open.push(k)),
            EventView::Exit(k, _) => if open.len() > 0 && open.last() == k {
                nested(events.skip(1), open.drop_last())
            } else {
                None
            },
            _ => nested(events.skip(1), open),
        }
    }
}

/// No event is an error.
pub open spec fn clean(events: Seq<RawView>) -> bool {
    forall|i: int| 0 <= i < events.len() ==> !((#[trigger] events[i]) is Error)
}

proof fn lemma_nested_joined(a: Seq<RawView>, b: Seq<RawView>, open: Seq<u16>)
    ensures
        nested(a + b, open) == match nested(a, open) {
            Some(x) => nested(b, x),
            None => None,
        },
    decreases a.len(),
{
    if a.len() == 0 {
        assert(a + b =~= b);
    } else {
        assert((a + b).skip(1) =~= a.skip(1) + b);
        assert((a + b)[0] == a[0]);
        match a[0] {
            EventView::Enter(k, _) => lemma_nested_joined(a.skip(1), b, open.push(k)),
            EventView::Exit(k, _) => lemma_nested_joined(a.skip(1), b, open.drop_last()),
            _ => lemma_nested_joined(a.skip(1), b, open),
        }
    }
}

proof fn lemma_nested_one(e: RawView, open: Seq<u16>)
    ensures
        nested(seq![e], open) == match e {
            EventView::Enter(k, _) => Some(open.push(k)),
            EventView::Exit(k, _) => if open.len() > 0 && open.last() == k {
                Some(open.drop_last())
            } else {
                None
            },
            _ => Some(open),
        },
{
    reveal_with_fuel(nested, 2);
    assert(seq![e].skip(1) =~= Seq::<RawView>::empty());
    assert(seq![e][0] == e);
}

/// Parts of a clean list are clean.
pub proof fn lemma_clean_parts(a: Seq<RawView>, b: Seq<RawView>)
    requires
        clean(a + b),
    ensures
        clean(a),
        clean(b),
{
    assert forall|i: int| 0 <= i < a.len() implies !((#[trigger] a[i]) is Error) by {
        assert((a + b)[i] == a[i]);
    }
    assert forall|i: int| 0 <= i < b.len() implies !((#[trigger] b[i]) is Error) by {
        assert((a + b)[a.len() + i] == b[i]);
    }
}

/// Going on behind a token that is taken as inserted is level.
pub open spec fn post_level(o: Owed, p: PostFirst, cur: Seq<u16>) -> bool {
    match p {
        PostFirst::Jump(s) => levels::goes(o, s, cur),
        PostFirst::PushRetAndJump { push, jump } => match levels::above(o, push, cur) {
            Some(d) => levels::goes(o, jump, d),
            None => false,
        },
        PostFirst::Ret => cur.len() == 0,
    }
}

/// Every insertion in the body is level.
pub open spec fn body_inserts(o: Owed, b: BodyView, cur: Seq<u16>) -> bool
    decreases b, 1nat,
{
    match levels::instrs_owed(o, b.instrs, b.instrs.len(), cur) {
        Some(d) => tail_inserts(o, b.tail, d),
        None => true,
    }
}

/// Every insertion in the end of a body is level.
pub open spec fn tail_inserts(o: Owed, t: TailView, cur: Seq<u16>) -> bool
    decreases t, 0nat,
{
    match t {
        TailView::Jump(_) => true,
        TailView::Ret => true,
        TailView::Star(_, b, _, head) => match levels::above(o, head, cur) {
            Some(d) => body_inserts(o, *b, d),
            None => true,
        },
        TailView::Opt(_, b, cont) => match levels::above_cont(o, cont, cur) {
            Some(d) => body_inserts(o, *b, d),
            None => true,
        },
        TailView::Dispatch(tree, _, cont, l) => {
            &&& forall|i: int|
                0 <= i < l.len() ==> post_level(o, (#[trigger] l[i]).post_first, cur)
            &&& match levels::above_cont(o, cont, cur) {
                Some(d) => tree_inserts(o, tree, d),
                None => true,
            }
        },
    }
}

/// Every insertion in a leaf is level.
pub open spec fn leaf_inserts(o: Owed, l: LeafView, cur: Seq<u16>) -> bool
    decreases l, 0nat,
{
    match l {
        LeafView::Arm(b) => body_inserts(o, *b, cur),
        _ => true,
    }
}

/// Every insertion in a tree is level.
pub open spec fn tree_inserts(o: Owed, t: TreeView, cur: Seq<u16>) -> bool
    decreases t, 0nat,
{
    match t {
        TreeView::Leaf(l) => leaf_inserts(o, l, cur),
        TreeView::Switch(_, _, subs, default) => leaf_inserts(o, default, cur) && forall|i: int|
            0 <= i < subs.len() ==> tree_inserts(o, #[trigger] subs[i], cur),
    }
}

/// No insertion of the table goes into a rule that was not entered.
pub open spec fn inserts_level(o: Owed, st: StateTable) -> bool {
    forall|i: int|
        0 <= i < st.states@.len() ==> body_inserts(
            o,
            (#[trigger] st.states@[i]).body,
            o[st.states@[i].id],
        )
}

/// The rules that are open below the current frame.
pub open spec fn frames(o: Owed, ret: Seq<(u32, nat)>) -> Seq<u16>
    decreases ret.len(),
{
    if ret.len() == 0 {
        Seq::empty()
    } else {
        frames(o, ret.drop_last()) + o[ret.last().0]
    }
}

/// Every return state has a level.
spec fn rets_ok(o: Owed, ret: Seq<(u32, nat)>) -> bool {
    forall|i: int| 0 <= i < ret.len() ==> o.contains_key((#[trigger] ret[i]).0)
}

/// The rules that are open.
pub open spec fn open_at(o: Owed, c: CursorView) -> Seq<u16> {
    frames(o, c.ret) + (if c.state == TERMINATED {
        Seq::empty()
    } else {
        o[c.state]
    })
}

/// The parser is at a state that has a level, or at the end.
spec fn placed(o: Owed, c: CursorView) -> bool {
    &&& rets_ok(o, c.ret)
    &&& o.contains_key(c.state) || (c.state == TERMINATED && c.ret.len() == 0)
}

proof fn lemma_pushed(o: Owed, ret: Seq<(u32, nat)>, s: u32, m: nat, cur: Seq<u16>)
    requires
        rets_ok(o, ret),
        levels::above(o, s, cur) is Some,
    ensures
        rets_ok(o, ret.push((s, m))),
        frames(o, ret) + cur == frames(o, ret.push((s, m))) + levels::above(o, s, cur)->0,
{
    let next = ret.push((s, m));
    assert(next.drop_last() =~= ret);
    assert forall|i: int| 0 <= i < next.len() implies o.contains_key((#[trigger] next[i]).0) by {
        if i < ret.len() {
            assert(next[i] == ret[i]);
        }
    }
    let x = levels::above(o, s, cur)->0;
    assert(cur =~= o[s] + x);
    assert(frames(o, ret) + cur =~= (frames(o, ret) + o[s]) + x);
}

proof fn lemma_instr(o: Owed, st: StateTable, c: CursorView, i: InstrView, cur: Seq<u16>)
    requires
        rets_ok(o, c.ret),
        levels::instr_owed(o, i, cur) is Some,
    ensures
        ({
            let (d, e) = parser::instr_step(st, c, i);
            &&& nested(laws::listed(e), frames(o, c.ret) + cur) == Some(
                frames(o, d.ret) + levels::instr_owed(o, i, cur)->0,
            )
            &&& rets_ok(o, d.ret)
        }),
{
    let (d, e) = parser::instr_step(st, c, i);
    let open = frames(o, c.ret) + cur;
    match e {
        Some(x) => lemma_nested_one(x, open),
        None => {},
    }
    match i {
        InstrView::Enter(k) => {
            assert(open.push(k) =~= frames(o, c.ret) + cur.push(k));
        },
        InstrView::Exit(k) => {
            assert(open.drop_last() =~= frames(o, c.ret) + cur.drop_last());
        },
        InstrView::Expect(_, _, _, _) => {},
        InstrView::PushRet(s) => {
            lemma_pushed(o, c.ret, s, c.lex.modes.len(), cur);
        },
    }
}

proof fn lemma_instrs(
    o: Owed,
    st: StateTable,
    c: CursorView,
    l: Seq<InstrView>,
    n: nat,
    cur: Seq<u16>,
)
    requires
        n <= l.len(),
        rets_ok(o, c.ret),
        levels::instrs_owed(o, l, n, cur) is Some,
    ensures
        ({
            let d = parser::instrs_step(st, c, l, n).0;
            &&& nested(laws::instrs_trace(st, c, l, n), frames(o, c.ret) + cur) == Some(
                frames(o, d.ret) + levels::instrs_owed(o, l, n, cur)->0,
            )
            &&& rets_ok(o, d.ret)
        }),
    decreases n,
{
    if n > 0 {
        lemma_instrs(o, st, c, l, (n - 1) as nat, cur);
        let d = parser::instrs_step(st, c, l, (n - 1) as nat).0;
        let x = levels::instrs_owed(o, l, (n - 1) as nat, cur)->0;
        lemma_instr(o, st, d, l[n - 1], x);
        lemma_nested_joined(
            laws::instrs_trace(st, c, l, (n - 1) as nat),
            laws::listed(parser::instr_step(st, d, l[n - 1]).1),
            frames(o, c.ret) + cur,
        );
    }
}

/// Returning with nothing to leave.
proof fn lemma_returned(o: Owed, c: CursorView, cur: Seq<u16>)
    requires
        rets_ok(o, c.ret),
        !o.contains_key(TERMINATED),
        cur.len() == 0,
    ensures
        placed(o, parser::returned(c)),
        open_at(o, parser::returned(c)) == frames(o, c.ret) + cur,
{
    let d = parser::returned(c);
    if c.ret.len() > 0 {
        let n = c.ret.len() - 1;
        assert(o.contains_key(c.ret[n].0));
        assert forall|i: int| 0 <= i < d.ret.len() implies o.contains_key(
            (#[trigger] d.ret[i]).0,
        ) by {
            assert(d.ret[i] == c.ret[i]);
        }
        assert(frames(o, c.ret) + cur =~= frames(o, c.ret));
    } else {
        assert(frames(o, c.ret) + cur =~= open_at(o, d));
    }
}

proof fn lemma_goes_on(o: Owed, c: CursorView, cont: Option<u32>, cur: Seq<u16>)
    requires
        rets_ok(o, c.ret),
        !o.contains_key(TERMINATED),
        levels::goes_on(o, cont, cur),
    ensures
        placed(o, parser::go_on(c, cont)),
        open_at(o, parser::go_on(c, cont)) == frames(o, c.ret) + cur,
{
    if cont is None {
        lemma_returned(o, c, cur);
    }
}

proof fn lemma_calling(o: Owed, c: CursorView, cont: Option<u32>, cur: Seq<u16>)
    requires
        rets_ok(o, c.ret),
        levels::above_cont(o, cont, cur) is Some,
    ensures
        rets_ok(o, parser::calling(c, cont).ret),
        frames(o, c.ret) + cur == frames(o, parser::calling(c, cont).ret)
            + levels::above_cont(o, cont, cur)->0,
{
    if let Some(s) = cont {
        lemma_pushed(o, c.ret, s, c.lex.modes.len(), cur);
    }
}

proof fn lemma_body(o: Owed, st: StateTable, c: CursorView, b: BodyView, cur: Seq<u16>)
    requires
        rets_ok(o, c.ret),
        !o.contains_key(TERMINATED),
        levels::body_level(o, b, cur),
        body_inserts(o, b, cur),
    ensures
        ({
            let d = parser::body_step(st, c, b).0;
            &&& nested(laws::body_trace(st, c, b), frames(o, c.ret) + cur) == Some(open_at(o, d))
            &&& placed(o, d)
        }),
    decreases b, 1nat,
{
    let n = b.instrs.len();
    lemma_instrs(o, st, c, b.instrs, n, cur);
    let d = parser::instrs_step(st, c, b.instrs, n).0;
    let x = levels::instrs_owed(o, b.instrs, n, cur)->0;
    let head = laws::instrs_trace(st, c, b.instrs, n);
    let tail = laws::tail_trace(st, d, b.tail);
    assert(laws::body_trace(st, c, b) == head + tail);
    lemma_tail(o, st, d, b.tail, x);
    lemma_nested_joined(head, tail, frames(o, c.ret) + cur);
}

proof fn lemma_tail(o: Owed, st: StateTable, c: CursorView, t: TailView, cur: Seq<u16>)
    requires
        rets_ok(o, c.ret),
        !o.contains_key(TERMINATED),
        levels::tail_level(o, t, cur),
        tail_inserts(o, t, cur),
    ensures
        ({
            let d = parser::tail_step(st, c, t).0;
            &&& nested(laws::tail_trace(st, c, t), frames(o, c.ret) + cur) == Some(open_at(o, d))
            &&& placed(o, d)
        }),
    decreases t, 0nat,
{
    match t {
        TailView::Jump(s) => {},
        TailView::Ret => lemma_returned(o, c, cur),
        TailView::Star(first, x, cont, head) => {
            if parser::in_first(c, parser::first_seqs(st, first)) {
                lemma_pushed(o, c.ret, head, c.lex.modes.len(), cur);
                lemma_body(o, st, parser::pushed(c, head), *x, levels::above(o, head, cur)->0);
            } else {
                lemma_goes_on(o, c, cont, cur);
            }
        },
        TailView::Opt(first, x, cont) => {
            if parser::in_first(c, parser::first_seqs(st, first)) {
                lemma_calling(o, c, cont, cur);
                let d = levels::above_cont(o, cont, cur)->0;
                lemma_body(o, st, parser::calling(c, cont), *x, d);
            } else {
                lemma_goes_on(o, c, cont, cur);
            }
        },
        TailView::Dispatch(tree, sync, cont, l) => {
            lemma_tree(o, st, c, tree, sync, cont, l, cur);
        },
    }
}

proof fn lemma_leaf(
    o: Owed,
    st: StateTable,
    c: CursorView,
    leaf: LeafView,
    sync: u32,
    cont: Option<u32>,
    l: Seq<InsertionView>,
    cur: Seq<u16>,
)
    requires
        rets_ok(o, c.ret),
        !o.contains_key(TERMINATED),
        levels::goes_on(o, cont, cur),
        levels::above_cont(o, cont, cur) is Some,
        levels::leaf_level(o, leaf, levels::above_cont(o, cont, cur)->0),
        leaf_inserts(o, leaf, levels::above_cont(o, cont, cur)->0),
        forall|i: int| 0 <= i < l.len() ==> post_level(o, (#[trigger] l[i]).post_first, cur),
    ensures
        ({
            let d = parser::leaf_step(st, c, leaf, sync, cont, l).0;
            &&& nested(
                laws::leaf_trace(st, c, leaf, sync, cont, l),
                frames(o, c.ret) + cur,
            ) == Some(open_at(o, d))
            &&& placed(o, d)
        }),
    decreases leaf, 0nat,
{
    match leaf {
        LeafView::Arm(x) => {
            lemma_calling(o, c, cont, cur);
            lemma_body(
                o,
                st,
                parser::calling(c, cont),
                *x,
                levels::above_cont(o, cont, cur)->0,
            );
        },
        LeafView::Fallthrough => lemma_goes_on(o, c, cont, cur),
        LeafView::Error => {
            let (d, e) = parser::missed(st, c, sync, cont, l);
            let err = e->0;
            lemma_nested_one(err, frames(o, c.ret) + cur);
            let i = parser::insertion_for(l, parser::look_kind(c, 0));
            if i < l.len() {
                lemma_insertion(l, parser::look_kind(c, 0));
                assert(post_level(o, l[i].post_first, cur));
                match l[i].post_first {
                    PostFirst::Jump(s) => {},
                    PostFirst::PushRetAndJump { push, jump } => {
                        lemma_pushed(o, c.ret, push, c.lex.modes.len(), cur);
                    },
                    PostFirst::Ret => lemma_returned(o, c, cur),
                }
            } else {
                lemma_goes_on(o, c, cont, cur);
            }
        },
    }
}

proof fn lemma_insertion(l: Seq<InsertionView>, kind: Option<u16>)
    ensures
        0 <= parser::insertion_for(l, kind) <= l.len(),
    decreases l.len(),
{
    if l.len() > 0 {
        lemma_insertion(l.skip(1), kind);
    }
}

proof fn lemma_tree(
    o: Owed,
    st: StateTable,
    c: CursorView,
    tree: TreeView,
    sync: u32,
    cont: Option<u32>,
    l: Seq<InsertionView>,
    cur: Seq<u16>,
)
    requires
        rets_ok(o, c.ret),
        !o.contains_key(TERMINATED),
        levels::goes_on(o, cont, cur),
        levels::above_cont(o, cont, cur) is Some,
        levels::tree_level(o, tree, levels::above_cont(o, cont, cur)->0),
        tree_inserts(o, tree, levels::above_cont(o, cont, cur)->0),
        forall|i: int| 0 <= i < l.len() ==> post_level(o, (#[trigger] l[i]).post_first, cur),
    ensures
        ({
            let d = parser::tree_step(st, c, tree, sync, cont, l).0;
            &&& nested(
                laws::tree_trace(st, c, tree, sync, cont, l),
                frames(o, c.ret) + cur,
            ) == Some(open_at(o, d))
            &&& placed(o, d)
        }),
    decreases tree, 0nat,
{
    match tree {
        TreeView::Leaf(leaf) => lemma_leaf(o, st, c, leaf, sync, cont, l, cur),
        TreeView::Switch(depth, kinds, subs, default) => {
            let j = parser::arm_for(kinds, parser::look_kind(c, depth as int));
            if 0 <= j < subs.len() {
                assert(levels::tree_level(o, subs[j], levels::above_cont(o, cont, cur)->0));
                lemma_tree(o, st, c, subs[j], sync, cont, l, cur);
            } else {
                lemma_leaf(o, st, c, default, sync, cont, l, cur);
            }
        },
    }
}

proof fn lemma_turn(o: Owed, st: StateTable, m: TableMatcher, emit: bool, p: ParserView)
    requires
        validate::all_valid(st.states@),
        nesting::level_table(o, st),
        placed(o, p.cursor),
        inserts_level(o, st),
    ensures
        ({
            let (q, t) = parser::turn(st, m, emit, p);
            &&& placed(o, q.cursor)
            &&& match t {
                TurnView::Event(e) => nested(seq![e], open_at(o, p.cursor)) == Some(
                    open_at(o, q.cursor),
                ),
                _ => open_at(o, q.cursor) == open_at(o, p.cursor),
            }
        }),
{
    let c = p.cursor;
    let (q, t) = parser::turn(st, m, emit, p);
    if let TurnView::Event(e) = t {
        lemma_nested_one(e, open_at(o, c));
    }
    if p.garbage is None && c.look.len() >= st.k && c.recovery is None && c.state != TERMINATED {
        assert(o.contains_key(c.state));
        assert(table::has_state(st.states@, c.state));
        lemma_has_body(st.states@, c.state);
        let b = table::body_of(st.states@, c.state)->0;
        laws::lemma_body_of(st.states@, c.state);
        let i = choose|i: int|
            0 <= i < st.states@.len() && (#[trigger] st.states@[i]).id == c.state
                && st.states@[i].body == b;
        assert(validate::valid_body(st.states@[i].body));
        assert(levels::body_level(o, st.states@[i].body, o[st.states@[i].id]));
        laws::law_no_event_is_lost(st, c, b);
        let (d, e) = parser::body_step(st, c, b);
        assert(body_inserts(o, st.states@[i].body, o[st.states@[i].id]));
        lemma_body(o, st, c, b, o[c.state]);
    }
}

proof fn lemma_has_body(states: Seq<table::StateView>, id: u32)
    requires
        table::has_state(states, id),
    ensures
        table::body_of(states, id) is Some,
    decreases states.len(),
{
    let i = choose|i: int| 0 <= i < states.len() && (#[trigger] states[i]).id == id;
    if states.last().id != id {
        assert(states.drop_last()[i].id == id);
        lemma_has_body(states.drop_last(), id);
    }
}

proof fn lemma_run(o: Owed, st: StateTable, m: TableMatcher, emit: bool, p: ParserView, n: nat)
    requires
        validate::all_valid(st.states@),
        nesting::level_table(o, st),
        placed(o, p.cursor),
        inserts_level(o, st),
    ensures
        ({
            let q = laws::after_turns(st, m, emit, p, n);
            &&& placed(o, q.cursor)
            &&& nested(
                parser::events_within(st, m, emit, p, n),
                open_at(o, p.cursor),
            ) == Some(open_at(o, q.cursor))
        }),
    decreases n,
{
    if n > 0 {
        let (q, t) = parser::turn(st, m, emit, p);
        let rest = parser::events_within(st, m, emit, q, (n - 1) as nat);
        match t {
            TurnView::Event(e) => {
                lemma_turn(o, st, m, emit, p);
                lemma_run(o, st, m, emit, q, (n - 1) as nat);
                lemma_nested_joined(seq![e], rest, open_at(o, p.cursor));
            },
            TurnView::Again => {
                lemma_turn(o, st, m, emit, p);
                lemma_run(o, st, m, emit, q, (n - 1) as nat);
            },
            TurnView::Done => {
                lemma_done(st, m, emit, p, n);
            },
        }
    }
}

proof fn lemma_done(st: StateTable, m: TableMatcher, emit: bool, p: ParserView, n: nat)
    requires
        parser::turn(st, m, emit, p).1 is Done,
    ensures
        laws::after_turns(st, m, emit, p, n) == p,
    decreases n,
{
    if n > 0 {
        lemma_done(st, m, emit, p, (n - 1) as nat);
    }
}

/// Every rule that a parse leaves is the last that it entered and did not yet
/// leave, and when the parse is over every rule has been left.
pub proof fn law_level_events_form_a_tree(
    o: Owed,
    st: StateTable,
    m: TableMatcher,
    emit: bool,
    src: Seq<char>,
    entry: int,
    n: nat,
)
    requires
        validate::all_valid(st.states@),
        nesting::level_table(o, st),
        inserts_level(o, st),
        0 <= entry < st.entry_states@.len(),
    ensures
        ({
            let p = parser::started(src, st.entry_states@[entry].1);
            let q = laws::after_turns(st, m, emit, p, n);
            let events = parser::events_within(st, m, emit, p, n);
            &&& nested(events, Seq::empty()) == Some(open_at(o, q.cursor))
            &&& parser::turn(st, m, emit, q).1 is Done ==> nested(events, Seq::empty()) == Some(
                Seq::<u16>::empty(),
            )
        }),
{
    let p = parser::started(src, st.entry_states@[entry].1);
    let q = laws::after_turns(st, m, emit, p, n);
    assert(open_at(o, p.cursor) =~= Seq::<u16>::empty());
    lemma_run(o, st, m, emit, p, n);
    if parser::turn(st, m, emit, q).1 is Done {
        assert(q.cursor.state == TERMINATED);
        assert(open_at(o, q.cursor) =~= Seq::<u16>::empty());
    }
}

/// As many rules are to be left as are left open.
proof fn lemma_left_open(o: Owed, l: Seq<InstrView>)
    requires
        levels::instrs_owed(o, l, l.len(), Seq::empty()) is Some,
    ensures
        levels::instrs_owed(o, l, l.len(), Seq::empty())->0.len() == recovery::left_open(l),
    decreases l.len(),
{
    if l.len() > 0 {
        let p = l.drop_last();
        levels::lemma_owed_prefix(o, p, l, p.len(), Seq::empty());
        lemma_left_open(o, p);
    }
}

/// Going on as an arm does that leaves no rule open is level.
proof fn lemma_post(o: Owed, b: BodyView, cont: Option<u32>, cur: Seq<u16>)
    requires
        levels::goes_on(o, cont, cur),
        levels::above_cont(o, cont, cur) is Some,
        levels::body_level(o, b, levels::above_cont(o, cont, cur)->0),
        recovery::left_open(b.instrs) == 0,
        recovery::post_of(b.tail, cont) is Some,
    ensures
        post_level(o, recovery::post_of(b.tail, cont)->0, cur),
{
    let d = levels::above_cont(o, cont, cur)->0;
    let none = Seq::<u16>::empty();
    assert(d =~= none);
    lemma_left_open(o, b.instrs);
    let x = levels::instrs_owed(o, b.instrs, b.instrs.len(), none)->0;
    assert(x =~= none);
    if cont is None {
        assert(cur =~= none);
    }
}

/// What an arm offers comes from an arm of the dispatch.
proof fn lemma_candidate(
    st: StateTable,
    f: Firsts,
    rule: Seq<char>,
    kinds: Seq<u16>,
    subs: Seq<TreeView>,
    cont: Option<u32>,
    n: nat,
    a: int,
)
    requires
        n <= subs.len(),
        0 <= a < recovery::candidates(st, f, rule, kinds, subs, cont, n).len(),
    ensures
        recovery::candidates(st, f, rule, kinds, subs, cont, n).len() <= n,
        exists|j: int|
            0 <= j < n && recovery::candidate(st, f, rule, kinds[j], #[trigger] subs[j], cont)
                == Some(recovery::candidates(st, f, rule, kinds, subs, cont, n)[a]),
    decreases n,
{
    if n > 0 {
        let before = recovery::candidates(st, f, rule, kinds, subs, cont, (n - 1) as nat);
        let all = recovery::candidates(st, f, rule, kinds, subs, cont, n);
        if before.len() > 0 {
            lemma_candidate(st, f, rule, kinds, subs, cont, (n - 1) as nat, 0);
        }
        if a < before.len() {
            lemma_candidate(st, f, rule, kinds, subs, cont, (n - 1) as nat, a);
            let j = choose|j: int|
                0 <= j < n - 1 && recovery::candidate(
                    st,
                    f,
                    rule,
                    kinds[j],
                    #[trigger] subs[j],
                    cont,
                ) == Some(before[a]);
            assert(all[a] == before[a]);
            assert(recovery::candidate(st, f, rule, kinds[j], subs[j], cont) == Some(all[a]));
        } else {
            assert(recovery::candidate(st, f, rule, kinds[n - 1], subs[n - 1], cont) == Some(
                all[a],
            ));
        }
    }
}

proof fn lemma_stamped_body(
    o: Owed,
    st: StateTable,
    f: Firsts,
    rule: Seq<char>,
    b: BodyView,
    cur: Seq<u16>,
)
    requires
        levels::body_level(o, b, cur),
        table::body_narrow(b),
    ensures
        body_inserts(o, recovery::body_stamped(st, f, rule, b), cur),
    decreases b, 1nat,
{
    let d = levels::instrs_owed(o, b.instrs, b.instrs.len(), cur)->0;
    lemma_stamped_tail(o, st, f, rule, b.tail, d);
}

proof fn lemma_stamped_tail(
    o: Owed,
    st: StateTable,
    f: Firsts,
    rule: Seq<char>,
    t: TailView,
    cur: Seq<u16>,
)
    requires
        levels::tail_level(o, t, cur),
        table::tail_narrow(t),
    ensures
        tail_inserts(o, recovery::tail_stamped(st, f, rule, t), cur),
    decreases t, 0nat,
{
    match t {
        TailView::Star(_, b, _, head) => {
            lemma_stamped_body(o, st, f, rule, *b, levels::above(o, head, cur)->0);
        },
        TailView::Opt(_, b, cont) => {
            lemma_stamped_body(o, st, f, rule, *b, levels::above_cont(o, cont, cur)->0);
        },
        TailView::Dispatch(tree, _, cont, _) => {
            let d = levels::above_cont(o, cont, cur)->0;
            lemma_stamped_tree(o, st, f, rule, tree, d);
            let l = recovery::tree_insertions(st, f, rule, tree, cont);
            assert forall|i: int| 0 <= i < l.len() implies post_level(
                o,
                (#[trigger] l[i]).post_first,
                cur,
            ) by {
                let kinds = tree->Switch_1;
                let subs = tree->Switch_2;
                let arms = recovery::candidates(st, f, rule, kinds, subs, cont, subs.len());
                lemma_arms(st, f, rule, kinds, subs, cont, subs.len());
                let a = recovery::lemma_gone_on(arms, i);
                lemma_candidate(st, f, rule, kinds, subs, cont, subs.len(), a);
                let j = choose|j: int|
                    0 <= j < subs.len() && recovery::candidate(
                        st,
                        f,
                        rule,
                        kinds[j],
                        #[trigger] subs[j],
                        cont,
                    ) == Some(arms[a]);
                assert(levels::tree_level(o, tree, d));
                assert(levels::tree_level(o, subs[j], d));
                let leaf = subs[j]->Leaf_0;
                assert(levels::leaf_level(o, leaf, d));
                assert(levels::body_level(o, *leaf->Arm_0, d));
                lemma_post(o, *leaf->Arm_0, cont, cur);
            }
        },
        _ => {},
    }
}

proof fn lemma_arms(
    st: StateTable,
    f: Firsts,
    rule: Seq<char>,
    kinds: Seq<u16>,
    subs: Seq<TreeView>,
    cont: Option<u32>,
    n: nat,
)
    ensures
        recovery::candidates(st, f, rule, kinds, subs, cont, n).len() <= n,
    decreases n,
{
    if 0 < n <= subs.len() {
        lemma_arms(st, f, rule, kinds, subs, cont, (n - 1) as nat);
    }
}

proof fn lemma_stamped_leaf(
    o: Owed,
    st: StateTable,
    f: Firsts,
    rule: Seq<char>,
    l: LeafView,
    cur: Seq<u16>,
)
    requires
        levels::leaf_level(o, l, cur),
        table::leaf_narrow(l),
    ensures
        leaf_inserts(o, recovery::leaf_stamped(st, f, rule, l), cur),
    decreases l, 0nat,
{
    if let LeafView::Arm(b) = l {
        lemma_stamped_body(o, st, f, rule, *b, cur);
    }
}

proof fn lemma_stamped_tree(
    o: Owed,
    st: StateTable,
    f: Firsts,
    rule: Seq<char>,
    t: TreeView,
    cur: Seq<u16>,
)
    requires
        levels::tree_level(o, t, cur),
        table::tree_narrow(t),
    ensures
        tree_inserts(o, recovery::tree_stamped(st, f, rule, t), cur),
    decreases t, 0nat,
{
    match t {
        TreeView::Leaf(l) => lemma_stamped_leaf(o, st, f, rule, l, cur),
        TreeView::Switch(_, _, subs, default) => {
            lemma_stamped_leaf(o, st, f, rule, default, cur);
            stamping::lemma_trees(st, f, rule, subs);
            let all = recovery::trees_stamped(st, f, rule, subs);
            assert forall|i: int| 0 <= i < all.len() implies tree_inserts(
                o,
                #[trigger] all[i],
                cur,
            ) by {
                assert(levels::tree_level(o, subs[i], cur));
                assert(table::tree_narrow(subs[i]));
                lemma_stamped_tree(o, st, f, rule, subs[i], cur);
            }
        },
    }
}

/// The insertions that a level table is stamped with are level.
pub proof fn law_stamping_inserts_level(o: Owed, before: StateTable, after: StateTable, f: Firsts)
    requires
        levels::all_level(o, before.states@),
        after.states@ == recovery::stamped(before, f),
    ensures
        inserts_level(o, after),
{
    table::lemma_states_narrow(before.states);
    assert forall|i: int| 0 <= i < after.states@.len() implies body_inserts(
        o,
        (#[trigger] after.states@[i]).body,
        o[after.states@[i].id],
    ) by {
        let s = before.states@[i];
        assert(levels::body_level(o, s.body, o[s.id]));
        assert(table::body_narrow(s.body));
        lemma_stamped_body(o, before, f, s.rule, s.body, o[s.id]);
    }
}

/// Whatever the text, every rule that a parse of a lowered grammar leaves is
/// the last that it entered and did not yet leave, and when the parse is over
/// every rule has been left.
pub proof fn law_events_form_a_tree(
    r: StateTable,
    ag: AnalyzedGrammar,
    opts: LoweringOpts,
    dopts: DfaOpts,
    m: TableMatcher,
    emit: bool,
    src: Seq<char>,
    entry: int,
    n: nat,
)
    requires
        pipeline::lowerable(ag),
        pipeline::is_lowered(r, ag, opts, dopts),
        validate::all_valid(r.states@),
        0 <= entry < r.entry_states@.len(),
    ensures
        ({
            let p = parser::started(src, r.entry_states@[entry].1);
            let q = laws::after_turns(r, m, emit, p, n);
            let events = parser::events_within(r, m, emit, p, n);
            &&& nested(events, Seq::empty()) is Some
            &&& parser::turn(r, m, emit, q).1 is Done ==> nested(events, Seq::empty()) == Some(
                Seq::<u16>::empty(),
            )
        }),
{
    let (o, mid, f) = nesting::law_lowered_is_level(r, ag, opts, dopts);
    law_stamping_inserts_level(o, mid, r, f);
    law_level_events_form_a_tree(o, r, m, emit, src, entry, n);
}

} // verus!
