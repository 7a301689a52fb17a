//! A text may come in pieces: a parser that is fed gives the events of one that
//! has all of it.
use vstd::prelude::*;

use crate::lowering::recovery::InsertionView;
use crate::lowering::table::{
    self, BodyView, InstrView, LeafView, StateTable, TailView, TreeView,
};
use crate::runtime::events::EventView;
use crate::runtime::laws;
use crate::runtime::lexer::{self, DfaMatcher, ScanView, TableMatcher};
use crate::runtime::parser::{self, CursorView, ParserView, TurnView};

verus! {

/// The cursor when more of the text is there.
spec fn longer(c: CursorView, more: Seq<u8>) -> CursorView {
    CursorView { lex: ScanView { buf: c.lex.buf + more, ..c.lex }, ..c }
}

/// The step from `d` gives the event of the one from `c` and comes to the same,
/// with more of the text there; it reads nothing.
spec fn in_step(
    c: CursorView,
    more: Seq<u8>,
    a: (CursorView, Option<EventView<u16, u16, u16>>),
    b: (CursorView, Option<EventView<u16, u16, u16>>),
) -> bool {
    &&& b.0 == longer(a.0, more)
    &&& b.1 == a.1
    &&& a.0.lex.buf == c.lex.buf
    &&& a.0.lex.pos == c.lex.pos
}

proof fn lemma_look(c: CursorView, more: Seq<u8>)
    ensures
        forall|i: int| #[trigger]
            parser::look_kind(longer(c, more), i) == parser::look_kind(c, i),
        forall|l: Seq<Seq<u16>>| #[trigger]
            parser::in_first(longer(c, more), l) == parser::in_first(c, l),
{
    let d = longer(c, more);
    assert forall|l: Seq<Seq<u16>>| #[trigger] parser::in_first(d, l) == parser::in_first(c, l) by {
        assert forall|i: int| 0 <= i < l.len() implies parser::begins(d, l[i]) == parser::begins(
            c,
            l[i],
        ) by {
            if parser::begins(c, l[i]) {
                assert forall|j: int| 0 <= j < l[i].len() implies parser::look_kind(d, j) == Some(
                    #[trigger] l[i][j],
                ) by {
                    assert(parser::look_kind(c, j) == Some(l[i][j]));
                }
            }
            if parser::begins(d, l[i]) {
                assert forall|j: int| 0 <= j < l[i].len() implies parser::look_kind(c, j) == Some(
                    #[trigger] l[i][j],
                ) by {
                    assert(parser::look_kind(d, j) == Some(l[i][j]));
                }
            }
        }
        if parser::in_first(c, l) {
            let i = choose|i: int| 0 <= i < l.len() && #[trigger] parser::begins(c, l[i]);
            assert(parser::begins(d, l[i]));
        }
        if parser::in_first(d, l) {
            let i = choose|i: int| 0 <= i < l.len() && #[trigger] parser::begins(d, l[i]);
            assert(parser::begins(c, l[i]));
        }
    }
}

proof fn lemma_instrs(st: StateTable, c: CursorView, l: Seq<InstrView>, n: nat, more: Seq<u8>)
    ensures
        in_step(
            c,
            more,
            parser::instrs_step(st, c, l, n),
            parser::instrs_step(st, longer(c, more), l, n),
        ),
    decreases n,
{
    if 0 < n <= l.len() {
        lemma_instrs(st, c, l, (n - 1) as nat, more);
        let d = parser::instrs_step(st, c, l, (n - 1) as nat).0;
        lemma_look(d, more);
    }
}

proof fn lemma_body(st: StateTable, c: CursorView, b: BodyView, more: Seq<u8>)
    ensures
        in_step(
            c,
            more,
            parser::body_step(st, c, b),
            parser::body_step(st, longer(c, more), b),
        ),
    decreases b, 1nat,
{
    lemma_instrs(st, c, b.instrs, b.instrs.len(), more);
    let d = parser::instrs_step(st, c, b.instrs, b.instrs.len()).0;
    lemma_tail(st, d, b.tail, more);
}

proof fn lemma_tail(st: StateTable, c: CursorView, t: TailView, more: Seq<u8>)
    ensures
        in_step(
            c,
            more,
            parser::tail_step(st, c, t),
            parser::tail_step(st, longer(c, more), t),
        ),
    decreases t, 0nat,
{
    lemma_look(c, more);
    match t {
        TailView::Star(_, x, _, head) => lemma_body(st, parser::pushed(c, head), *x, more),
        TailView::Opt(_, x, cont) => lemma_body(st, parser::calling(c, cont), *x, more),
        TailView::Dispatch(tree, sync, cont, l) => lemma_tree(st, c, tree, sync, cont, l, more),
        _ => {},
    }
}

proof fn lemma_leaf(
    st: StateTable,
    c: CursorView,
    leaf: LeafView,
    sync: u32,
    cont: Option<u32>,
    l: Seq<InsertionView>,
    more: Seq<u8>,
)
    ensures
        in_step(
            c,
            more,
            parser::leaf_step(st, c, leaf, sync, cont, l),
            parser::leaf_step(st, longer(c, more), leaf, sync, cont, l),
        ),
    decreases leaf, 0nat,
{
    lemma_look(c, more);
    match leaf {
        LeafView::Arm(x) => lemma_body(st, parser::calling(c, cont), *x, more),
        _ => {},
    }
}

proof fn lemma_tree(
    st: StateTable,
    c: CursorView,
    tree: TreeView,
    sync: u32,
    cont: Option<u32>,
    l: Seq<InsertionView>,
    more: Seq<u8>,
)
    ensures
        in_step(
            c,
            more,
            parser::tree_step(st, c, tree, sync, cont, l),
            parser::tree_step(st, longer(c, more), tree, sync, cont, l),
        ),
    decreases tree, 0nat,
{
    lemma_look(c, more);
    match tree {
        TreeView::Leaf(leaf) => lemma_leaf(st, c, leaf, sync, cont, l, more),
        TreeView::Switch(depth, kinds, subs, default) => {
            let j = parser::arm_for(kinds, parser::look_kind(c, depth as int));
            if 0 <= j < subs.len() {
                lemma_tree(st, c, subs[j], sync, cont, l, more);
            } else {
                lemma_leaf(st, c, default, sync, cont, l, more);
            }
        },
    }
}

/// A turn that is taken before more of the text arrives is the turn that would
/// be taken after: the event is the same, and what is left differs in what is
/// there of the text only.
pub proof fn law_feeding_agrees(
    st: StateTable,
    m: TableMatcher,
    emit: bool,
    p: ParserView,
    more: Seq<u8>,
)
    requires
        lexer::modes_ok(m.modes@),
        p.cursor.lex.pos <= p.cursor.lex.buf.len(),
        !parser::hungry(st, m, p, false),
    ensures
        ({
            let (q, t) = parser::turn(st, m, emit, p);
            &&& parser::turn(st, m, emit, parser::fed(p, more)) == (parser::fed(q, more), t)
            &&& q.cursor.lex.buf == p.cursor.lex.buf
            &&& q.cursor.lex.pos <= q.cursor.lex.buf.len()
        }),
{
    let c = p.cursor;
    if p.garbage is None {
        if c.look.len() < st.k {
            let s = parser::stream_of(c, false);
            lexer::law_streaming_agrees(m, s, more);
            lexer::law_table_stays_within(m);
            assert(lexer::as_scan(s) == c.lex);
            assert(longer(c, more).lex == (ScanView {
                buf: s.got + more,
                pos: s.pos,
                modes: s.modes,
            }));
            assert(m.matched(c.lex.buf.skip(c.lex.pos as int), c.lex.modes.last()).0
                <= c.lex.buf.skip(c.lex.pos as int).len());
        } else {
            lemma_look(c, more);
            if c.recovery is None && c.state != parser::TERMINATED {
                if let Some(b) = table::body_of(st.states@, c.state) {
                    lemma_body(st, c, b, more);
                }
            }
        }
    }
}

/// What is done with a parser that is fed.
pub ghost enum Move {
    Feed(Seq<u8>),
    Turn,
}

/// The parser after the moves.
pub open spec fn moved(
    st: StateTable,
    m: TableMatcher,
    emit: bool,
    p: ParserView,
    moves: Seq<Move>,
) -> ParserView
    decreases moves.len(),
{
    if moves.len() == 0 {
        p
    } else {
        let q = moved(st, m, emit, p, moves.drop_last());
        match moves.last() {
            Move::Feed(x) => parser::fed(q, x),
            Move::Turn => parser::turn(st, m, emit, q).0,
        }
    }
}

/// The event of a turn, if it has one.
pub open spec fn event_of(t: TurnView) -> Seq<EventView<u16, u16, u16>> {
    match t {
        TurnView::Event(e) => seq![e],
        _ => Seq::empty(),
    }
}

/// The events that the moves give.
pub open spec fn moved_events(
    st: StateTable,
    m: TableMatcher,
    emit: bool,
    p: ParserView,
    moves: Seq<Move>,
) -> Seq<EventView<u16, u16, u16>>
    decreases moves.len(),
{
    if moves.len() == 0 {
        Seq::empty()
    } else {
        let q = moved(st, m, emit, p, moves.drop_last());
        let before = moved_events(st, m, emit, p, moves.drop_last());
        match moves.last() {
            Move::Feed(_) => before,
            Move::Turn => before + event_of(parser::turn(st, m, emit, q).1),
        }
    }
}

/// All that was fed.
pub open spec fn all_fed(moves: Seq<Move>) -> Seq<u8>
    decreases moves.len(),
{
    if moves.len() == 0 {
        Seq::empty()
    } else {
        match moves.last() {
            Move::Feed(x) => all_fed(moves.drop_last()) + x,
            Move::Turn => all_fed(moves.drop_last()),
        }
    }
}

/// How many turns were taken.
pub open spec fn turns(moves: Seq<Move>) -> nat
    decreases moves.len(),
{
    if moves.len() == 0 {
        0
    } else {
        match moves.last() {
            Move::Feed(_) => turns(moves.drop_last()),
            Move::Turn => turns(moves.drop_last()) + 1,
        }
    }
}

/// No turn was taken where more bytes were asked for.
pub open spec fn patient(
    st: StateTable,
    m: TableMatcher,
    emit: bool,
    p: ParserView,
    moves: Seq<Move>,
) -> bool {
    forall|i: int|
        0 <= i < moves.len() && (#[trigger] moves[i]) is Turn ==> !parser::hungry(
            st,
            m,
            moved(st, m, emit, p, moves.take(i)),
            false,
        )
}

proof fn lemma_one_more(st: StateTable, m: TableMatcher, emit: bool, p: ParserView, n: nat)
    ensures
        laws::after_turns(st, m, emit, p, n + 1) == parser::turn(
            st,
            m,
            emit,
            laws::after_turns(st, m, emit, p, n),
        ).0,
        parser::events_within(st, m, emit, p, n + 1) == parser::events_within(st, m, emit, p, n)
            + event_of(parser::turn(st, m, emit, laws::after_turns(st, m, emit, p, n)).1),
    decreases n,
{
    let (q, t) = parser::turn(st, m, emit, p);
    let none = Seq::<EventView<u16, u16, u16>>::empty();
    assert(((n + 1) - 1) as nat == n);
    if n == 0 {
        assert(laws::after_turns(st, m, emit, q, 0) == q);
        assert(parser::events_within(st, m, emit, q, 0) == none);
        assert(none + event_of(t) =~= event_of(t));
        if let TurnView::Event(e) = t {
            assert(seq![e] + none =~= seq![e]);
        }
    } else {
        lemma_one_more(st, m, emit, q, (n - 1) as nat);
        let last = event_of(
            parser::turn(st, m, emit, laws::after_turns(st, m, emit, p, n)).1,
        );
        let mid = parser::events_within(st, m, emit, q, (n - 1) as nat);
        match t {
            TurnView::Event(e) => {
                assert(seq![e] + (mid + last) =~= seq![e] + mid + last);
            },
            TurnView::Again => {},
            TurnView::Done => {
                laws::lemma_over_stays(st, m, emit, p, n);
                assert(none + none =~= none);
            },
        }
    }
}

/// One more turn keeps a parser that is fed in step with one that has all of
/// the text.
proof fn lemma_turn_move(
    st: StateTable,
    m: TableMatcher,
    emit: bool,
    q: ParserView,
    more: Seq<u8>,
    whole: ParserView,
    n: nat,
)
    requires
        lexer::modes_ok(m.modes@),
        q.cursor.lex.pos <= q.cursor.lex.buf.len(),
        !parser::hungry(st, m, q, false),
        parser::fed(q, more) == laws::after_turns(st, m, emit, whole, n),
    ensures
        parser::events_within(st, m, emit, whole, n + 1) == parser::events_within(
            st,
            m,
            emit,
            whole,
            n,
        ) + event_of(parser::turn(st, m, emit, q).1),
        parser::fed(parser::turn(st, m, emit, q).0, more) == laws::after_turns(
            st,
            m,
            emit,
            whole,
            n + 1,
        ),
        parser::turn(st, m, emit, q).0.cursor.lex.pos <= parser::turn(
            st,
            m,
            emit,
            q,
        ).0.cursor.lex.buf.len(),
{
    law_feeding_agrees(st, m, emit, q, more);
    lemma_one_more(st, m, emit, whole, n);
}

/// A pause to be fed does not matter.
proof fn lemma_fed_twice(q: ParserView, x: Seq<u8>, more: Seq<u8>)
    ensures
        parser::fed(parser::fed(q, x), more) == parser::fed(q, x + more),
{
    assert(q.cursor.lex.buf + x + more =~= q.cursor.lex.buf + (x + more));
}

proof fn lemma_patient_before(
    st: StateTable,
    m: TableMatcher,
    emit: bool,
    p: ParserView,
    moves: Seq<Move>,
)
    requires
        moves.len() > 0,
        patient(st, m, emit, p, moves),
    ensures
        patient(st, m, emit, p, moves.drop_last()),
        moves.last() is Turn ==> !parser::hungry(
            st,
            m,
            moved(st, m, emit, p, moves.drop_last()),
            false,
        ),
{
    let init = moves.drop_last();
    assert forall|i: int| 0 <= i < init.len() && (#[trigger] init[i]) is Turn implies !parser::hungry(
        st,
        m,
        moved(st, m, emit, p, init.take(i)),
        false,
    ) by {
        assert(moves[i] is Turn);
        assert(init.take(i) =~= moves.take(i));
    }
    assert(moves.take(moves.len() - 1) =~= init);
    assert(moves[moves.len() - 1] == moves.last());
}

/// A parser that is fed is where one that has all of the text is after as many
/// turns, and has given what that one has given.
pub open spec fn keeps_pace(
    st: StateTable,
    m: TableMatcher,
    emit: bool,
    q: ParserView,
    given: Seq<EventView<u16, u16, u16>>,
    more: Seq<u8>,
    whole: ParserView,
    n: nat,
) -> bool {
    &&& given == parser::events_within(st, m, emit, whole, n)
    &&& parser::fed(q, more) == laws::after_turns(st, m, emit, whole, n)
    &&& q.cursor.lex.pos <= q.cursor.lex.buf.len()
}

/// The move is what the parser does, and what it gives.
spec fn does_move(
    st: StateTable,
    m: TableMatcher,
    emit: bool,
    p: ParserView,
    moves: Seq<Move>,
    q: ParserView,
    given: Seq<EventView<u16, u16, u16>>,
) -> bool {
    q == moved(st, m, emit, p, moves) && given == moved_events(st, m, emit, p, moves)
}

proof fn lemma_pace(
    st: StateTable,
    m: TableMatcher,
    emit: bool,
    p: ParserView,
    moves: Seq<Move>,
    more: Seq<u8>,
) -> (r: (ParserView, Seq<EventView<u16, u16, u16>>))
    requires
        lexer::modes_ok(m.modes@),
        p.cursor.lex.pos <= p.cursor.lex.buf.len(),
        patient(st, m, emit, p, moves),
    ensures
        does_move(st, m, emit, p, moves, r.0, r.1),
        keeps_pace(
            st,
            m,
            emit,
            r.0,
            r.1,
            more,
            parser::fed(p, all_fed(moves) + more),
            turns(moves),
        ),
    decreases moves.len(),
{
    if moves.len() == 0 {
        assert(all_fed(moves) + more =~= more);
        (p, Seq::empty())
    } else {
        let init = moves.drop_last();
        lemma_patient_before(st, m, emit, p, moves);
        match moves.last() {
            Move::Feed(x) => {
                let (q, given) = lemma_pace(st, m, emit, p, init, x + more);
                assert(all_fed(init) + (x + more) =~= all_fed(moves) + more);
                lemma_fed_twice(q, x, more);
                (parser::fed(q, x), given)
            },
            Move::Turn => {
                let (q, given) = lemma_pace(st, m, emit, p, init, more);
                lemma_paced_turn(
                    st,
                    m,
                    emit,
                    q,
                    given,
                    more,
                    parser::fed(p, all_fed(init) + more),
                    turns(init),
                )
            },
        }
    }
}

proof fn lemma_paced_turn(
    st: StateTable,
    m: TableMatcher,
    emit: bool,
    q: ParserView,
    given: Seq<EventView<u16, u16, u16>>,
    more: Seq<u8>,
    whole: ParserView,
    n: nat,
) -> (r: (ParserView, Seq<EventView<u16, u16, u16>>))
    requires
        lexer::modes_ok(m.modes@),
        !parser::hungry(st, m, q, false),
        keeps_pace(st, m, emit, q, given, more, whole, n),
    ensures
        r.0 == parser::turn(st, m, emit, q).0,
        r.1 == given + event_of(parser::turn(st, m, emit, q).1),
        keeps_pace(st, m, emit, r.0, r.1, more, whole, n + 1),
{
    lemma_turn_move(st, m, emit, q, more, whole, n);
    let (d, t) = parser::turn(st, m, emit, q);
    (d, given + event_of(t))
}

/// A text may come in pieces of any size: as long as no turn is taken where more
/// bytes are asked for, a parser that is fed gives the events of a parser that
/// has all of the text, whatever comes behind what was fed, and it comes to where
/// that one comes.
pub proof fn law_pieces_do_not_matter(
    st: StateTable,
    m: TableMatcher,
    emit: bool,
    p: ParserView,
    moves: Seq<Move>,
    more: Seq<u8>,
)
    requires
        lexer::modes_ok(m.modes@),
        p.cursor.lex.pos <= p.cursor.lex.buf.len(),
        patient(st, m, emit, p, moves),
    ensures
        keeps_pace(
            st,
            m,
            emit,
            moved(st, m, emit, p, moves),
            moved_events(st, m, emit, p, moves),
            more,
            parser::fed(p, all_fed(moves) + more),
            turns(moves),
        ),
{
    lemma_pace(st, m, emit, p, moves, more);
}

} // verus!
