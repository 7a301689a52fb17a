//! What holds of every run of a parser.
use vstd::prelude::*;

use crate::lowering::lexer_dfa;
use crate::lowering::recovery::InsertionView;
use crate::lowering::table::{
    self, BodyView, InstrView, LeafView, ModeInfo, StateTable, StateView, TailView, TreeView,
};
use crate::lowering::validate;
use crate::runtime::events::{EventView, TokenView, TOKEN_EOF};
use crate::runtime::lexer::{self, TableMatcher};
use crate::runtime::parser::{self, CursorView, ParserView, TurnView};

verus! {

/// What an event of the run-time says.
pub type RawView = EventView<u16, u16, u16>;

/// The parser after `n` turns.
pub open spec fn after_turns(
    st: StateTable,
    m: TableMatcher,
    emit: bool,
    p: ParserView,
    n: nat,
) -> ParserView
    decreases n,
{
    if n == 0 {
        p
    } else {
        after_turns(st, m, emit, parser::turn(st, m, emit, p).0, (n - 1) as nat)
    }
}

/// A step takes the token that it gives, and no other.
pub open spec fn hands_over(c: CursorView, d: CursorView, e: Option<RawView>) -> bool {
    &&& d.lex.buf == c.lex.buf
    &&& d.lex.pos == c.lex.pos
    &&& c.lex.modes.len() > 0 ==> d.lex.modes.len() > 0
    &&& match e {
        Some(EventView::Token(t)) => {
            &&& c.look.len() > 0
            &&& t.kind == c.look[0].kind
            &&& t.span == c.look[0].span
            &&& t.text == c.look[0].text
            &&& d.look == c.look.skip(1)
        },
        Some(EventView::Garbage(_)) => false,
        _ => d.look == c.look,
    }
}

proof fn lemma_instr(st: StateTable, c: CursorView, i: InstrView)
    ensures
        ({
            let (d, e) = parser::instr_step(st, c, i);
            &&& hands_over(c, d, e)
            &&& validate::instr_events(i) == 0 ==> e is None
        }),
{
}

proof fn lemma_instrs(st: StateTable, c: CursorView, l: Seq<InstrView>, n: nat)
    requires
        n <= l.len(),
        validate::instrs_events(l.take(n as int)) <= 1,
    ensures
        ({
            let (d, e) = parser::instrs_step(st, c, l, n);
            &&& hands_over(c, d, e)
            &&& validate::instrs_events(l.take(n as int)) == 0 ==> e is None
        }),
    decreases n,
{
    if n > 0 {
        assert(l.take(n as int).drop_last() =~= l.take(n - 1));
        assert(l.take(n as int).last() == l[n - 1]);
        lemma_instrs(st, c, l, (n - 1) as nat);
        let (d, e) = parser::instrs_step(st, c, l, (n - 1) as nat);
        lemma_instr(st, d, l[n - 1]);
    }
}

pub proof fn lemma_body(st: StateTable, c: CursorView, b: BodyView)
    requires
        validate::body_events(b) <= 1,
    ensures
        ({
            let (d, e) = parser::body_step(st, c, b);
            &&& hands_over(c, d, e)
            &&& validate::body_events(b) == 0 ==> e is None
        }),
    decreases b, 1nat,
{
    let n = b.instrs.len();
    assert(b.instrs.take(n as int) =~= b.instrs);
    lemma_instrs(st, c, b.instrs, n);
    let (d, e) = parser::instrs_step(st, c, b.instrs, n);
    lemma_tail(st, d, b.tail);
}

proof fn lemma_tail(st: StateTable, c: CursorView, t: TailView)
    requires
        validate::tail_events(t) <= 1,
    ensures
        ({
            let (d, e) = parser::tail_step(st, c, t);
            &&& hands_over(c, d, e)
            &&& validate::tail_events(t) == 0 ==> e is None
        }),
    decreases t, 0nat,
{
    match t {
        TailView::Star(first, x, cont, head) => {
            if parser::in_first(c, parser::first_seqs(st, first)) {
                lemma_body(st, parser::pushed(c, head), *x);
            }
        },
        TailView::Opt(first, x, cont) => {
            if parser::in_first(c, parser::first_seqs(st, first)) {
                lemma_body(st, parser::calling(c, cont), *x);
            }
        },
        TailView::Dispatch(tree, sync, cont, l) => {
            lemma_tree(st, c, tree, sync, cont, l);
        },
        _ => {},
    }
}

proof fn lemma_leaf(
    st: StateTable,
    c: CursorView,
    leaf: LeafView,
    sync: u32,
    cont: Option<u32>,
    l: Seq<InsertionView>,
)
    requires
        validate::leaf_events(leaf) <= 1,
    ensures
        ({
            let (d, e) = parser::leaf_step(st, c, leaf, sync, cont, l);
            &&& hands_over(c, d, e)
            &&& validate::leaf_events(leaf) == 0 ==> e is None
        }),
    decreases leaf, 0nat,
{
    match leaf {
        LeafView::Arm(x) => {
            lemma_body(st, parser::calling(c, cont), *x);
        },
        _ => {},
    }
}

proof fn lemma_tree(
    st: StateTable,
    c: CursorView,
    tree: TreeView,
    sync: u32,
    cont: Option<u32>,
    l: Seq<InsertionView>,
)
    requires
        validate::tree_events(tree) <= 1,
    ensures
        ({
            let (d, e) = parser::tree_step(st, c, tree, sync, cont, l);
            &&& hands_over(c, d, e)
            &&& validate::tree_events(tree) == 0 ==> e is None
        }),
    decreases tree, 0nat,
{
    match tree {
        TreeView::Leaf(leaf) => {
            lemma_leaf(st, c, leaf, sync, cont, l);
        },
        TreeView::Switch(depth, kinds, subs, default) => {
            let j = parser::arm_for(kinds, parser::look_kind(c, depth as int));
            if 0 <= j < subs.len() {
                lemma_trees_events(subs, subs.len(), j);
                lemma_tree(st, c, subs[j], sync, cont, l);
            } else {
                lemma_leaf(st, c, default, sync, cont, l);
            }
        },
    }
}

pub proof fn lemma_trees_events(subs: Seq<TreeView>, n: nat, j: int)
    requires
        0 <= j < n <= subs.len(),
    ensures
        validate::tree_events(subs[j]) <= validate::trees_events(subs, n),
    decreases n,
{
    if j < n - 1 {
        lemma_trees_events(subs, (n - 1) as nat, j);
    }
}

/// A body of the table is that of a state with the id.
pub proof fn lemma_body_of(states: Seq<StateView>, id: u32)
    ensures
        match table::body_of(states, id) {
            Some(b) => exists|i: int|
                0 <= i < states.len() && (#[trigger] states[i]).id == id && states[i].body == b,
            None => true,
        },
    decreases states.len(),
{
    if states.len() > 0 {
        let n = states.len() - 1;
        if states[n].id != id {
            lemma_body_of(states.drop_last(), id);
            if table::body_of(states.drop_last(), id) is Some {
                let i = choose|i: int|
                    0 <= i < n && (#[trigger] states.drop_last()[i]).id == id
                        && states.drop_last()[i].body == table::body_of(
                        states.drop_last(),
                        id,
                    )->0;
                assert(states[i] == states.drop_last()[i]);
            }
        }
    }
}

/// No automaton takes a word for the end of the input.
pub open spec fn end_is_no_match(modes: Seq<ModeInfo>) -> bool {
    forall|i: int, w: Seq<u8>|
        0 <= i < modes.len() ==> #[trigger] lexer_dfa::accepted(modes[i].dfa@, w) != Some(
            TOKEN_EOF,
        )
}

/// The table can be run: bodies keep to the rules of the runtime, and the
/// automata find tokens only.
pub open spec fn runnable(st: StateTable, m: TableMatcher) -> bool {
    &&& st.k >= 1
    &&& validate::all_valid(st.states@)
    &&& lexer::modes_ok(m.modes@)
    &&& end_is_no_match(m.modes@)
}

/// A token of the lookahead: it has a kind, it is no skip token, and nothing
/// is left to read behind the end of the input.
pub open spec fn structural(st: StateTable, p: ParserView, t: TokenView<u16, u16>) -> bool {
    &&& t.kind is Some
    &&& !parser::skips(st, t.kind->0)
    &&& t.kind == Some(TOKEN_EOF) ==> p.cursor.lex.pos == p.cursor.lex.buf.len()
}

/// What every turn keeps: there is a lexer mode, the lookahead holds tokens of
/// the grammar, at most as many as it has slots, and a token that waits to be
/// given is of no kind.
pub open spec fn steady(st: StateTable, p: ParserView) -> bool {
    let c = p.cursor;
    &&& c.lex.pos <= c.lex.buf.len() < u32::MAX
    &&& c.lex.modes.len() > 0
    &&& c.look.len() <= st.k
    &&& forall|i: int| 0 <= i < c.look.len() ==> structural(st, p, #[trigger] c.look[i])
    &&& forall|i: int, j: int|
        0 <= i < j < c.look.len() && (#[trigger] c.look[i]).kind == Some(TOKEN_EOF) ==> (
        #[trigger] c.look[j]).kind == Some(TOKEN_EOF)
    &&& forall|i: int|
        0 <= i < c.look.len() && (#[trigger] c.look[i]).kind == Some(TOKEN_EOF)
            ==> c.look[i].span.start == c.look[i].span.end
    &&& p.garbage is Some ==> (p.garbage->0).kind is None
}

proof fn lemma_acted(modes: Seq<u32>, l: Seq<table::ModeActionInfo>, n: nat)
    requires
        modes.len() > 0,
    ensures
        parser::acted(modes, l, n).len() > 0,
    decreases n,
{
    if 0 < n <= l.len() {
        lemma_acted(modes, l, (n - 1) as nat);
    }
}

/// What the lexer gives next lies within the input.
pub proof fn lemma_lexed(m: TableMatcher, s: lexer::ScanView)
    requires
        lexer::modes_ok(m.modes@),
        end_is_no_match(m.modes@),
        s.pos <= s.buf.len() < u32::MAX,
    ensures
        ({
            let t = lexer::next_lexed(m, s);
            let d = lexer::after_lexed(m, s);
            &&& s.pos <= d.pos <= s.buf.len()
            &&& d.buf == s.buf
            &&& d.modes == s.modes
            &&& t.span.start.offset == s.pos
            &&& t.span.end.offset == d.pos
            &&& t.text == (if s.pos < s.buf.len() {
                lexer::text_of(s.buf.subrange(s.pos as int, d.pos as int))
            } else {
                Seq::empty()
            })
            &&& t.kind == Some(TOKEN_EOF) <==> s.pos == s.buf.len()
            &&& s.pos < s.buf.len() ==> s.pos < d.pos
            &&& s.pos == s.buf.len() ==> t.span.start == t.span.end
        }),
{
    lemma_matched(m, s);
}

proof fn lemma_matched(m: TableMatcher, s: lexer::ScanView)
    requires
        lexer::modes_ok(m.modes@),
        end_is_no_match(m.modes@),
        s.pos <= s.buf.len(),
    ensures
        ({
            let rest = s.buf.skip(s.pos as int);
            let (len, kind, _) = lexer::mode_match(m.modes@, rest, s.modes.last());
            len <= rest.len() && kind != Some(TOKEN_EOF)
        }),
{
    let rest = s.buf.skip(s.pos as int);
    let mode = s.modes.last();
    if mode < m.modes@.len() {
        let dfa = m.modes@[mode as int].dfa@;
        assert(lexer_dfa::well_formed(dfa));
        lexer::law_longest_match(dfa, rest);
        let (len, kind, _) = lexer::longest(dfa, rest);
        if len > 0 {
            assert(lexer_dfa::accepted(dfa, rest.take(len as int)) == kind);
        }
    }
}

/// Every turn keeps what [`steady`] says.
pub proof fn law_turn_is_steady(st: StateTable, m: TableMatcher, emit: bool, p: ParserView)
    requires
        runnable(st, m),
        steady(st, p),
    ensures
        steady(st, parser::turn(st, m, emit, p).0),
{
    let c = p.cursor;
    let (q, t) = parser::turn(st, m, emit, p);
    if p.garbage is None {
        if c.look.len() < st.k {
            lemma_lexed(m, c.lex);
            let tok = lexer::next_lexed(m, c.lex);
            let l = parser::kind_actions(st, tok.kind);
            lemma_acted(lexer::after_lexed(m, c.lex).modes, l, l.len());
            assert forall|i: int| 0 <= i < q.cursor.look.len() implies structural(
                st,
                q,
                #[trigger] q.cursor.look[i],
            ) by {
                if i < c.look.len() {
                    assert(structural(st, p, c.look[i]));
                }
            }
            assert forall|i: int, j: int|
                0 <= i < j < q.cursor.look.len() && (#[trigger] q.cursor.look[i]).kind == Some(
                    TOKEN_EOF,
                ) implies (#[trigger] q.cursor.look[j]).kind == Some(TOKEN_EOF) by {
                assert(structural(st, p, c.look[i]));
            }
        } else {
            if c.recovery is None && c.state != parser::TERMINATED {
                if let Some(b) = table::body_of(st.states@, c.state) {
                    lemma_body_of(st.states@, c.state);
                    let i = choose|i: int|
                        0 <= i < st.states@.len() && (#[trigger] st.states@[i]).id == c.state
                            && st.states@[i].body == b;
                    assert(validate::valid_body(st.states@[i].body));
                    lemma_body(st, c, b);
                }
            }
            assert(q.cursor.look == c.look || q.cursor.look == c.look.skip(1));
            assert forall|i: int| 0 <= i < q.cursor.look.len() implies structural(
                st,
                q,
                #[trigger] q.cursor.look[i],
            ) by {
                if q.cursor.look == c.look {
                    assert(structural(st, p, c.look[i]));
                } else {
                    assert(structural(st, p, c.look[i + 1]));
                }
            }
        }
    }
}

/// A parser at the beginning of a text is steady, and so it stays.
pub proof fn law_run_is_steady(
    st: StateTable,
    m: TableMatcher,
    emit: bool,
    src: Seq<char>,
    entry: u32,
    n: nat,
)
    requires
        runnable(st, m),
        vstd::utf8::encode_utf8(src).len() < u32::MAX,
    ensures
        steady(st, after_turns(st, m, emit, parser::started(src, entry), n)),
{
    lemma_stays_steady(st, m, emit, parser::started(src, entry), n);
}

/// A steady parser stays steady.
pub proof fn lemma_stays_steady(st: StateTable, m: TableMatcher, emit: bool, p: ParserView, n: nat)
    requires
        runnable(st, m),
        steady(st, p),
    ensures
        steady(st, after_turns(st, m, emit, p, n)),
    decreases n,
{
    if n > 0 {
        law_turn_is_steady(st, m, emit, p);
        lemma_stays_steady(st, m, emit, parser::turn(st, m, emit, p).0, (n - 1) as nat);
    }
}

/// The end of a parse is final: a turn behind it changes nothing.
pub proof fn law_done_is_final(st: StateTable, m: TableMatcher, emit: bool, p: ParserView)
    requires
        parser::turn(st, m, emit, p).1 is Done,
    ensures
        parser::turn(st, m, emit, p).0 == p,
{
}

/// A parser that is done stays as it is.
pub proof fn lemma_over_stays(st: StateTable, m: TableMatcher, emit: bool, p: ParserView, n: nat)
    requires
        parser::turn(st, m, emit, p).1 is Done,
    ensures
        after_turns(st, m, emit, p, n) == p,
    decreases n,
{
    if n > 0 {
        law_done_is_final(st, m, emit, p);
        lemma_over_stays(st, m, emit, p, (n - 1) as nat);
    }
}

/// A piece of the input that no pattern matches is given as an error and, on
/// the next turn, as garbage, both at its place.
pub proof fn law_unmatched_is_paired(st: StateTable, m: TableMatcher, emit: bool, p: ParserView)
    requires
        parser::turn(st, m, emit, p).0.garbage is Some,
    ensures
        ({
            let (q, t) = parser::turn(st, m, emit, p);
            let lost = q.garbage->0;
            &&& t matches TurnView::Event(EventView::Error(e)) && e.span == lost.span
            &&& lost == lexer::next_lexed(m, p.cursor.lex)
            &&& parser::turn(st, m, emit, q).1 == TurnView::Event(EventView::Garbage(lost))
        }),
{
}

/// The token that an event gives, if it gives one.
pub open spec fn given(e: RawView) -> Option<TokenView<u16, u16>> {
    match e {
        EventView::Token(t) => Some(t),
        EventView::Garbage(t) => Some(t),
        _ => None,
    }
}

/// One if the byte lies in the token, zero if not.
pub open spec fn covers(t: Option<TokenView<u16, u16>>, b: int) -> nat {
    match t {
        Some(t) => if t.span.start.offset <= b < t.span.end.offset {
            1
        } else {
            0
        },
        None => 0,
    }
}

/// In how many of the tokens that the events give the byte lies.
pub open spec fn times_given(events: Seq<RawView>, b: int) -> nat
    decreases events.len(),
{
    if events.len() == 0 {
        0
    } else {
        covers(given(events[0]), b) + times_given(events.skip(1), b)
    }
}

/// In how many tokens of the lookahead the byte lies.
spec fn times_ahead(look: Seq<TokenView<u16, u16>>, b: int) -> nat
    decreases look.len(),
{
    if look.len() == 0 {
        0
    } else {
        covers(Some(look[0]), b) + times_ahead(look.skip(1), b)
    }
}

proof fn lemma_ahead_push(look: Seq<TokenView<u16, u16>>, t: TokenView<u16, u16>, b: int)
    ensures
        times_ahead(look.push(t), b) == times_ahead(look, b) + covers(Some(t), b),
    decreases look.len(),
{
    if look.len() == 0 {
        assert(look.push(t).skip(1) =~= look);
    } else {
        assert(look.push(t).skip(1) =~= look.skip(1).push(t));
        lemma_ahead_push(look.skip(1), t, b);
    }
}

/// In how many tokens that were read and not yet given the byte lies.
spec fn times_held(p: ParserView, b: int) -> nat {
    times_ahead(p.cursor.look, b) + covers(p.garbage, b)
}

/// One if the byte was read, zero if not.
spec fn read(p: ParserView, b: int) -> nat {
    if 0 <= b < p.cursor.lex.pos {
        1
    } else {
        0
    }
}

spec fn turn_token(t: TurnView) -> Option<TokenView<u16, u16>> {
    match t {
        TurnView::Event(e) => given(e),
        _ => None,
    }
}

/// A body of the table keeps to the rules.
proof fn lemma_state_body(st: StateTable, c: CursorView)
    requires
        validate::all_valid(st.states@),
    ensures
        match table::body_of(st.states@, c.state) {
            Some(b) => hands_over(
                c,
                parser::body_step(st, c, b).0,
                parser::body_step(st, c, b).1,
            ),
            None => true,
        },
{
    if let Some(b) = table::body_of(st.states@, c.state) {
        lemma_body_of(st.states@, c.state);
        let i = choose|i: int|
            0 <= i < st.states@.len() && (#[trigger] st.states@[i]).id == c.state
                && st.states@[i].body == b;
        assert(validate::valid_body(st.states@[i].body));
        lemma_body(st, c, b);
    }
}

/// What a turn reads it gives or holds.
proof fn lemma_turn_covers(st: StateTable, m: TableMatcher, p: ParserView, b: int)
    requires
        runnable(st, m),
        steady(st, p),
        times_held(p, b) <= read(p, b),
        0 <= b,
    ensures
        ({
            let (q, t) = parser::turn(st, m, true, p);
            &&& read(q, b) - read(p, b) == covers(turn_token(t), b) + times_held(q, b)
                - times_held(p, b)
            &&& q.cursor.lex.buf == p.cursor.lex.buf
        }),
{
    let c = p.cursor;
    let (q, t) = parser::turn(st, m, true, p);
    if p.garbage is None {
        if c.look.len() < st.k {
            lemma_lexed(m, c.lex);
            let tok = lexer::next_lexed(m, c.lex);
            lemma_ahead_push(c.look, tok, b);
        } else {
            lemma_state_body(st, c);
            if c.recovery is None && c.state != parser::TERMINATED && table::body_of(
                st.states@,
                c.state,
            ) is Some {
                let body = table::body_of(st.states@, c.state)->0;
                let (d, e) = parser::body_step(st, c, body);
                assert(hands_over(c, d, e));
            }
        }
    }
}

proof fn lemma_run_covers(st: StateTable, m: TableMatcher, p: ParserView, n: nat, b: int)
    requires
        runnable(st, m),
        steady(st, p),
        times_held(p, b) <= read(p, b),
        0 <= b,
    ensures
        ({
            let q = after_turns(st, m, true, p, n);
            &&& read(q, b) - read(p, b) == times_given(
                parser::events_within(st, m, true, p, n),
                b,
            ) + times_held(q, b) - times_held(p, b)
            &&& q.cursor.lex.buf == p.cursor.lex.buf
        }),
    decreases n,
{
    if n > 0 {
        let (q, t) = parser::turn(st, m, true, p);
        law_turn_is_steady(st, m, true, p);
        lemma_turn_covers(st, m, p, b);
        let events = parser::events_within(st, m, true, p, n);
        let rest = parser::events_within(st, m, true, q, (n - 1) as nat);
        lemma_run_covers(st, m, q, (n - 1) as nat, b);
        match t {
            TurnView::Event(e) => {
                assert(events.skip(1) =~= rest);
            },
            TurnView::Again => {},
            TurnView::Done => {
                lemma_done_stays(st, m, p, n);
                lemma_done_stays(st, m, q, (n - 1) as nat);
            },
        }
    }
}

proof fn lemma_done_stays(st: StateTable, m: TableMatcher, p: ParserView, n: nat)
    requires
        parser::turn(st, m, true, p).1 is Done,
    ensures
        after_turns(st, m, true, p, n) == p,
        parser::events_within(st, m, true, p, n) == Seq::<RawView>::empty(),
    decreases n,
{
    if n > 0 {
        lemma_done_stays(st, m, p, (n - 1) as nat);
    }
}

/// The parse of the text is over within `n` turns.
pub open spec fn over_within(
    st: StateTable,
    m: TableMatcher,
    src: Seq<char>,
    entry: u32,
    n: nat,
) -> bool {
    parser::turn(
        st,
        m,
        true,
        after_turns(st, m, true, parser::started(src, entry), n),
    ).1 is Done
}

proof fn lemma_eof_ahead(st: StateTable, p: ParserView, i: int, b: int)
    requires
        steady(st, p),
        p.cursor.look.len() > 0,
        p.cursor.look[0].kind == Some(TOKEN_EOF),
        0 <= i <= p.cursor.look.len(),
    ensures
        times_ahead(p.cursor.look.skip(i), b) == 0,
    decreases p.cursor.look.len() - i,
{
    let look = p.cursor.look;
    if i < look.len() {
        assert(look.skip(i).skip(1) =~= look.skip(i + 1));
        assert(look[i].kind == Some(TOKEN_EOF)) by {
            if i > 0 {
                assert(look[0].kind == Some(TOKEN_EOF));
            }
        }
        lemma_eof_ahead(st, p, i + 1, b);
    }
}

/// With skip tokens among the events, a parse gives every byte of the text
/// once: each lies in just one token or piece of garbage.
pub proof fn law_every_byte_is_given_once(
    st: StateTable,
    m: TableMatcher,
    src: Seq<char>,
    entry: u32,
    n: nat,
    b: int,
)
    requires
        runnable(st, m),
        vstd::utf8::encode_utf8(src).len() < u32::MAX,
        over_within(st, m, src, entry, n),
        0 <= b < vstd::utf8::encode_utf8(src).len(),
    ensures
        times_given(
            parser::events_within(st, m, true, parser::started(src, entry), n),
            b,
        ) == 1,
{
    let p = parser::started(src, entry);
    let q = after_turns(st, m, true, p, n);
    lemma_run_covers(st, m, p, n, b);
    lemma_stays_steady(st, m, true, p, n);
    assert(q.cursor.look[0].kind == Some(TOKEN_EOF));
    assert(structural(st, q, q.cursor.look[0]));
    lemma_eof_ahead(st, q, 0, b);
    assert(q.cursor.look.skip(0) =~= q.cursor.look);
}

/// The token has the text of the bytes that it spans.
pub open spec fn spelled(buf: Seq<u8>, t: TokenView<u16, u16>) -> bool {
    let from = t.span.start.offset as int;
    let to = t.span.end.offset as int;
    &&& from <= to <= buf.len()
    &&& t.text == (if from < to {
        lexer::text_of(buf.subrange(from, to))
    } else {
        Seq::empty()
    })
}

/// Where the tokens end that the events give, if the first starts at `from`,
/// each other starts where the one before it ends, and all are spelled as in
/// the text.
pub open spec fn spelled_from(events: Seq<RawView>, buf: Seq<u8>, from: int) -> Option<int>
    decreases events.len(),
{
    if events.len() == 0 {
        Some(from)
    } else {
        match given(events[0]) {
            Some(t) => if t.span.start.offset == from && spelled(buf, t) {
                spelled_from(events.skip(1), buf, t.span.end.offset as int)
            } else {
                None
            },
            None => spelled_from(events.skip(1), buf, from),
        }
    }
}

/// Where the first token starts that was not yet given.
spec fn given_upto(p: ParserView) -> int {
    if p.cursor.look.len() > 0 {
        p.cursor.look[0].span.start.offset as int
    } else {
        match p.garbage {
            Some(t) => t.span.start.offset as int,
            None => p.cursor.lex.pos as int,
        }
    }
}

/// At most one token was read and not yet given.
spec fn holds_one(p: ParserView) -> bool {
    let c = p.cursor;
    &&& c.look.len() == 0 || p.garbage is None
    &&& c.look.len() <= 1
    &&& c.look.len() > 0 ==> c.look[0].span.end.offset == c.lex.pos && spelled(
        c.lex.buf,
        c.look[0],
    )
    &&& match p.garbage {
        Some(t) => t.span.end.offset == c.lex.pos && spelled(c.lex.buf, t),
        None => true,
    }
}

proof fn lemma_turn_spells(st: StateTable, m: TableMatcher, p: ParserView)
    requires
        runnable(st, m),
        st.k == 1,
        steady(st, p),
        holds_one(p),
    ensures
        ({
            let (q, t) = parser::turn(st, m, true, p);
            &&& holds_one(q)
            &&& q.cursor.lex.buf == p.cursor.lex.buf
            &&& match turn_token(t) {
                Some(t) => t.span.start.offset == given_upto(p) && t.span.end.offset
                    == given_upto(q) && spelled(p.cursor.lex.buf, t),
                None => given_upto(q) == given_upto(p),
            }
        }),
{
    let c = p.cursor;
    let (q, t) = parser::turn(st, m, true, p);
    if p.garbage is None {
        if c.look.len() < st.k {
            lemma_lexed(m, c.lex);
        } else {
            lemma_state_body(st, c);
            if c.recovery is None && c.state != parser::TERMINATED && table::body_of(
                st.states@,
                c.state,
            ) is Some {
                let body = table::body_of(st.states@, c.state)->0;
                let (d, e) = parser::body_step(st, c, body);
                assert(hands_over(c, d, e));
            }
        }
    }
}

proof fn lemma_run_spells(st: StateTable, m: TableMatcher, p: ParserView, n: nat)
    requires
        runnable(st, m),
        st.k == 1,
        steady(st, p),
        holds_one(p),
    ensures
        ({
            let q = after_turns(st, m, true, p, n);
            &&& spelled_from(
                parser::events_within(st, m, true, p, n),
                p.cursor.lex.buf,
                given_upto(p),
            ) == Some(given_upto(q))
            &&& q.cursor.lex.buf == p.cursor.lex.buf
        }),
    decreases n,
{
    if n > 0 {
        let (q, t) = parser::turn(st, m, true, p);
        law_turn_is_steady(st, m, true, p);
        lemma_turn_spells(st, m, p);
        let events = parser::events_within(st, m, true, p, n);
        let rest = parser::events_within(st, m, true, q, (n - 1) as nat);
        lemma_run_spells(st, m, q, (n - 1) as nat);
        match t {
            TurnView::Event(e) => {
                assert(events.skip(1) =~= rest);
            },
            TurnView::Again => {},
            TurnView::Done => {
                lemma_done_stays(st, m, p, n);
            },
        }
    }
}

/// With skip tokens among the events and one token of lookahead, the events
/// spell the text: their tokens and pieces of garbage follow one another
/// without a gap from its beginning to its end.
pub proof fn law_events_spell_the_text(
    st: StateTable,
    m: TableMatcher,
    src: Seq<char>,
    entry: u32,
    n: nat,
)
    requires
        runnable(st, m),
        st.k == 1,
        vstd::utf8::encode_utf8(src).len() < u32::MAX,
        over_within(st, m, src, entry, n),
    ensures
        spelled_from(
            parser::events_within(st, m, true, parser::started(src, entry), n),
            vstd::utf8::encode_utf8(src),
            0,
        ) == Some(vstd::utf8::encode_utf8(src).len() as int),
{
    let p = parser::started(src, entry);
    let q = after_turns(st, m, true, p, n);
    lemma_run_spells(st, m, p, n);
    lemma_stays_steady(st, m, true, p, n);
    lemma_holds_one(st, m, p, n);
    assert(q.cursor.look[0].kind == Some(TOKEN_EOF));
    assert(structural(st, q, q.cursor.look[0]));
}

proof fn lemma_holds_one(st: StateTable, m: TableMatcher, p: ParserView, n: nat)
    requires
        runnable(st, m),
        st.k == 1,
        steady(st, p),
        holds_one(p),
    ensures
        holds_one(after_turns(st, m, true, p, n)),
    decreases n,
{
    if n > 0 {
        law_turn_is_steady(st, m, true, p);
        lemma_turn_spells(st, m, p);
        lemma_holds_one(st, m, parser::turn(st, m, true, p).0, (n - 1) as nat);
    }
}

/// The event gives a skip token.
pub open spec fn gives_skip(st: StateTable, e: RawView) -> bool {
    match e {
        EventView::Token(t) => t.kind is Some && parser::skips(st, t.kind->0),
        _ => false,
    }
}

/// The events that give no skip token.
pub open spec fn without_skips(st: StateTable, events: Seq<RawView>) -> Seq<RawView>
    decreases events.len(),
{
    if events.len() == 0 {
        events
    } else if gives_skip(st, events[0]) {
        without_skips(st, events.skip(1))
    } else {
        seq![events[0]] + without_skips(st, events.skip(1))
    }
}

proof fn lemma_skip_turn(st: StateTable, m: TableMatcher, p: ParserView)
    requires
        runnable(st, m),
        steady(st, p),
    ensures
        ({
            let (q, t) = parser::turn(st, m, true, p);
            let (r, u) = parser::turn(st, m, false, p);
            &&& q == r
            &&& match t {
                TurnView::Event(e) => if gives_skip(st, e) {
                    u == TurnView::Again
                } else {
                    u == t
                },
                _ => u == t,
            }
        }),
{
    let c = p.cursor;
    if p.garbage is None {
        if c.look.len() < st.k {
        } else {
            assert(structural(st, p, c.look[0]));
            lemma_state_body(st, c);
            if c.recovery is None && c.state != parser::TERMINATED && table::body_of(
                st.states@,
                c.state,
            ) is Some {
                let body = table::body_of(st.states@, c.state)->0;
                let (d, e) = parser::body_step(st, c, body);
                assert(hands_over(c, d, e));
            }
        }
    }
}

/// Dropping the skip tokens changes nothing else: what is left are the events
/// that give no skip token.
pub proof fn law_dropping_skips(st: StateTable, m: TableMatcher, p: ParserView, n: nat)
    requires
        runnable(st, m),
        steady(st, p),
    ensures
        parser::events_within(st, m, false, p, n) == without_skips(
            st,
            parser::events_within(st, m, true, p, n),
        ),
        after_turns(st, m, false, p, n) == after_turns(st, m, true, p, n),
    decreases n,
{
    if n > 0 {
        lemma_skip_turn(st, m, p);
        law_turn_is_steady(st, m, true, p);
        let (q, t) = parser::turn(st, m, true, p);
        law_dropping_skips(st, m, q, (n - 1) as nat);
        if let TurnView::Event(e) = t {
            let rest = parser::events_within(st, m, true, q, (n - 1) as nat);
            assert(parser::events_within(st, m, true, p, n).skip(1) =~= rest);
        }
    }
}

/// Every event that the first `n` steps of a body give.
pub open spec fn instrs_trace(
    st: StateTable,
    c: CursorView,
    l: Seq<InstrView>,
    n: nat,
) -> Seq<RawView>
    decreases n,
{
    if n == 0 || n > l.len() {
        Seq::empty()
    } else {
        let d = parser::instrs_step(st, c, l, (n - 1) as nat).0;
        instrs_trace(st, c, l, (n - 1) as nat) + listed(parser::instr_step(st, d, l[n - 1]).1)
    }
}

/// The event as a list.
pub open spec fn listed(e: Option<RawView>) -> Seq<RawView> {
    match e {
        Some(x) => seq![x],
        None => Seq::empty(),
    }
}

/// Every event that a body gives.
pub open spec fn body_trace(st: StateTable, c: CursorView, b: BodyView) -> Seq<RawView>
    decreases b, 1nat,
{
    let d = parser::instrs_step(st, c, b.instrs, b.instrs.len()).0;
    instrs_trace(st, c, b.instrs, b.instrs.len()) + tail_trace(st, d, b.tail)
}

/// Every event that the end of a body gives.
pub open spec fn tail_trace(st: StateTable, c: CursorView, t: TailView) -> Seq<RawView>
    decreases t, 0nat,
{
    match t {
        TailView::Jump(_) => Seq::empty(),
        TailView::Ret => Seq::empty(),
        TailView::Star(first, x, _, head) => if parser::in_first(
            c,
            parser::first_seqs(st, first),
        ) {
            body_trace(st, parser::pushed(c, head), *x)
        } else {
            Seq::empty()
        },
        TailView::Opt(first, x, cont) => if parser::in_first(c, parser::first_seqs(st, first)) {
            body_trace(st, parser::calling(c, cont), *x)
        } else {
            Seq::empty()
        },
        TailView::Dispatch(tree, sync, cont, l) => tree_trace(st, c, tree, sync, cont, l),
    }
}

/// Every event that a leaf of a dispatch gives.
pub open spec fn leaf_trace(
    st: StateTable,
    c: CursorView,
    leaf: LeafView,
    sync: u32,
    cont: Option<u32>,
    l: Seq<InsertionView>,
) -> Seq<RawView>
    decreases leaf, 0nat,
{
    match leaf {
        LeafView::Arm(x) => body_trace(st, parser::calling(c, cont), *x),
        LeafView::Fallthrough => Seq::empty(),
        LeafView::Error => listed(parser::missed(st, c, sync, cont, l).1),
    }
}

/// Every event that a dispatch gives.
pub open spec fn tree_trace(
    st: StateTable,
    c: CursorView,
    tree: TreeView,
    sync: u32,
    cont: Option<u32>,
    l: Seq<InsertionView>,
) -> Seq<RawView>
    decreases tree, 0nat,
{
    match tree {
        TreeView::Leaf(leaf) => leaf_trace(st, c, leaf, sync, cont, l),
        TreeView::Switch(depth, kinds, subs, default) => {
            let j = parser::arm_for(kinds, parser::look_kind(c, depth as int));
            if 0 <= j < subs.len() {
                tree_trace(st, c, subs[j], sync, cont, l)
            } else {
                leaf_trace(st, c, default, sync, cont, l)
            }
        },
    }
}

pub proof fn lemma_instrs_trace(st: StateTable, c: CursorView, l: Seq<InstrView>, n: nat)
    requires
        n <= l.len(),
    ensures
        instrs_trace(st, c, l, n).len() <= validate::instrs_events(l.take(n as int)),
        instrs_trace(st, c, l, n).len() <= 1 ==> instrs_trace(st, c, l, n) == listed(
            parser::instrs_step(st, c, l, n).1,
        ),
    decreases n,
{
    if n > 0 {
        assert(l.take(n as int).drop_last() =~= l.take(n - 1));
        assert(l.take(n as int).last() == l[n - 1]);
        lemma_instrs_trace(st, c, l, (n - 1) as nat);
        let (d, e) = parser::instrs_step(st, c, l, (n - 1) as nat);
        lemma_instr(st, d, l[n - 1]);
        lemma_later(
            instrs_trace(st, c, l, (n - 1) as nat),
            e,
            parser::instr_step(st, d, l[n - 1]).1,
        );
    }
}

proof fn lemma_later(s: Seq<RawView>, e: Option<RawView>, g: Option<RawView>)
    requires
        s.len() <= 1 ==> s == listed(e),
    ensures
        (s + listed(g)).len() <= 1 ==> s + listed(g) == listed(parser::later(e, g)),
{
    assert(s + Seq::<RawView>::empty() =~= s);
    if s.len() == 0 {
        assert(s + listed(g) =~= listed(g));
    }
}

/// On each path through a body at most as many events arise as it was counted
/// to have; and if that is one, it is the event that the body is run for: no
/// event is lost.
pub proof fn law_no_event_is_lost(st: StateTable, c: CursorView, b: BodyView)
    ensures
        body_trace(st, c, b).len() <= validate::body_events(b),
        validate::body_events(b) <= 1 ==> body_trace(st, c, b) == listed(
            parser::body_step(st, c, b).1,
        ),
    decreases b, 1nat,
{
    let n = b.instrs.len();
    assert(b.instrs.take(n as int) =~= b.instrs);
    lemma_instrs_trace(st, c, b.instrs, n);
    let (d, e) = parser::instrs_step(st, c, b.instrs, n);
    lemma_tail_trace(st, d, b.tail);
    let g = parser::tail_step(st, d, b.tail).1;
    lemma_later(instrs_trace(st, c, b.instrs, n), e, g);
}

pub proof fn lemma_tail_trace(st: StateTable, c: CursorView, t: TailView)
    ensures
        tail_trace(st, c, t).len() <= validate::tail_events(t),
        validate::tail_events(t) <= 1 ==> tail_trace(st, c, t) == listed(
            parser::tail_step(st, c, t).1,
        ),
    decreases t, 0nat,
{
    match t {
        TailView::Star(_, x, _, head) => {
            law_no_event_is_lost(st, parser::pushed(c, head), *x);
        },
        TailView::Opt(_, x, cont) => {
            law_no_event_is_lost(st, parser::calling(c, cont), *x);
        },
        TailView::Dispatch(tree, sync, cont, l) => {
            lemma_tree_trace(st, c, tree, sync, cont, l);
        },
        _ => {},
    }
}

proof fn lemma_leaf_trace(
    st: StateTable,
    c: CursorView,
    leaf: LeafView,
    sync: u32,
    cont: Option<u32>,
    l: Seq<InsertionView>,
)
    ensures
        leaf_trace(st, c, leaf, sync, cont, l).len() <= validate::leaf_events(leaf),
        validate::leaf_events(leaf) <= 1 ==> leaf_trace(st, c, leaf, sync, cont, l) == listed(
            parser::leaf_step(st, c, leaf, sync, cont, l).1,
        ),
    decreases leaf, 0nat,
{
    if let LeafView::Arm(x) = leaf {
        law_no_event_is_lost(st, parser::calling(c, cont), *x);
    }
}

proof fn lemma_tree_trace(
    st: StateTable,
    c: CursorView,
    tree: TreeView,
    sync: u32,
    cont: Option<u32>,
    l: Seq<InsertionView>,
)
    ensures
        tree_trace(st, c, tree, sync, cont, l).len() <= validate::tree_events(tree),
        validate::tree_events(tree) <= 1 ==> tree_trace(st, c, tree, sync, cont, l) == listed(
            parser::tree_step(st, c, tree, sync, cont, l).1,
        ),
    decreases tree, 0nat,
{
    match tree {
        TreeView::Leaf(leaf) => {
            lemma_leaf_trace(st, c, leaf, sync, cont, l);
        },
        TreeView::Switch(depth, kinds, subs, default) => {
            let j = parser::arm_for(kinds, parser::look_kind(c, depth as int));
            if 0 <= j < subs.len() {
                lemma_trees_events(subs, subs.len(), j);
                lemma_tree_trace(st, c, subs[j], sync, cont, l);
            } else {
                lemma_leaf_trace(st, c, default, sync, cont, l);
            }
        },
    }
}

} // verus!
