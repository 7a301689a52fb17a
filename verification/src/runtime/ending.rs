//! What ends: recovery, and a parse that has left its entry rule.
use vstd::prelude::*;

use crate::lowering::table::StateTable;
use crate::runtime::events::{TokenView, TOKEN_EOF};
use crate::runtime::laws;
use crate::runtime::lexer::TableMatcher;
use crate::runtime::parser::{self, ParserView, TERMINATED};

verus! {

/// The tokens that are not the end of the input.
pub open spec fn inner(look: Seq<TokenView<u16, u16>>) -> nat
    decreases look.len(),
{
    if look.len() == 0 {
        0
    } else {
        inner(look.drop_last()) + (if look.last().kind == Some(TOKEN_EOF) {
            0nat
        } else {
            1nat
        })
    }
}

/// What is left to do before a state of the table has to run: bytes to read,
/// tokens to give, slots to fill, and a piece of the input to hand over.
pub open spec fn upkeep(st: StateTable, p: ParserView) -> int {
    let c = p.cursor;
    4 * (c.lex.buf.len() - c.lex.pos) + 2 * inner(c.look) + (st.k - c.look.len()) + (
    if p.garbage is Some {
        1int
    } else {
        0int
    })
}

proof fn lemma_inner_rest(look: Seq<TokenView<u16, u16>>)
    requires
        look.len() > 0,
    ensures
        inner(look) == inner(look.skip(1)) + (if look[0].kind == Some(TOKEN_EOF) {
            0nat
        } else {
            1nat
        }),
    decreases look.len(),
{
    if look.len() > 1 {
        lemma_inner_rest(look.drop_last());
        assert(look.drop_last().skip(1) =~= look.skip(1).drop_last());
        assert(look.skip(1).last() == look.last());
    } else {
        assert(look.drop_last() =~= Seq::empty());
        assert(look.skip(1) =~= Seq::empty());
    }
}

/// Handing over a piece that no pattern matches, and filling a slot of the
/// lookahead, leave less to do and the rest as it is.
proof fn lemma_upkeep(st: StateTable, m: TableMatcher, emit: bool, p: ParserView)
    requires
        laws::runnable(st, m),
        laws::steady(st, p),
        p.garbage is Some || p.cursor.look.len() < st.k,
    ensures
        ({
            let (q, t) = parser::turn(st, m, emit, p);
            &&& laws::steady(st, q)
            &&& upkeep(st, q) < upkeep(st, p)
            &&& q.cursor.state == p.cursor.state
            &&& q.cursor.ret == p.cursor.ret
            &&& q.cursor.recovery == p.cursor.recovery
        }),
{
    laws::law_turn_is_steady(st, m, emit, p);
    let c = p.cursor;
    if p.garbage is None {
        laws::lemma_lexed(m, c.lex);
        let q = parser::turn(st, m, emit, p).0;
        if q.cursor.look.len() > c.look.len() {
            assert(q.cursor.look.drop_last() =~= c.look);
        }
    }
}

/// After `n` turns the parser is out of recovery, in the state that it was in.
pub open spec fn recovered(
    st: StateTable,
    m: TableMatcher,
    emit: bool,
    p: ParserView,
    n: nat,
) -> bool {
    let q = laws::after_turns(st, m, emit, p, n).cursor;
    q.recovery is None && q.state == p.cursor.state && q.ret == p.cursor.ret
}

/// After `n` turns the parse is over.
pub open spec fn over(
    st: StateTable,
    m: TableMatcher,
    emit: bool,
    p: ParserView,
    n: nat,
) -> bool {
    parser::turn(st, m, emit, laws::after_turns(st, m, emit, p, n)).1 is Done
}

proof fn lemma_recovers(st: StateTable, m: TableMatcher, emit: bool, p: ParserView) -> (n: nat)
    requires
        laws::runnable(st, m),
        laws::steady(st, p),
    ensures
        recovered(st, m, emit, p, n),
    decreases upkeep(st, p),
{
    let c = p.cursor;
    if c.recovery is None {
        0
    } else {
        let q = parser::turn(st, m, emit, p).0;
        laws::law_turn_is_steady(st, m, emit, p);
        if p.garbage is Some || c.look.len() < st.k {
            lemma_upkeep(st, m, emit, p);
            lemma_recovers(st, m, emit, q) + 1
        } else if q.cursor.recovery is None {
            assert(laws::after_turns(st, m, emit, q, 0) == q);
            1
        } else {
            lemma_inner_rest(c.look);
            lemma_recovers(st, m, emit, q) + 1
        }
    }
}

/// Recovery ends: after some turns the parser goes on in the state that it was
/// in.
pub proof fn law_recovery_ends(st: StateTable, m: TableMatcher, emit: bool, p: ParserView)
    requires
        laws::runnable(st, m),
        laws::steady(st, p),
    ensures
        exists|n: nat| #[trigger] recovered(st, m, emit, p, n),
{
    let n = lemma_recovers(st, m, emit, p);
}

/// A parser behind its entry rule that is not in recovery, or drops what is
/// left of the text, comes to the end of the text.
proof fn lemma_drains(st: StateTable, m: TableMatcher, emit: bool, p: ParserView) -> (n: nat)
    requires
        laws::runnable(st, m),
        laws::steady(st, p),
        p.cursor.state == TERMINATED,
        p.cursor.recovery is Some ==> p.cursor.recovery->0 == (Seq::<u16>::empty(), None::<u16>),
    ensures
        over(st, m, emit, p, n),
    decreases
            upkeep(st, p),
            if p.cursor.recovery is Some {
                0nat
            } else {
                1nat
            },
{
    let c = p.cursor;
    let q = parser::turn(st, m, emit, p).0;
    laws::law_turn_is_steady(st, m, emit, p);
    if p.garbage is Some || c.look.len() < st.k {
        lemma_upkeep(st, m, emit, p);
        lemma_drains(st, m, emit, q) + 1
    } else if parser::look_kind(c, 0) == Some(TOKEN_EOF) {
        if c.recovery is None {
            0
        } else {
            assert(laws::after_turns(st, m, emit, q, 0) == q);
            1
        }
    } else {
        if c.recovery is Some {
            lemma_inner_rest(c.look);
        }
        lemma_drains(st, m, emit, q) + 1
    }
}

proof fn lemma_turns_add(
    st: StateTable,
    m: TableMatcher,
    emit: bool,
    p: ParserView,
    a: nat,
    b: nat,
)
    ensures
        laws::after_turns(st, m, emit, p, a + b) == laws::after_turns(
            st,
            m,
            emit,
            laws::after_turns(st, m, emit, p, a),
            b,
        ),
    decreases a,
{
    if a > 0 {
        lemma_turns_add(st, m, emit, parser::turn(st, m, emit, p).0, (a - 1) as nat, b);
        assert((a + b - 1) as nat == (a - 1) as nat + b);
    }
}

/// A parse that has left its entry rule ends: what is left of the text is
/// given, and then the parser is done.
pub proof fn law_left_parse_ends(st: StateTable, m: TableMatcher, emit: bool, p: ParserView)
    requires
        laws::runnable(st, m),
        laws::steady(st, p),
        p.cursor.state == TERMINATED,
    ensures
        exists|n: nat| #[trigger] over(st, m, emit, p, n),
{
    let a = lemma_recovers(st, m, emit, p);
    laws::lemma_stays_steady(st, m, emit, p, a);
    let q = laws::after_turns(st, m, emit, p, a);
    let b = lemma_drains(st, m, emit, q);
    lemma_turns_add(st, m, emit, p, a, b);
    assert(over(st, m, emit, p, a + b));
}

} // verus!
