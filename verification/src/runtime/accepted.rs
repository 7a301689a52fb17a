//! Where the lookahead decides, every sentence is parsed without an error.
use vstd::prelude::*;

use crate::analysis::first_follow;
use crate::analysis::first_set::{self, NameSeq};
use crate::analysis::follow;
use crate::analysis::follow_k;
use crate::analysis::lookahead;
use crate::analysis::validate as check;
use crate::analysis::{self, AnalysisOutcome, AnalyzedGrammar, EOF_MARKER};
use crate::grammar::ir::{ExprView, Grammar};
use crate::grammar::parser as grammar_file;
use crate::lowering::choices;
use crate::lowering::closed;
use crate::lowering::decided;
use crate::lowering::derivation::{self, Calls, Mark, Terms};
use crate::lowering::dispatch::{self, Entry};
use crate::lowering::layout::{self, Plan};
use crate::lowering::lexer_dfa::DfaOpts;
use crate::lowering::nesting;
use crate::lowering::optimize::{self, LoweringOpts};
use crate::lowering::pipeline;
use crate::lowering::prefixes;
use crate::lowering::program::{self, Built, OpView, Program, Step, TargetView, Within};
use crate::lowering::recovery::{self, InsertionView};
use crate::lowering::remaining;
use crate::lowering::runs;
use crate::lowering::state_first::{self, Firsts};
use crate::lowering::table::{self, InstrView, LeafView, StateTable, TailView};
use crate::names;
use crate::runtime::events::TOKEN_EOF;
use crate::runtime::laws;
use crate::runtime::lexer::{self, ScanView, TableMatcher};
use crate::runtime::optimized;
use crate::runtime::parser::{self, CursorView, ParserView, TurnView, TERMINATED};
use crate::runtime::sentences;
use crate::runtime::stamping;
use crate::runtime::tree;
use crate::sorting;
use crate::text;

verus! {

/// What is left of the text behind the next token.
pub open spec fn behind_next(st: StateTable, m: TableMatcher, lex: ScanView) -> ScanView {
    let rest = lexer::after_lexed(m, lex);
    let l = parser::kind_actions(st, lexer::next_lexed(m, lex).kind);
    ScanView { modes: parser::acted(rest.modes, l, l.len()), ..rest }
}

/// The text is the tokens of the kinds, with the end of input for the last of
/// them; tokens that are skipped may stand between them. At most `n` tokens
/// are looked at.
pub open spec fn reads(
    st: StateTable,
    m: TableMatcher,
    lex: ScanView,
    ts: Seq<u16>,
    n: nat,
) -> bool
    decreases n,
{
    &&& n > 0
    &&& match lexer::next_lexed(m, lex).kind {
        None => false,
        Some(k) => {
            let rest = behind_next(st, m, lex);
            if parser::skips(st, k) {
                reads(st, m, rest, ts, (n - 1) as nat)
            } else if k == TOKEN_EOF {
                lex.pos >= lex.buf.len() && ts == seq![k]
            } else {
                &&& ts.len() > 0
                &&& ts[0] == k
                &&& reads(st, m, rest, ts.skip(1), (n - 1) as nat)
            }
        },
    }
}

/// The rest of the text is the tokens.
spec fn rest_reads(st: StateTable, m: TableMatcher, lex: ScanView, ts: Seq<u16>) -> bool {
    exists|n: nat| #[trigger] reads(st, m, lex, ts, n)
}

/// The kind that is seen at the place; behind the last is the end of input.
spec fn seen(ts: Seq<u16>, i: int) -> u16 {
    if i < ts.len() {
        ts[i]
    } else {
        TOKEN_EOF
    }
}

/// The end of input is the last of the kinds, and only the last.
spec fn ended(ts: Seq<u16>) -> bool {
    &&& ts.len() > 0
    &&& forall|i: int| 0 <= i < ts.len() ==> (#[trigger] ts[i] == TOKEN_EOF <==> i == ts.len() - 1)
}

/// The tokens are ahead of the parser.
spec fn awaits(st: StateTable, m: TableMatcher, c: CursorView, ts: Seq<u16>) -> bool {
    let n = c.look.len() as int;
    &&& c.recovery is None
    &&& ended(ts)
    &&& n <= st.k
    &&& forall|i: int| 0 <= i < n ==> (#[trigger] c.look[i]).kind == Some(seen(ts, i))
    &&& if n < ts.len() {
        rest_reads(st, m, c.lex, ts.skip(n))
    } else {
        c.lex.pos >= c.lex.buf.len()
    }
}

/// The kinds of the tokens that are looked at.
spec fn window(ts: Seq<u16>, k: nat) -> Seq<u16> {
    Seq::new(k, |i: int| seen(ts, i))
}

/// The parser at the cursor.
spec fn at(c: CursorView) -> ParserView {
    ParserView { cursor: c, garbage: None }
}

/// A turn that raises no error and is not the last.
spec fn smooth(t: TurnView) -> bool {
    match t {
        TurnView::Event(e) => !(e is Error),
        TurnView::Again => true,
        TurnView::Done => false,
    }
}

/// After `j` turns without an error the parser is at `d`.
spec fn goes(st: StateTable, m: TableMatcher, c: CursorView, d: CursorView, j: nat) -> bool
    decreases j,
{
    if j == 0 {
        c == d
    } else {
        let (q, t) = parser::turn(st, m, false, at(c));
        &&& q.garbage is None
        &&& smooth(t)
        &&& goes(st, m, q.cursor, d, (j - 1) as nat)
    }
}

/// The parser gets to `d` without an error.
spec fn reaches(st: StateTable, m: TableMatcher, c: CursorView, d: CursorView) -> bool {
    exists|j: nat| #[trigger] goes(st, m, c, d, j)
}

proof fn lemma_goes(
    st: StateTable,
    m: TableMatcher,
    c: CursorView,
    d: CursorView,
    e: CursorView,
    i: nat,
    j: nat,
)
    requires
        goes(st, m, c, d, i),
        goes(st, m, d, e, j),
    ensures
        goes(st, m, c, e, i + j),
    decreases i,
{
    if i > 0 {
        let q = parser::turn(st, m, false, at(c)).0;
        lemma_goes(st, m, q.cursor, d, e, (i - 1) as nat, j);
    }
}

proof fn lemma_reaches(
    st: StateTable,
    m: TableMatcher,
    c: CursorView,
    d: CursorView,
    e: CursorView,
)
    requires
        reaches(st, m, c, d),
        reaches(st, m, d, e),
    ensures
        reaches(st, m, c, e),
{
    let i = choose|i: nat| #[trigger] goes(st, m, c, d, i);
    let j = choose|j: nat| #[trigger] goes(st, m, d, e, j);
    lemma_goes(st, m, c, d, e, i, j);
}

proof fn lemma_stays(st: StateTable, m: TableMatcher, c: CursorView)
    ensures
        reaches(st, m, c, c),
{
    assert(goes(st, m, c, c, 0));
}

proof fn lemma_turn(st: StateTable, m: TableMatcher, c: CursorView)
    requires
        parser::turn(st, m, false, at(c)).0.garbage is None,
        smooth(parser::turn(st, m, false, at(c)).1),
    ensures
        reaches(st, m, c, parser::turn(st, m, false, at(c)).0.cursor),
{
    let d = parser::turn(st, m, false, at(c)).0.cursor;
    assert(goes(st, m, d, d, 0));
    assert(goes(st, m, c, d, 1));
}

/// The parser looks at one token more.
proof fn lemma_more(
    st: StateTable,
    m: TableMatcher,
    c: CursorView,
    ts: Seq<u16>,
    n: nat,
) -> (d: CursorView)
    requires
        awaits(st, m, c, ts),
        c.look.len() < st.k,
        c.look.len() < ts.len() ==> reads(st, m, c.lex, ts.skip(c.look.len() as int), n),
    ensures
        reaches(st, m, c, d),
        d.look.len() == c.look.len() + 1,
        d.state == c.state,
        d.ret == c.ret,
        awaits(st, m, d, ts),
    decreases n,
{
    let (q, t) = parser::turn(st, m, false, at(c));
    let from = c.look.len() as int;
    assert(parser::turn(st, m, false, at(c)) == parser::fill_turn(st, m, false, c));
    if from < ts.len() {
        let left = ts.skip(from);
        assert(left[0] == ts[from]);
        lemma_turn(st, m, c);
        let k = lexer::next_lexed(m, c.lex).kind->0;
        if parser::skips(st, k) {
            assert(reads(st, m, q.cursor.lex, left, (n - 1) as nat));
            assert(rest_reads(st, m, q.cursor.lex, left));
            let d = lemma_more(st, m, q.cursor, ts, (n - 1) as nat);
            lemma_reaches(st, m, c, q.cursor, d);
            d
        } else {
            if k == TOKEN_EOF {
                assert(left.len() == 1);
            } else {
                assert(left.skip(1) =~= ts.skip(from + 1));
                assert(reads(st, m, q.cursor.lex, ts.skip(from + 1), (n - 1) as nat));
                assert(rest_reads(st, m, q.cursor.lex, ts.skip(from + 1)));
                assert(left.len() > 1) by {
                    lemma_read(st, m, q.cursor.lex, left.skip(1), (n - 1) as nat);
                }
            }
            q.cursor
        }
    } else {
        lemma_turn(st, m, c);
        q.cursor
    }
}

/// What a text consists of ends with the end of input.
proof fn lemma_read(st: StateTable, m: TableMatcher, lex: ScanView, ts: Seq<u16>, n: nat)
    requires
        reads(st, m, lex, ts, n),
    ensures
        ended(ts),
    decreases n,
{
    let k = lexer::next_lexed(m, lex).kind->0;
    let rest = behind_next(st, m, lex);
    if parser::skips(st, k) {
        lemma_read(st, m, rest, ts, (n - 1) as nat);
    } else if k != TOKEN_EOF {
        lemma_read(st, m, rest, ts.skip(1), (n - 1) as nat);
        assert forall|i: int| 0 <= i < ts.len() implies (#[trigger] ts[i] == TOKEN_EOF <==> i
            == ts.len() - 1) by {
            if i > 0 {
                assert(ts.skip(1)[i - 1] == ts[i]);
            }
        }
    }
}

/// The parser looks at as many tokens as it can.
proof fn lemma_ready(st: StateTable, m: TableMatcher, c: CursorView, ts: Seq<u16>) -> (d: CursorView)
    requires
        awaits(st, m, c, ts),
    ensures
        reaches(st, m, c, d),
        d.look.len() == st.k,
        d.state == c.state,
        d.ret == c.ret,
        awaits(st, m, d, ts),
    decreases st.k - c.look.len(),
{
    if c.look.len() < st.k {
        let n = choose|n: nat| #[trigger] reads(st, m, c.lex, ts.skip(c.look.len() as int), n);
        let e = lemma_more(st, m, c, ts, n);
        let d = lemma_ready(st, m, e, ts);
        lemma_reaches(st, m, c, e, d);
        d
    } else {
        lemma_stays(st, m, c);
        c
    }
}

/// What the parser looks at begins with what the window begins with.
proof fn lemma_begins(st: StateTable, m: TableMatcher, c: CursorView, ts: Seq<u16>, x: Seq<u16>)
    requires
        awaits(st, m, c, ts),
        c.look.len() == st.k,
    ensures
        parser::begins(c, x) == dispatch::begins(window(ts, st.k as nat), x),
{
    let l = window(ts, st.k as nat);
    if parser::begins(c, x) {
        if x.len() > l.len() {
            assert(parser::look_kind(c, st.k as int) == Some(x[st.k as int]));
        }
        assert forall|i: int| 0 <= i < x.len() implies l[i] == x[i] by {
            assert(parser::look_kind(c, i) == Some(x[i]));
            assert(c.look[i].kind == Some(seen(ts, i)));
        }
    }
    if dispatch::begins(l, x) {
        assert forall|i: int| 0 <= i < x.len() implies parser::look_kind(c, i) == Some(
            #[trigger] x[i],
        ) by {
            assert(c.look[i].kind == Some(seen(ts, i)));
            assert(l[i] == x[i]);
        }
    }
}

proof fn lemma_arm_for(kinds: Seq<u16>, a: u16)
    ensures
        0 <= parser::arm_for(kinds, Some(a)) <= kinds.len(),
        parser::arm_for(kinds, Some(a)) < kinds.len() ==> kinds[parser::arm_for(kinds, Some(a))]
            == a,
        parser::arm_for(kinds, Some(a)) == kinds.len() ==> !kinds.contains(a),
    decreases kinds.len(),
{
    if kinds.len() > 0 {
        let rest = kinds.skip(1);
        lemma_arm_for(rest, a);
        if kinds[0] != a && kinds.contains(a) {
            let i = choose|i: int| 0 <= i < kinds.len() && kinds[i] == a;
            assert(rest[i - 1] == a);
        }
    }
}

/// A dispatch does what the window decides.
proof fn lemma_decided(
    st: StateTable,
    c: CursorView,
    entries: Seq<Entry>,
    depth: usize,
    outer: LeafView,
    bound: nat,
    look: Seq<u16>,
    sync: u32,
    cont: Option<u32>,
    l: Seq<InsertionView>,
)
    requires
        bound <= 256,
        bound <= look.len(),
        forall|i: int|
            0 <= i < look.len() ==> parser::look_kind(c, i) == Some(#[trigger] look[i]),
    ensures
        parser::tree_step(
            st,
            c,
            dispatch::trie(entries, depth, outer, bound),
            sync,
            cont,
            l,
        ) == parser::leaf_step(
            st,
            c,
            dispatch::decided(dispatch::trie(entries, depth, outer, bound), look),
            sync,
            cont,
            l,
        ),
    decreases bound - depth,
{
    let tree = dispatch::trie(entries, depth, outer, bound);
    let deeper = dispatch::going_on(entries, depth as int);
    let default = dispatch::default_at(entries, depth as int, outer);
    if !(deeper.len() == 0 || depth >= bound || depth >= usize::MAX) {
        let kinds = sorting::kind_set(dispatch::kinds_at(deeper, depth as int));
        sorting::lemma_kind_set(dispatch::kinds_at(deeper, depth as int));
        let subs = tree->Switch_2;
        let a = look[depth as int];
        assert(depth as u8 == depth);
        assert(parser::look_kind(c, depth as int) == Some(a));
        let j = parser::arm_for(kinds, Some(a));
        lemma_arm_for(kinds, a);
        if j < kinds.len() {
            assert(kinds.contains(kinds[j]));
            let i = kinds.index_of(a);
            assert(i == j) by {
                if i < j {
                    assert(kinds[i] < kinds[j]);
                } else if j < i {
                    assert(kinds[j] < kinds[i]);
                }
            }
            let sub = subs[j];
            assert(sub == dispatch::trie(
                dispatch::with_kind(deeper, depth as int, kinds[j]),
                (depth + 1) as usize,
                default,
                bound,
            ));
            lemma_decided(
                st,
                c,
                dispatch::with_kind(deeper, depth as int, kinds[j]),
                (depth + 1) as usize,
                default,
                bound,
                look,
                sync,
                cont,
                l,
            );
            assert(parser::tree_step(st, c, tree, sync, cont, l) == parser::tree_step(
                st,
                c,
                sub,
                sync,
                cont,
                l,
            ));
            assert(dispatch::decided(tree, look) == dispatch::decided(sub, look));
        } else {
            assert(dispatch::decided(tree, look) == default);
        }
    }
}

/// No entry is longer than the bound.
proof fn lemma_longest(entries: Seq<Entry>, k: nat)
    requires
        forall|i: int| 0 <= i < entries.len() ==> (#[trigger] entries[i]).0.len() <= k,
    ensures
        dispatch::longest(entries) <= k,
    decreases entries.len(),
{
    if entries.len() > 0 {
        let p = entries.drop_last();
        assert forall|i: int| 0 <= i < p.len() implies (#[trigger] p[i]).0.len() <= k by {
            assert(p[i] == entries[i]);
        }
        lemma_longest(p, k);
        assert(entries[entries.len() - 1].0.len() <= k);
    }
}

/// What is parsed: the table as it was laid out, its grammar, the plan it was
/// laid out by, and what derivations speak of.
ghost struct World {
    pub st: StateTable,
    pub ag: AnalyzedGrammar,
    pub p: Plan,
    pub t: Terms,
}

/// The table is that of the grammar.
spec fn built(x: World) -> bool {
    let rules = x.ag.grammar.rule_list();
    let (code, entries, _) = program::lowered_rules(x.ag, rules.len());
    &&& prefixes::known(x.t, x.ag)
    &&& choices::clear_rules(x.ag)
    &&& choices::options_told(x.ag)
    &&& choices::tokens_known(x.ag)
    &&& program::kind_of(x.t.tokens, EOF_MARKER@) == TOKEN_EOF
    &&& x.ag.k <= 256
    &&& runs::names_apart(rules)
    &&& x.st.k == x.ag.k
    &&& x.p.blocks == code.blocks
    &&& x.p.rules == entries
    &&& program::first_rows(x.p.pool) == code.firsts
    &&& x.p.blocks.len() <= u32::MAX
    &&& x.p.pool.len() <= u32::MAX
    &&& x.st.first_sets@ == x.p.pool
    &&& x.st.states@ == layout::states_upto(x.p, x.p.order.len())
    &&& layout::slots_upto(x.p.blocks, x.p.order, x.p.order.len()) < u32::MAX
    &&& remaining::plan_arrives(x.p)
}

/// The return state on top is gone on at.
spec fn popped(ret: Seq<(u32, nat)>, d: CursorView) -> bool {
    if ret.len() > 0 {
        d.state == ret.last().0 && d.ret == ret.drop_last()
    } else {
        d.state == TERMINATED && d.ret.len() == 0
    }
}

/// Behind the first `i` steps that the state has to do.
spec fn past(x: World, id: u32, i: nat, ret: Seq<(u32, nat)>, d: CursorView) -> bool {
    if i == 0 || i < remaining::todo(x.p, id).len() {
        d.state == id + i && d.ret == ret
    } else {
        popped(ret, d)
    }
}

/// The state has to do the steps first.
spec fn first_of(x: World, id: u32, steps: Seq<Step>) -> bool {
    &&& remaining::in_plan(x.p, id)
    &&& steps.len() <= remaining::todo(x.p, id).len()
    &&& remaining::todo(x.p, id).take(steps.len() as int) == steps
}

/// The blocks that were put behind are in the plan, and so are the sets.
spec fn laid(x: World, st: Built, after: Built) -> bool {
    &&& after.blocks.len() <= x.p.blocks.len()
    &&& forall|j: int|
        st.blocks.len() <= j < after.blocks.len() ==> #[trigger] x.p.blocks[j] == after.blocks[j]
    &&& decided::extends(after.firsts, program::first_rows(x.p.pool))
}

/// What is known of an expression and of what comes behind it.
spec fn framed(x: World, e: ExprView, tail: Set<NameSeq>) -> bool {
    &&& tail.subset_of(choices::short(x.ag))
    &&& choices::inside(x.ag, e)
    &&& choices::decisive(x.ag, e, tail)
    &&& choices::clear(x.ag, e, tail)
    &&& follow_k::follow_k_closed(
        e,
        tail,
        x.ag.nullable@,
        first_follow::firsts(x.ag.first),
        first_follow::firsts(x.ag.follow_k),
        x.ag.k as nat,
    )
}

/// What comes is foreseen, and it is not nothing: there is the end of input.
spec fn expected(x: World, tail: Set<NameSeq>, v: Seq<Mark>) -> bool {
    prefixes::foreseen(x.t, tail, x.ag.k as nat, v) && prefixes::token_kinds(v).len() > 0
}

proof fn lemma_past(x: World, id: u32, i: nat)
    requires
        built(x),
        remaining::in_plan(x.p, id),
        i < remaining::todo(x.p, id).len(),
    ensures
        id + i < u32::MAX,
        remaining::in_plan(x.p, (id + i) as u32),
        remaining::todo(x.p, (id + i) as u32) == remaining::todo(x.p, id).skip(i as int),
    decreases i,
{
    if i == 0 {
        assert(remaining::todo(x.p, id).skip(0) =~= remaining::todo(x.p, id));
    } else {
        lemma_past(x, id, (i - 1) as nat);
        remaining::lemma_state_does(x.p, (id + i - 1) as u32);
        assert(remaining::todo(x.p, id).skip(i - 1).skip(1) =~= remaining::todo(x.p, id).skip(
            i as int,
        ));
    }
}

/// A state that looks at a token does what it has to.
proof fn lemma_does(x: World, m: TableMatcher, c: CursorView)
    requires
        built(x),
        remaining::in_plan(x.p, c.state),
        c.look.len() == x.st.k,
        c.recovery is None,
        ({
            let b = remaining::todo_body(x.p, c.state, remaining::todo(x.p, c.state));
            let e = parser::body_step(x.st, c, b).1;
            !(e is Some && e->0 is Error)
        }),
    ensures
        ({
            let b = remaining::todo_body(x.p, c.state, remaining::todo(x.p, c.state));
            reaches(x.st, m, c, parser::body_step(x.st, c, b).0)
        }),
{
    remaining::lemma_state_does(x.p, c.state);
    lemma_turn(x.st, m, c);
}

/// A set of the pool asks for its sequences.
proof fn lemma_asked(
    x: World,
    m: TableMatcher,
    c: CursorView,
    st: Built,
    f: Set<NameSeq>,
    ts: Seq<u16>,
)
    requires
        built(x),
        f.subset_of(choices::short(x.ag)),
        decided::extends(
            program::with_first(st, x.ag, f).firsts,
            program::first_rows(x.p.pool),
        ),
        awaits(x.st, m, c, ts),
        c.look.len() == x.st.k,
    ensures
        parser::in_first(c, parser::first_seqs(x.st, program::first_id(st, x.ag, f))) <==> asks(
            x,
            f,
            ts,
        ),
{
    let row = program::first_row(x.t.tokens, f);
    let id = program::first_id(st, x.ag, f);
    let seqs = parser::first_seqs(x.st, id);
    decided::lemma_interned(st, x.ag, f);
    let at = program::place(st.firsts, row);
    assert(program::first_rows(x.p.pool)[at] == row);
    assert(seqs == row);
    choices::lemma_short(x.ag);
    choices::lemma_row(x.t.tokens, f, choices::sigma(x.ag), x.ag.k as nat);
    if asks(x, f, ts) {
        let s = choose|s: Seq<u16>| #[trigger]
            choices::looks(x.t.tokens, f).contains(s) && dispatch::begins(
                window(ts, x.ag.k as nat),
                s,
            );
        assert(row.contains(s));
        let i = choose|i: int| 0 <= i < row.len() && row[i] == s;
        lemma_begins(x.st, m, c, ts, s);
        assert(parser::begins(c, seqs[i]));
    }
    if parser::in_first(c, seqs) {
        let i = choose|i: int| 0 <= i < seqs.len() && #[trigger] parser::begins(c, seqs[i]);
        assert(row.contains(row[i]));
        lemma_begins(x.st, m, c, ts, row[i]);
        assert(choices::looks(x.t.tokens, f).contains(row[i]));
    }
}

/// What is seen begins with a sequence of the set.
spec fn asks(x: World, f: Set<NameSeq>, ts: Seq<u16>) -> bool {
    exists|s: Seq<u16>| #[trigger]
        choices::looks(x.t.tokens, f).contains(s) && dispatch::begins(
            window(ts, x.ag.k as nat),
            s,
        )
}

/// What is foreseen of a word begins the word.
proof fn lemma_head(x: World, f: Set<NameSeq>, w: Seq<Mark>, v: Seq<Mark>)
    requires
        built(x),
        prefixes::foreseen(x.t, f, x.ag.k as nat, w),
    ensures
        prefixes::token_kinds(w).len() > 0 ==> asks(x, f, prefixes::token_kinds(w + v)),
        prefixes::token_kinds(w).len() > 0 ==> prefixes::foreseen(
            x.t,
            f.remove(Seq::empty()),
            x.ag.k as nat,
            w,
        ),
        prefixes::token_kinds(w).len() == 0 ==> f.contains(Seq::empty()),
{
    let k = x.ag.k as nat;
    let kinds = prefixes::token_kinds(w);
    let s = choose|s: NameSeq|
        f.contains(s) && #[trigger] program::kinds_of(x.t.tokens, s) == prefixes::first_kinds(
            kinds,
            k,
        );
    let y = program::kinds_of(x.t.tokens, s);
    assert(y.len() == s.len());
    prefixes::lemma_kinds_joined(w, v);
    if kinds.len() > 0 {
        assert(s.len() > 0);
        assert(choices::looks(x.t.tokens, f).contains(y));
        let look = window(prefixes::token_kinds(w + v), k);
        assert(dispatch::begins(look, y)) by {
            assert forall|i: int| 0 <= i < y.len() implies look[i] == y[i] by {
                assert(y[i] == kinds[i]);
                assert(prefixes::token_kinds(w + v)[i] == kinds[i]);
            }
        }
        assert(f.remove(Seq::empty()).contains(s));
    } else {
        assert(s =~= Seq::<Seq<char>>::empty());
    }
}

/// Sets that are apart are not both asked for by what is seen.
proof fn lemma_not_both(x: World, f: Set<NameSeq>, g: Set<NameSeq>, ts: Seq<u16>)
    requires
        choices::apart(x.t.tokens, f, g),
        asks(x, f, ts),
    ensures
        !asks(x, g, ts),
{
    let look = window(ts, x.ag.k as nat);
    let s = choose|s: Seq<u16>| #[trigger]
        choices::looks(x.t.tokens, f).contains(s) && dispatch::begins(look, s);
    if asks(x, g, ts) {
        let y = choose|s: Seq<u16>| #[trigger]
            choices::looks(x.t.tokens, g).contains(s) && dispatch::begins(look, s);
        if s.len() <= y.len() {
            assert(s =~= y.subrange(0, s.len() as int));
        } else {
            assert(y =~= s.subrange(0, y.len() as int));
        }
        assert(choices::one_begins(s, y));
    }
}

/// What comes behind does not ask for what is apart from it.
proof fn lemma_unasked(x: World, f: Set<NameSeq>, tail: Set<NameSeq>, v: Seq<Mark>)
    requires
        built(x),
        choices::apart(x.t.tokens, f, tail),
        expected(x, tail, v),
    ensures
        !asks(x, f, prefixes::token_kinds(v)),
{
    let none = Seq::<Mark>::empty();
    lemma_head(x, tail, v, none);
    assert(v + none =~= v);
    if asks(x, f, prefixes::token_kinds(v)) {
        lemma_not_both(x, f, tail, prefixes::token_kinds(v));
    }
}

/// The word and what comes behind it.
proof fn lemma_ahead(x: World, dd: nat, e: ExprView, tail: Set<NameSeq>, w: Seq<Mark>, v: Seq<Mark>)
    requires
        built(x),
        derivation::gives(x.t, derivation::deep(x.t, dd), e, w),
        expected(x, tail, v),
    ensures
        prefixes::foreseen(x.t, program::first_in(x.ag, e), x.ag.k as nat, w),
        expected(
            x,
            first_set::concat_k_of(program::first_in(x.ag, e), tail, x.ag.k as nat),
            w + v,
        ),
        prefixes::token_kinds(w + v) == prefixes::token_kinds(w) + prefixes::token_kinds(v),
{
    prefixes::lemma_expr(x.t, x.ag, dd, e, w);
    prefixes::lemma_concat(x.t, program::first_in(x.ag, e), tail, x.ag.k as nat, w, v);
    prefixes::lemma_kinds_joined(w, v);
}

/// Going to the state of a target with what comes behind it on the stack.
proof fn lemma_back(x: World, c: CursorView, d: CursorView)
    requires
        built(x),
        remaining::in_plan(x.p, c.state),
        remaining::todo(x.p, c.state).len() > 0,
        popped(parser::calling(c, sentences::cont_of(x.p, c.state)).ret, d),
    ensures
        past(x, c.state, 1, c.ret, d),
{
    if remaining::todo(x.p, c.state).len() > 1 {
        lemma_past(x, c.state, 1);
        let ret = parser::calling(c, sentences::cont_of(x.p, c.state)).ret;
        assert(ret.drop_last() =~= c.ret);
    }
}

proof fn lemma_next(x: World, c: CursorView, y: CursorView)
    requires
        built(x),
        remaining::in_plan(x.p, c.state),
        remaining::todo(x.p, c.state).len() > 0,
        y.ret == c.ret,
    ensures
        past(x, c.state, 1, c.ret, parser::go_on(y, sentences::cont_of(x.p, c.state))),
{
    if remaining::todo(x.p, c.state).len() > 1 {
        lemma_past(x, c.state, 1);
    }
}

/// Entering or leaving a rule.
proof fn lemma_marked(x: World, m: TableMatcher, c: CursorView, ts: Seq<u16>) -> (d: CursorView)
    requires
        built(x),
        remaining::in_plan(x.p, c.state),
        remaining::todo(x.p, c.state).len() > 0,
        ({
            let op = remaining::todo(x.p, c.state)[0].0;
            op is Enter || op is Exit
        }),
        awaits(x.st, m, c, ts),
    ensures
        reaches(x.st, m, c, d),
        past(x, c.state, 1, c.ret, d),
        awaits(x.st, m, d, ts),
{
    let c1 = lemma_ready(x.st, m, c, ts);
    let steps = remaining::todo(x.p, c.state);
    let after = if steps.len() == 1 {
        TailView::Ret
    } else {
        TailView::Jump((c.state + 1) as u32)
    };
    let i = match steps[0].0 {
        OpView::Enter(k) => InstrView::Enter(k),
        OpView::Exit(k) => InstrView::Exit(k),
        _ => InstrView::Enter(0),
    };
    sentences::lemma_one_instr(x.st, c1, i, after);
    let y = parser::instr_step(x.st, c1, i).0;
    let d = parser::go_on(y, sentences::cont_of(x.p, c.state));
    lemma_does(x, m, c1);
    lemma_next(x, c1, y);
    lemma_reaches(x.st, m, c, c1, d);
    d
}

/// Taking a token.
proof fn lemma_takes(
    x: World,
    m: TableMatcher,
    c: CursorView,
    k: u16,
    rest: Seq<u16>,
) -> (d: CursorView)
    requires
        built(x),
        remaining::in_plan(x.p, c.state),
        remaining::todo(x.p, c.state).len() > 0,
        remaining::todo(x.p, c.state)[0].0 is Expect,
        remaining::todo(x.p, c.state)[0].0->Expect_0 == k,
        rest.len() > 0,
        awaits(x.st, m, c, seq![k] + rest),
    ensures
        reaches(x.st, m, c, d),
        past(x, c.state, 1, c.ret, d),
        awaits(x.st, m, d, rest),
{
    let ts = seq![k] + rest;
    let c1 = lemma_ready(x.st, m, c, ts);
    let steps = remaining::todo(x.p, c.state);
    let after = if steps.len() == 1 {
        TailView::Ret
    } else {
        TailView::Jump((c.state + 1) as u32)
    };
    match steps[0].0 {
        OpView::Expect(kind, name, sync, label) => {
            let i = InstrView::Expect(kind, name, sync, layout::label_id(x.p.labels, label));
            sentences::lemma_one_instr(x.st, c1, i, after);
            let y = parser::instr_step(x.st, c1, i).0;
            let d = parser::go_on(y, sentences::cont_of(x.p, c.state));
            assert(ts[0] == k);
            assert(ts.skip(1) =~= rest);
            assert(c1.look[0].kind == Some(seen(ts, 0)));
            assert(y == parser::taken(c1));
            assert(awaits(x.st, m, y, rest)) by {
                let n = y.look.len() as int;
                assert forall|i: int| 0 <= i < n implies (#[trigger] y.look[i]).kind == Some(
                    seen(rest, i),
                ) by {
                    assert(y.look[i] == c1.look[i + 1]);
                    assert(c1.look[i + 1].kind == Some(seen(ts, i + 1)));
                }
                assert forall|i: int| 0 <= i < rest.len() implies (#[trigger] rest[i] == TOKEN_EOF
                    <==> i == rest.len() - 1) by {
                    assert(ts[i + 1] == rest[i]);
                }
                if n < rest.len() {
                    assert(rest.skip(n) =~= ts.skip(n + 1));
                }
            }
            lemma_does(x, m, c1);
            lemma_next(x, c1, y);
            lemma_reaches(x.st, m, c, c1, d);
            d
        },
        _ => c,
    }
}

/// Calling a target.
proof fn lemma_calls(x: World, m: TableMatcher, c: CursorView, t: TargetView, ts: Seq<u16>) -> (d:
    CursorView)
    requires
        built(x),
        remaining::in_plan(x.p, c.state),
        remaining::todo(x.p, c.state).len() > 0,
        remaining::todo(x.p, c.state)[0].0 == OpView::Call(t),
        awaits(x.st, m, c, ts),
    ensures
        reaches(x.st, m, c, d),
        d.state == layout::state_of(x.p, t),
        d.ret.len() == parser::calling(c, sentences::cont_of(x.p, c.state)).ret.len(),
        forall|e: CursorView| #[trigger] popped(d.ret, e) ==> past(x, c.state, 1, c.ret, e),
        awaits(x.st, m, d, ts),
{
    let c1 = lemma_ready(x.st, m, c, ts);
    let steps = remaining::todo(x.p, c.state);
    let fall = (c.state + 1) as u32;
    let jump = TailView::Jump(layout::state_of(x.p, t));
    if steps.len() == 1 {
        sentences::lemma_no_instr(x.st, c1, jump);
    } else {
        sentences::lemma_one_instr(x.st, c1, InstrView::PushRet(fall), jump);
    }
    let d = parser::at_state(
        parser::calling(c1, sentences::cont_of(x.p, c.state)),
        layout::state_of(x.p, t),
    );
    lemma_does(x, m, c1);
    lemma_reaches(x.st, m, c, c1, d);
    assert forall|e: CursorView| #[trigger] popped(d.ret, e) implies past(
        x,
        c.state,
        1,
        c.ret,
        e,
    ) by {
        lemma_back(x, c1, e);
    }
    d
}

/// An expression without steps derives nothing.
proof fn lemma_stepless(
    t: Terms,
    calls: Calls,
    e: ExprView,
    tail: Set<NameSeq>,
    sym: Seq<char>,
    cx: Within,
    st: Built,
    w: Seq<Mark>,
)
    requires
        program::emit(e, tail, sym, cx, st).0.len() == 0,
        derivation::gives(t, calls, e, w),
    ensures
        w.len() == 0,
    decreases e, 0nat,
{
    match e {
        ExprView::Concat(xs) => {
            assert(xs.take(xs.len() as int) =~= xs);
            lemma_stepless_items(t, calls, xs, xs.len(), tail, sym, cx, st, w);
        },
        ExprView::Label(_, x) => {
            if !(*x is Token) {
                lemma_stepless(t, calls, *x, tail, sym, cx, st, w);
            }
        },
        _ => {},
    }
}

proof fn lemma_stepless_items(
    t: Terms,
    calls: Calls,
    xs: Seq<ExprView>,
    n: nat,
    tail: Set<NameSeq>,
    sym: Seq<char>,
    cx: Within,
    st: Built,
    w: Seq<Mark>,
)
    requires
        n <= xs.len(),
        program::emit_items(xs, n, tail, sym, cx, st).0.len() == 0,
        derivation::items_give(t, calls, xs.take(n as int), w),
    ensures
        w.len() == 0,
    decreases xs, n,
{
    if n > 0 {
        let some = xs.take(n as int);
        let k = choose|k: int|
            0 <= k <= w.len() && derivation::items_give(
                t,
                calls,
                some.drop_last(),
                #[trigger] w.take(k),
            ) && derivation::gives(t, calls, some.last(), w.skip(k));
        assert(some.drop_last() =~= xs.take(n - 1));
        assert(some.last() == xs[n - 1]);
        let mid = program::emit_items(xs, (n - 1) as nat, tail, sym, cx, st).1;
        lemma_stepless_items(t, calls, xs, (n - 1) as nat, tail, sym, cx, st, w.take(k));
        lemma_stepless(
            t,
            calls,
            xs[n - 1],
            runs::rest_of(cx, xs, n as int, tail),
            sym,
            cx,
            mid,
            w.skip(k),
        );
    }
}

/// Each entry of a dispatch belongs to an arm.
proof fn lemma_entry_arm(x: World, arms: Seq<(u32, TargetView)>, i: int) -> (j: int)
    requires
        forall|j: int| 0 <= j < arms.len() ==> (#[trigger] arms[j]).0 < x.p.pool.len(),
        0 <= i < dispatch::arm_entries(layout::arm_states(x.p, arms), x.p.pool).len(),
    ensures
        ({
            let entry = dispatch::arm_entries(layout::arm_states(x.p, arms), x.p.pool)[i];
            &&& 0 <= j < arms.len()
            &&& entry.1 == layout::state_of(x.p, arms[j].1)
            &&& program::first_rows(x.p.pool)[arms[j].0 as int].contains(entry.0)
        }),
    decreases arms.len(),
{
    let all = layout::arm_states(x.p, arms);
    let before = arms.drop_last();
    assert(layout::arm_states(x.p, before) =~= all.drop_last());
    let first = dispatch::arm_entries(all.drop_last(), x.p.pool);
    let r = dispatch::arm_entries(all, x.p.pool);
    assert(arms.len() > 0);
    if i < first.len() {
        assert(r[i] == first[i]);
        assert forall|j: int| 0 <= j < before.len() implies (#[trigger] before[j]).0
            < x.p.pool.len() by {
            assert(before[j] == arms[j]);
        }
        let j = lemma_entry_arm(x, before, i);
        assert(before[j] == arms[j]);
        j
    } else {
        let j = arms.len() - 1;
        let row = program::first_rows(x.p.pool)[arms[j].0 as int];
        assert(r[i].0 == row[i - first.len()]);
        j
    }
}

/// Each sequence that an arm is taken on has an entry.
proof fn lemma_arm_entry(x: World, arms: Seq<(u32, TargetView)>, j: int, s: Seq<u16>) -> (i: int)
    requires
        0 <= j < arms.len(),
        arms[j].0 < x.p.pool.len(),
        program::first_rows(x.p.pool)[arms[j].0 as int].contains(s),
    ensures
        ({
            let entries = dispatch::arm_entries(layout::arm_states(x.p, arms), x.p.pool);
            0 <= i < entries.len() && entries[i].0 == s
        }),
    decreases arms.len(),
{
    let all = layout::arm_states(x.p, arms);
    let before = arms.drop_last();
    assert(layout::arm_states(x.p, before) =~= all.drop_last());
    let first = dispatch::arm_entries(all.drop_last(), x.p.pool);
    let r = dispatch::arm_entries(all, x.p.pool);
    if j < arms.len() - 1 {
        assert(before[j] == arms[j]);
        let i = lemma_arm_entry(x, before, j, s);
        assert(r[i] == first[i]);
        i
    } else {
        let row = program::first_rows(x.p.pool)[arms[j].0 as int];
        let k = choose|k: int| 0 <= k < row.len() && row[k] == s;
        let i = first.len() + k;
        assert(r[i].0 == row[k]);
        i
    }
}

/// The arm is that of the alternative, whose block was put behind `st`.
spec fn arm_laid(
    x: World,
    cx: Within,
    y: ExprView,
    tail: Set<NameSeq>,
    arm: (u32, TargetView),
    label: Seq<char>,
    st: Built,
) -> bool {
    &&& arm.0 < x.p.pool.len()
    &&& program::first_rows(x.p.pool)[arm.0 as int] == program::first_row(
        x.t.tokens,
        choices::predicted(x.ag, y, tail),
    )
    &&& arm.1 == TargetView::Block(st.blocks.len() as u32)
    &&& laid(x, st, program::emit_sub(y, tail, label, cx, st))
}

proof fn lemma_laid(x: World, st: Built, mid: Built, after: Built)
    requires
        laid(x, st, after),
        runs::behind(st, mid),
        runs::behind(mid, after),
        decided::extends(mid.firsts, after.firsts),
    ensures
        laid(x, st, mid),
        laid(x, mid, after),
{
    decided::lemma_extends_trans(mid.firsts, after.firsts, program::first_rows(x.p.pool));
    assert forall|j: int| st.blocks.len() <= j < mid.blocks.len() implies #[trigger] x.p.blocks[j]
        == mid.blocks[j] by {
        assert(after.blocks[j] == mid.blocks[j]);
    }
}

/// The alternatives of the arms, and where their blocks are.
proof fn lemma_arms_laid(
    x: World,
    xs: Seq<ExprView>,
    n: nat,
    tail: Set<NameSeq>,
    sym: Seq<char>,
    cx: Within,
    st: Built,
) -> (r: (Seq<int>, Seq<(Seq<char>, Built)>))
    requires
        built(x),
        cx.ag == x.ag,
        n <= xs.len(),
        laid(x, st, program::emit_arms(xs, n, tail, sym, cx, st).1),
    ensures
        ({
            let arms = program::emit_arms(xs, n, tail, sym, cx, st).0;
            let (idx, places) = r;
            &&& idx.len() == arms.len() == places.len()
            &&& forall|j: int| 0 <= j < arms.len() ==> 0 <= #[trigger] idx[j] < n
            &&& forall|j: int|
                0 <= j < arms.len() ==> arm_laid(
                    x,
                    cx,
                    xs[idx[j]],
                    tail,
                    #[trigger] arms[j],
                    places[j].0,
                    places[j].1,
                )
            &&& forall|i: int|
                0 <= i < n && !(#[trigger] program::first_in(x.ag, xs[i])).subset_of(
                    first_follow::only_eps(),
                ) ==> idx.contains(i)
        }),
    decreases n,
{
    let (arms, after) = program::emit_arms(xs, n, tail, sym, cx, st);
    if n == 0 {
        (Seq::empty(), Seq::empty())
    } else {
        let (before, mid) = program::emit_arms(xs, (n - 1) as nat, tail, sym, cx, st);
        let y = xs[n - 1];
        let first = program::first_in(x.ag, y);
        runs::lemma_arms_behind(xs, (n - 1) as nat, tail, sym, cx, st);
        if first.subset_of(first_follow::only_eps()) {
            lemma_arms_laid(x, xs, (n - 1) as nat, tail, sym, cx, st)
        } else {
            let f = choices::predicted(x.ag, y, tail);
            let st1 = runs::arm_start(cx, y, tail, mid);
            let label = sym + ":alt"@ + text::decimal((n - 1) as nat);
            decided::lemma_interned(mid, x.ag, f);
            runs::lemma_sub_behind(y, tail, label, cx, st1);
            decided::lemma_sub_extends(y, tail, label, cx, st1);
            decided::lemma_extends_trans(mid.firsts, st1.firsts, after.firsts);
            assert(runs::behind(mid, after));
            lemma_laid(x, st, mid, after);
            decided::lemma_extends_trans(
                st1.firsts,
                after.firsts,
                program::first_rows(x.p.pool),
            );
            let (idx0, places0) = lemma_arms_laid(x, xs, (n - 1) as nat, tail, sym, cx, st);
            let idx = idx0.push(n - 1);
            let places = places0.push((label, st1));
            let row = program::first_row(x.t.tokens, f);
            let at = program::place(mid.firsts, row);
            assert(program::first_rows(x.p.pool)[at] == row);
            assert forall|j: int| 0 <= j < arms.len() implies arm_laid(
                x,
                cx,
                xs[idx[j]],
                tail,
                #[trigger] arms[j],
                places[j].0,
                places[j].1,
            ) by {
                if j < before.len() {
                    assert(arms[j] == before[j]);
                    assert(idx[j] == idx0[j]);
                    assert(places[j] == places0[j]);
                } else {
                    assert(laid(x, st1, after));
                    assert(arms[j].0 == at);
                }
            }
            assert forall|i: int|
                0 <= i < n && !(#[trigger] program::first_in(x.ag, xs[i])).subset_of(
                    first_follow::only_eps(),
                ) implies idx.contains(i) by {
                if i < n - 1 {
                    assert(idx0.contains(i));
                    let j = choose|j: int| 0 <= j < idx0.len() && idx0[j] == i;
                    assert(idx[j] == i);
                } else {
                    assert(idx[idx.len() - 1] == i);
                }
            }
            assert forall|j: int| 0 <= j < arms.len() implies 0 <= #[trigger] idx[j] < n by {
                if j < idx0.len() {
                    assert(idx[j] == idx0[j]);
                }
            }
            (idx, places)
        }
    }
}

/// What is needed to parse an expression from a cursor on.
spec fn can_parse(
    x: World,
    m: TableMatcher,
    dd: nat,
    e: ExprView,
    tail: Set<NameSeq>,
    w: Seq<Mark>,
    v: Seq<Mark>,
    c: CursorView,
) -> bool {
    &&& built(x)
    &&& framed(x, e, tail)
    &&& derivation::gives(x.t, derivation::deep(x.t, dd), e, w)
    &&& expected(x, tail, v)
    &&& awaits(x.st, m, c, prefixes::token_kinds(w + v))
}

/// What is known when an expression has been parsed.
spec fn has_parsed(
    x: World,
    m: TableMatcher,
    c: CursorView,
    v: Seq<Mark>,
    d: CursorView,
) -> bool {
    reaches(x.st, m, c, d) && awaits(x.st, m, d, prefixes::token_kinds(v))
}

proof fn lemma_parses(
    x: World,
    m: TableMatcher,
    dd: nat,
    e: ExprView,
    tail: Set<NameSeq>,
    sym: Seq<char>,
    cx: Within,
    st: Built,
    w: Seq<Mark>,
    v: Seq<Mark>,
    c: CursorView,
) -> (d: CursorView)
    requires
        can_parse(x, m, dd, e, tail, w, v, c),
        cx.ag == x.ag,
        laid(x, st, program::emit(e, tail, sym, cx, st).1),
        first_of(x, c.state, program::emit(e, tail, sym, cx, st).0),
    ensures
        has_parsed(x, m, c, v, d),
        past(x, c.state, program::emit(e, tail, sym, cx, st).0.len(), c.ret, d),
    decreases dd, e, 1nat, 0nat,
{
    let (steps, after) = program::emit(e, tail, sym, cx, st);
    let todo = remaining::todo(x.p, c.state);
    if steps.len() > 0 {
        assert(todo[0] == todo.take(steps.len() as int)[0]);
        assert(todo[0] == steps[0]);
        assert(remaining::op_arrives(x.p, remaining::todo(x.p, c.state)[0].0));
    }
    prefixes::lemma_kinds_joined(w, v);
    choices::lemma_short(x.ag);
    match e {
        ExprView::Empty => {
            lemma_stays(x.st, m, c);
            assert(w + v =~= v);
            c
        },
        ExprView::Token(n) => {
            prefixes::lemma_one_kind(w[0]);
            assert(w =~= seq![w[0]]);
            lemma_takes(
                x,
                m,
                c,
                program::kind_of(x.t.tokens, n),
                prefixes::token_kinds(v),
            )
        },
        ExprView::Rule(_) => lemma_call_parses(x, m, dd, e, tail, sym, cx, st, w, v, c),
        ExprView::Concat(xs) => {
            assert(xs.take(xs.len() as int) =~= xs);
            lemma_items_parse(x, m, dd, xs, xs.len(), tail, sym, cx, st, w, v, c)
        },
        ExprView::Alt(xs) => lemma_alt_parses(x, m, dd, xs, tail, sym, cx, st, w, v, c),
        ExprView::Opt(_) => lemma_opt_parses(x, m, dd, e, tail, sym, cx, st, w, v, c),
        ExprView::Star(_) => lemma_star_parses(x, m, dd, e, tail, sym, cx, st, w, v, c),
        ExprView::Plus(_) => lemma_plus_parses(x, m, dd, e, tail, sym, cx, st, w, v, c),
        ExprView::Label(name, y) => {
            if *y is Token {
                prefixes::lemma_one_kind(w[0]);
                assert(w =~= seq![w[0]]);
                lemma_takes(
                    x,
                    m,
                    c,
                    program::kind_of(x.t.tokens, y->Token_0),
                    prefixes::token_kinds(v),
                )
            } else {
                choices::lemma_inner_clear(x.ag, e, tail);
                lemma_parses(x, m, dd, *y, tail, sym, cx, st, w, v, c)
            }
        },
    }
}

/// A call of a rule is parsed.
proof fn lemma_call_parses(
    x: World,
    m: TableMatcher,
    dd: nat,
    e: ExprView,
    tail: Set<NameSeq>,
    sym: Seq<char>,
    cx: Within,
    st: Built,
    w: Seq<Mark>,
    v: Seq<Mark>,
    c: CursorView,
) -> (d: CursorView)
    requires
        e is Rule,
        can_parse(x, m, dd, e, tail, w, v, c),
        cx.ag == x.ag,
        laid(x, st, program::emit(e, tail, sym, cx, st).1),
        first_of(x, c.state, program::emit(e, tail, sym, cx, st).0),
    ensures
        has_parsed(x, m, c, v, d),
        past(x, c.state, program::emit(e, tail, sym, cx, st).0.len(), c.ret, d),
    decreases dd, e, 0nat, 0nat,
{
    let (steps, after) = program::emit(e, tail, sym, cx, st);
    let todo = remaining::todo(x.p, c.state);
    assert(todo[0] == todo.take(steps.len() as int)[0]);
    assert(todo[0] == steps[0]);
    assert(remaining::op_arrives(x.p, remaining::todo(x.p, c.state)[0].0));
    prefixes::lemma_kinds_joined(w, v);
    choices::lemma_short(x.ag);
    match e {
        ExprView::Rule(n) => {
            let t = TargetView::Rule(n);
            let ts = prefixes::token_kinds(w + v);
            let c1 = lemma_calls(x, m, c, t, ts);
            let calls = derivation::deep(x.t, (dd - 1) as nat);
            assert(derivation::named_gives(x.t, calls, n, w));
            let i = choose|i: int|
                0 <= i < x.t.rules.len() && (#[trigger] x.t.rules[i]).name == n
                    && derivation::rule_gives(x.t, calls, x.t.rules[i], w);
            let fo = first_follow::set_at(first_follow::firsts(x.ag.follow_k), n);
            assert(expected(x, fo, v)) by {
                let s = choose|s: NameSeq|
                    tail.contains(s) && #[trigger] program::kinds_of(x.t.tokens, s)
                        == prefixes::first_kinds(prefixes::token_kinds(v), x.ag.k as nat);
                assert(fo.contains(s));
            }
            let d = lemma_rule_parses(x, m, (dd - 1) as nat, i, w, v, c1);
            lemma_reaches(x.st, m, c, c1, d);
            d
        },
        _ => c,
    }
}

/// An option is parsed.
proof fn lemma_opt_parses(
    x: World,
    m: TableMatcher,
    dd: nat,
    e: ExprView,
    tail: Set<NameSeq>,
    sym: Seq<char>,
    cx: Within,
    st: Built,
    w: Seq<Mark>,
    v: Seq<Mark>,
    c: CursorView,
) -> (d: CursorView)
    requires
        e is Opt,
        can_parse(x, m, dd, e, tail, w, v, c),
        cx.ag == x.ag,
        laid(x, st, program::emit(e, tail, sym, cx, st).1),
        first_of(x, c.state, program::emit(e, tail, sym, cx, st).0),
    ensures
        has_parsed(x, m, c, v, d),
        past(x, c.state, program::emit(e, tail, sym, cx, st).0.len(), c.ret, d),
    decreases dd, e, 0nat, 0nat,
{
    let (steps, after) = program::emit(e, tail, sym, cx, st);
    let todo = remaining::todo(x.p, c.state);
    assert(todo[0] == todo.take(steps.len() as int)[0]);
    assert(todo[0] == steps[0]);
    assert(remaining::op_arrives(x.p, remaining::todo(x.p, c.state)[0].0));
    prefixes::lemma_kinds_joined(w, v);
    choices::lemma_short(x.ag);
    match e {
        ExprView::Opt(y) => {
            let first = program::first_in(x.ag, *y);
            let st1 = program::with_first(st, x.ag, first);
            let label = sym + ":opt-body"@;
            let t = TargetView::Block(st1.blocks.len() as u32);
            let cont = sentences::cont_of(x.p, c.state);
            let id = program::first_id(st, x.ag, first);
            let ts = prefixes::token_kinds(w + v);
            choices::lemma_inner_clear(x.ag, e, tail);
            decided::lemma_sub_extends(*y, tail, label, cx, st1);
            decided::lemma_extends_trans(
                st1.firsts,
                after.firsts,
                program::first_rows(x.p.pool),
            );
            let c1 = lemma_ready(x.st, m, c, ts);
            let jump = table::jump_body(layout::state_of(x.p, t));
            sentences::lemma_no_instr(x.st, c1, TailView::Opt(id, Box::new(jump), cont));
            sentences::lemma_jumps(x.st, parser::calling(c1, cont), layout::state_of(x.p, t));
            lemma_asked(x, m, c1, st, first, ts);
            lemma_does(x, m, c1);
            if prefixes::token_kinds(w).len() > 0 {
                lemma_ahead(x, dd, *y, tail, w, v);
                lemma_head(x, first, w, v);
                let c2 = parser::at_state(
                    parser::calling(c1, cont),
                    layout::state_of(x.p, t),
                );
                assert(laid(x, st1, after));
                let d = lemma_block_parses(x, m, dd, *y, tail, label, cx, st1, w, v, c2);
                lemma_back(x, c1, d);
                lemma_reaches(x.st, m, c1, c2, d);
                lemma_reaches(x.st, m, c, c1, d);
                d
            } else {
                assert(ts =~= prefixes::token_kinds(v));
                lemma_unasked(x, first, tail, v);
                let d = parser::go_on(c1, cont);
                lemma_next(x, c1, c1);
                lemma_reaches(x.st, m, c, c1, d);
                d
            }
        },
        _ => c,
    }
}

/// A loop that may have no round is parsed.
proof fn lemma_star_parses(
    x: World,
    m: TableMatcher,
    dd: nat,
    e: ExprView,
    tail: Set<NameSeq>,
    sym: Seq<char>,
    cx: Within,
    st: Built,
    w: Seq<Mark>,
    v: Seq<Mark>,
    c: CursorView,
) -> (d: CursorView)
    requires
        e is Star,
        can_parse(x, m, dd, e, tail, w, v, c),
        cx.ag == x.ag,
        laid(x, st, program::emit(e, tail, sym, cx, st).1),
        first_of(x, c.state, program::emit(e, tail, sym, cx, st).0),
    ensures
        has_parsed(x, m, c, v, d),
        past(x, c.state, program::emit(e, tail, sym, cx, st).0.len(), c.ret, d),
    decreases dd, e, 0nat, 0nat,
{
    let (steps, after) = program::emit(e, tail, sym, cx, st);
    let todo = remaining::todo(x.p, c.state);
    assert(todo[0] == todo.take(steps.len() as int)[0]);
    assert(todo[0] == steps[0]);
    assert(remaining::op_arrives(x.p, remaining::todo(x.p, c.state)[0].0));
    prefixes::lemma_kinds_joined(w, v);
    choices::lemma_short(x.ag);
    match e {
        ExprView::Star(y) => {
            let first = program::first_in(x.ag, *y);
            let st1 = program::with_first(st, x.ag, first);
            let inner = program::looped(x.ag, *y, tail);
            let label = sym + ":star-body"@;
            lemma_looped(x, *y, tail);
            choices::lemma_inner_clear(x.ag, e, tail);
            decided::lemma_sub_extends(*y, inner, label, cx, st1);
            decided::lemma_extends_trans(
                st1.firsts,
                after.firsts,
                program::first_rows(x.p.pool),
            );
            assert(laid(x, st1, after));
            lemma_loop_parses(x, m, dd, *y, tail, label, cx, st, w, v, c)
        },
        _ => c,
    }
}

/// A loop that has a round is parsed.
proof fn lemma_plus_parses(
    x: World,
    m: TableMatcher,
    dd: nat,
    e: ExprView,
    tail: Set<NameSeq>,
    sym: Seq<char>,
    cx: Within,
    st: Built,
    w: Seq<Mark>,
    v: Seq<Mark>,
    c: CursorView,
) -> (d: CursorView)
    requires
        e is Plus,
        can_parse(x, m, dd, e, tail, w, v, c),
        cx.ag == x.ag,
        laid(x, st, program::emit(e, tail, sym, cx, st).1),
        first_of(x, c.state, program::emit(e, tail, sym, cx, st).0),
    ensures
        has_parsed(x, m, c, v, d),
        past(x, c.state, program::emit(e, tail, sym, cx, st).0.len(), c.ret, d),
    decreases dd, e, 0nat, 0nat,
{
    let (steps, after) = program::emit(e, tail, sym, cx, st);
    let todo = remaining::todo(x.p, c.state);
    assert(todo[0] == todo.take(steps.len() as int)[0]);
    assert(todo[0] == steps[0]);
    assert(remaining::op_arrives(x.p, remaining::todo(x.p, c.state)[0].0));
    prefixes::lemma_kinds_joined(w, v);
    choices::lemma_short(x.ag);
    match e {
        ExprView::Plus(y) => {
            let first = program::first_in(x.ag, *y);
            let st1 = program::with_first(st, x.ag, first);
            let inner = program::looped(x.ag, *y, tail);
            let label = sym + ":plus-body"@;
            let t = TargetView::Block(st1.blocks.len() as u32);
            lemma_looped(x, *y, tail);
            choices::lemma_inner_clear(x.ag, e, tail);
            decided::lemma_sub_extends(*y, inner, label, cx, st1);
            decided::lemma_extends_trans(
                st1.firsts,
                after.firsts,
                program::first_rows(x.p.pool),
            );
            assert(laid(x, st1, after));
            let calls = derivation::deep(x.t, dd);
            let k = choose|k: int|
                0 <= k <= w.len() && derivation::gives(x.t, calls, *y, #[trigger] w.take(k))
                    && derivation::star_gives(x.t, calls, *y, w.skip(k));
            let more = w.skip(k) + v;
            lemma_round_ahead(x, dd, *y, tail, w.skip(k), v);
            assert(w.take(k) + more =~= w + v);
            let c1 = lemma_calls(x, m, c, t, prefixes::token_kinds(w + v));
            let d1 = lemma_block_parses(
                x,
                m,
                dd,
                *y,
                inner,
                label,
                cx,
                st1,
                w.take(k),
                more,
                c1,
            );
            lemma_reaches(x.st, m, c, c1, d1);
            lemma_past(x, c.state, 1);
            let next = remaining::todo(x.p, d1.state);
            assert(todo[1] == todo.take(steps.len() as int)[1]);
            assert(next[0] == todo[1]);
            assert(next[0] == steps[1]);
            assert(remaining::op_arrives(x.p, remaining::todo(x.p, d1.state)[0].0));
            let d = lemma_loop_parses(
                x,
                m,
                dd,
                *y,
                tail,
                label,
                cx,
                st,
                w.skip(k),
                v,
                d1,
            );
            lemma_reaches(x.st, m, c, d1, d);
            d
        },
        _ => c,
    }
}

/// What comes behind a round of a loop is foreseen.
proof fn lemma_looped(x: World, y: ExprView, tail: Set<NameSeq>)
    requires
        built(x),
        tail.subset_of(choices::short(x.ag)),
        choices::inside(x.ag, y),
    ensures
        program::looped(x.ag, y, tail).subset_of(choices::short(x.ag)),
{
    choices::lemma_short(x.ag);
    let first = program::first_in(x.ag, y);
    let k = x.ag.k as nat;
    first_follow::lemma_star_bounded(first, k, choices::sigma(x.ag), k);
    first_follow::lemma_concat_bounded(
        first_set::star_k_of(first, k),
        tail,
        k,
        choices::sigma(x.ag),
        k,
    );
}

proof fn lemma_round_ahead(
    x: World,
    dd: nat,
    y: ExprView,
    tail: Set<NameSeq>,
    w: Seq<Mark>,
    v: Seq<Mark>,
)
    requires
        built(x),
        derivation::star_gives(x.t, derivation::deep(x.t, dd), y, w),
        expected(x, tail, v),
    ensures
        expected(x, program::looped(x.ag, y, tail), w + v),
{
    let first = program::first_in(x.ag, y);
    let k = x.ag.k as nat;
    let none = Seq::<Mark>::empty();
    let eps = Seq::<Seq<char>>::empty();
    assert(first_set::star_n(first, k, 0).contains(eps));
    assert(program::kinds_of(x.t.tokens, eps) =~= prefixes::first_kinds(
        prefixes::token_kinds(none),
        k,
    ));
    assert(prefixes::foreseen(x.t, first_set::star_n(first, k, 0), k, none));
    prefixes::lemma_star(x.t, x.ag, dd, y, 0, none, w);
    assert(none + w =~= w);
    prefixes::lemma_concat(x.t, first_set::star_k_of(first, k), tail, k, w, v);
    prefixes::lemma_kinds_joined(w, v);
}

/// The block of a part is parsed.
proof fn lemma_block_parses(
    x: World,
    m: TableMatcher,
    dd: nat,
    e: ExprView,
    tail: Set<NameSeq>,
    label: Seq<char>,
    cx: Within,
    st: Built,
    w: Seq<Mark>,
    v: Seq<Mark>,
    c: CursorView,
) -> (d: CursorView)
    requires
        can_parse(x, m, dd, e, tail, w, v, c),
        cx.ag == x.ag,
        laid(x, st, program::emit_sub(e, tail, label, cx, st)),
        remaining::arrives(x.p, TargetView::Block(st.blocks.len() as u32)),
        c.state == layout::state_of(x.p, TargetView::Block(st.blocks.len() as u32)),
    ensures
        has_parsed(x, m, c, v, d),
        popped(c.ret, d),
    decreases dd, e, 2nat, 0nat,
{
    let block = program::empty_block(label, cx.rule);
    let reserved = Built { blocks: st.blocks.push(block), ..st };
    let (steps, after) = program::emit(e, tail, label, cx, reserved);
    let out = program::emit_sub(e, tail, label, cx, st);
    let at = st.blocks.len() as int;
    runs::lemma_emit_behind(e, tail, label, cx, reserved);
    assert(laid(x, reserved, after)) by {
        assert forall|j: int| reserved.blocks.len() <= j < after.blocks.len() implies #[trigger]
            x.p.blocks[j] == after.blocks[j] by {
            assert(out.blocks[j] == after.blocks[j]);
        }
    }
    assert(x.p.blocks[at] == out.blocks[at]);
    assert(x.p.blocks[at].steps =~= steps);
    let todo = remaining::todo(x.p, c.state);
    assert(todo == steps);
    assert(todo.take(steps.len() as int) =~= steps);
    if steps.len() > 0 {
        lemma_parses(x, m, dd, e, tail, label, cx, reserved, w, v, c)
    } else {
        lemma_stepless(x.t, derivation::deep(x.t, dd), e, tail, label, cx, reserved, w);
        assert(w + v =~= v);
        lemma_returns(x, m, c, prefixes::token_kinds(v))
    }
}

/// A state with nothing to do returns.
proof fn lemma_returns(x: World, m: TableMatcher, c: CursorView, ts: Seq<u16>) -> (d: CursorView)
    requires
        built(x),
        remaining::in_plan(x.p, c.state),
        remaining::todo(x.p, c.state).len() == 0,
        awaits(x.st, m, c, ts),
    ensures
        reaches(x.st, m, c, d),
        popped(c.ret, d),
        awaits(x.st, m, d, ts),
{
    let c1 = lemma_ready(x.st, m, c, ts);
    sentences::lemma_no_instr(x.st, c1, TailView::Ret);
    lemma_does(x, m, c1);
    let d = parser::returned(c1);
    lemma_reaches(x.st, m, c, c1, d);
    d
}

/// A loop is parsed.
proof fn lemma_loop_parses(
    x: World,
    m: TableMatcher,
    dd: nat,
    y: ExprView,
    behind: Set<NameSeq>,
    label: Seq<char>,
    cx: Within,
    st: Built,
    w: Seq<Mark>,
    v: Seq<Mark>,
    c: CursorView,
) -> (d: CursorView)
    requires
        built(x),
        framed(x, y, program::looped(x.ag, y, behind)),
        behind.subset_of(choices::short(x.ag)),
        choices::apart(x.t.tokens, program::first_in(x.ag, y), behind),
        derivation::star_gives(x.t, derivation::deep(x.t, dd), y, w),
        expected(x, behind, v),
        awaits(x.st, m, c, prefixes::token_kinds(w + v)),
        cx.ag == x.ag,
        ({
            let first = program::first_in(x.ag, y);
            let inner = program::looped(x.ag, y, behind);
            let st1 = program::with_first(st, x.ag, first);
            let t = TargetView::Block(st.blocks.len() as u32);
            &&& laid(x, st1, program::emit_sub(y, inner, label, cx, st1))
            &&& decided::extends(st1.firsts, program::first_rows(x.p.pool))
            &&& remaining::in_plan(x.p, c.state)
            &&& remaining::todo(x.p, c.state).len() > 0
            &&& remaining::todo(x.p, c.state)[0].0 == OpView::Star(
                program::first_id(st, x.ag, first),
                t,
            )
            &&& remaining::arrives(x.p, t)
        }),
    ensures
        has_parsed(x, m, c, v, d),
        past(x, c.state, 1, c.ret, d),
    decreases dd, y, 3nat, w.len(),
{
    let first = program::first_in(x.ag, y);
    let inner = program::looped(x.ag, y, behind);
    let st1 = program::with_first(st, x.ag, first);
    let t = TargetView::Block(st.blocks.len() as u32);
    let id = program::first_id(st, x.ag, first);
    let calls = derivation::deep(x.t, dd);
    let ts = prefixes::token_kinds(w + v);
    let cont = sentences::cont_of(x.p, c.state);
    let jump = table::jump_body(layout::state_of(x.p, t));
    let tail = TailView::Star(id, Box::new(jump), cont, c.state);
    prefixes::lemma_kinds_joined(w, v);
    choices::lemma_short(x.ag);
    if w.len() == 0 {
        let c1 = lemma_ready(x.st, m, c, ts);
        assert(w + v =~= v);
        sentences::lemma_no_instr(x.st, c1, tail);
        lemma_asked(x, m, c1, st, first, ts);
        lemma_unasked(x, first, behind, v);
        lemma_does(x, m, c1);
        let d = parser::go_on(c1, cont);
        lemma_next(x, c1, c1);
        lemma_reaches(x.st, m, c, c1, d);
        d
    } else {
        let k = choose|k: int|
            0 < k <= w.len() && derivation::gives(x.t, calls, y, #[trigger] w.take(k))
                && derivation::star_gives(x.t, calls, y, w.skip(k));
        let part = w.take(k);
        let more = w.skip(k) + v;
        assert(part + more =~= w + v);
        prefixes::lemma_kinds_joined(part, more);
        if prefixes::token_kinds(part).len() == 0 {
            assert(ts =~= prefixes::token_kinds(more));
            lemma_loop_parses(x, m, dd, y, behind, label, cx, st, w.skip(k), v, c)
        } else {
            let c1 = lemma_ready(x.st, m, c, ts);
            lemma_round_ahead(x, dd, y, behind, w.skip(k), v);
            lemma_ahead(x, dd, y, inner, part, more);
            lemma_head(x, first, part, more);
            sentences::lemma_no_instr(x.st, c1, tail);
            sentences::lemma_jumps(
                x.st,
                parser::pushed(c1, c.state),
                layout::state_of(x.p, t),
            );
            lemma_asked(x, m, c1, st, first, ts);
            lemma_does(x, m, c1);
            let c2 = parser::at_state(
                parser::pushed(c1, c.state),
                layout::state_of(x.p, t),
            );
            let d1 = lemma_block_parses(
                x,
                m,
                dd,
                y,
                inner,
                label,
                cx,
                st1,
                part,
                more,
                c2,
            );
            assert(c2.ret.drop_last() =~= c1.ret);
            lemma_reaches(x.st, m, c1, c2, d1);
            lemma_reaches(x.st, m, c, c1, d1);
            let d = lemma_loop_parses(
                x,
                m,
                dd,
                y,
                behind,
                label,
                cx,
                st,
                w.skip(k),
                v,
                d1,
            );
            lemma_reaches(x.st, m, c, d1, d);
            d
        }
    }
}

proof fn lemma_items_parse(
    x: World,
    m: TableMatcher,
    dd: nat,
    xs: Seq<ExprView>,
    n: nat,
    tail: Set<NameSeq>,
    sym: Seq<char>,
    cx: Within,
    st: Built,
    w: Seq<Mark>,
    v: Seq<Mark>,
    c: CursorView,
) -> (d: CursorView)
    requires
        n <= xs.len(),
        built(x),
        framed(x, ExprView::Concat(xs), tail),
        derivation::items_give(x.t, derivation::deep(x.t, dd), xs.take(n as int), w),
        expected(x, choices::rest(x.ag, xs, n as int, tail), v),
        awaits(x.st, m, c, prefixes::token_kinds(w + v)),
        cx.ag == x.ag,
        laid(x, st, program::emit_items(xs, n, tail, sym, cx, st).1),
        first_of(x, c.state, program::emit_items(xs, n, tail, sym, cx, st).0),
    ensures
        has_parsed(x, m, c, v, d),
        past(x, c.state, program::emit_items(xs, n, tail, sym, cx, st).0.len(), c.ret, d),
    decreases dd, xs, n, 0nat,
{
    if n == 0 {
        lemma_stays(x.st, m, c);
        assert(w + v =~= v);
        c
    } else {
        let calls = derivation::deep(x.t, dd);
        let some = xs.take(n as int);
        let e = xs[n - 1];
        let k = choose|k: int|
            0 <= k <= w.len() && derivation::items_give(
                x.t,
                calls,
                some.drop_last(),
                #[trigger] w.take(k),
            ) && derivation::gives(x.t, calls, some.last(), w.skip(k));
        assert(some.drop_last() =~= xs.take(n - 1));
        assert(some.last() == e);
        let (steps, _) = program::emit_items(xs, n, tail, sym, cx, st);
        let (before, mid) = program::emit_items(xs, (n - 1) as nat, tail, sym, cx, st);
        let near = runs::rest_of(cx, xs, n as int, tail);
        let (here, after) = program::emit(e, near, sym, cx, mid);
        let todo = remaining::todo(x.p, c.state);
        runs::lemma_items_behind(xs, (n - 1) as nat, tail, sym, cx, st);
        runs::lemma_emit_behind(e, near, sym, cx, mid);
        decided::lemma_emit_extends(e, near, sym, cx, mid);
        lemma_laid(x, st, mid, after);
        lemma_rest_short(x, xs, n as int, tail);
        assert(framed(x, e, near)) by {
            assert forall|name: Seq<char>| first_follow::mentions(e, name) implies #[trigger]
                choices::sigma(x.ag).contains(name) by {
                lemma_mentioned(xs, n - 1, name);
            }
            lemma_item_framed(x, xs, n - 1, tail);
        }
        let more = w.skip(k) + v;
        assert(w.take(k) + more =~= w + v);
        lemma_ahead(x, dd, e, near, w.skip(k), v);
        assert(expected(x, choices::rest(x.ag, xs, n - 1, tail), more));
        assert(steps =~= before + here);
        assert(todo.take(before.len() as int) =~= before) by {
            assert forall|i: int| 0 <= i < before.len() implies todo[i] == before[i] by {
                assert(todo.take(steps.len() as int)[i] == steps[i]);
            }
        }
        let d1 = lemma_items_parse(
            x,
            m,
            dd,
            xs,
            (n - 1) as nat,
            tail,
            sym,
            cx,
            st,
            w.take(k),
            more,
            c,
        );
        if here.len() == 0 {
            lemma_stepless(x.t, calls, e, near, sym, cx, mid, w.skip(k));
            assert(more =~= v);
            assert(steps =~= before);
            d1
        } else {
            lemma_past(x, c.state, before.len());
            let next = remaining::todo(x.p, d1.state);
            assert(next.take(here.len() as int) =~= here) by {
                assert forall|i: int| 0 <= i < here.len() implies next[i] == here[i] by {
                    assert(next[i] == todo[before.len() + i]);
                    assert(todo.take(steps.len() as int)[before.len() + i] == steps[
                        before.len() + i
                    ]);
                }
            }
            let d = lemma_parses(x, m, dd, e, near, sym, cx, mid, w.skip(k), v, d1);
            lemma_reaches(x.st, m, c, d1, d);
            d
        }
    }
}

/// What is mentioned in a part is mentioned in the whole.
proof fn lemma_mentioned(xs: Seq<ExprView>, i: int, name: Seq<char>)
    requires
        0 <= i < xs.len(),
        first_follow::mentions(xs[i], name),
    ensures
        first_follow::mentions(ExprView::Concat(xs), name),
        first_follow::mentions(ExprView::Alt(xs), name),
{
    let e = ExprView::Concat(xs);
    let f = ExprView::Alt(xs);
    assert(first_follow::mentions(e->Concat_0[i], name));
    assert(first_follow::mentions(f->Alt_0[i], name));
    assert(first_follow::mentions(e, name));
    assert(first_follow::mentions(f, name));
}

proof fn lemma_item_framed(
    x: World,
    xs: Seq<ExprView>,
    i: int,
    tail: Set<NameSeq>,
)
    requires
        built(x),
        0 <= i < xs.len(),
        framed(x, ExprView::Concat(xs), tail),
    ensures
        choices::decisive(
            x.ag,
            xs[i],
            choices::rest(x.ag, xs, i + 1, tail),
        ),
        choices::clear(x.ag, xs[i], choices::rest(x.ag, xs, i + 1, tail)),
        follow_k::follow_k_closed(
            xs[i],
            choices::rest(x.ag, xs, i + 1, tail),
            x.ag.nullable@,
            first_follow::firsts(x.ag.first),
            first_follow::firsts(x.ag.follow_k),
            x.ag.k as nat,
        ),
{
    let e = ExprView::Concat(xs);
    assert(e->Concat_0[i] == xs[i]);
    choices::lemma_item_clear(x.ag, xs, tail, i);
}

proof fn lemma_rest_short(x: World, xs: Seq<ExprView>, i: int, tail: Set<NameSeq>)
    requires
        built(x),
        0 <= i,
        choices::inside(x.ag, ExprView::Concat(xs)),
        tail.subset_of(choices::short(x.ag)),
    ensures
        choices::rest(x.ag, xs, i, tail).subset_of(choices::short(x.ag)),
    decreases xs.len() - i,
{
    if i < xs.len() {
        lemma_rest_short(x, xs, i + 1, tail);
        choices::lemma_short(x.ag);
        assert(choices::inside(x.ag, xs[i])) by {
            assert forall|name: Seq<char>| first_follow::mentions(xs[i], name) implies #[trigger]
                choices::sigma(x.ag).contains(name) by {
                lemma_mentioned(xs, i, name);
            }
        }
        first_follow::lemma_concat_bounded(
            program::first_in(x.ag, xs[i]),
            choices::rest(x.ag, xs, i + 1, tail),
            x.ag.k as nat,
            choices::sigma(x.ag),
            x.ag.k as nat,
        );
    }
}

/// What is ahead is foreseen for the alternative.
proof fn lemma_alternative(
    x: World,
    dd: nat,
    y: ExprView,
    tail: Set<NameSeq>,
    w: Seq<Mark>,
    v: Seq<Mark>,
)
    requires
        built(x),
        derivation::gives(x.t, derivation::deep(x.t, dd), y, w),
        expected(x, tail, v),
    ensures
        asks(x, choices::predicted(x.ag, y, tail), prefixes::token_kinds(w + v)),
        prefixes::token_kinds(w).len() > 0 ==> !program::first_in(x.ag, y).subset_of(
            first_follow::only_eps(),
        ),
        prefixes::token_kinds(w).len() == 0 ==> program::first_in(x.ag, y).contains(Seq::empty())
            && prefixes::token_kinds(w + v) == prefixes::token_kinds(v),
{
    let k = x.ag.k as nat;
    let first = program::first_in(x.ag, y);
    let some = first.remove(Seq::empty());
    let both = first_set::concat_k_of(first, tail, k);
    let none = Seq::<Mark>::empty();
    let look = window(prefixes::token_kinds(w + v), k);
    lemma_ahead(x, dd, y, tail, w, v);
    lemma_head(x, both, w + v, none);
    assert(w + v + none =~= w + v);
    lemma_head(x, first, w, v);
    let z = choose|s: Seq<u16>| #[trigger]
        choices::looks(x.t.tokens, both).contains(s) && dispatch::begins(look, s);
    let s = choose|s: NameSeq| #[trigger]
        both.contains(s) && s.len() > 0 && program::kinds_of(x.t.tokens, s) == z;
    assert(choices::predicted(x.ag, y, tail).contains(s));
    assert(choices::looks(x.t.tokens, choices::predicted(x.ag, y, tail)).contains(z));
    if prefixes::token_kinds(w).len() > 0 {
        let p = choose|p: NameSeq|
            some.contains(p) && #[trigger] program::kinds_of(x.t.tokens, p)
                == prefixes::first_kinds(prefixes::token_kinds(w), k);
        assert(program::kinds_of(x.t.tokens, p).len() == p.len());
        assert(first.contains(p));
        assert(!first_follow::only_eps().contains(p));
    } else {
        assert(prefixes::token_kinds(w + v) =~= prefixes::token_kinds(v));
    }
}

/// Alternatives are parsed.
proof fn lemma_alt_parses(
    x: World,
    m: TableMatcher,
    dd: nat,
    xs: Seq<ExprView>,
    tail: Set<NameSeq>,
    sym: Seq<char>,
    cx: Within,
    st: Built,
    w: Seq<Mark>,
    v: Seq<Mark>,
    c: CursorView,
) -> (d: CursorView)
    requires
        can_parse(x, m, dd, ExprView::Alt(xs), tail, w, v, c),
        cx.ag == x.ag,
        laid(x, st, program::emit_arms(xs, xs.len(), tail, sym, cx, st).1),
        remaining::in_plan(x.p, c.state),
        remaining::todo(x.p, c.state).len() > 0,
        remaining::todo(x.p, c.state)[0].0 == OpView::Dispatch(
            program::emit_arms(xs, xs.len(), tail, sym, cx, st).0,
            program::any_eps(x.ag, xs),
            cx.sync,
        ),
    ensures
        has_parsed(x, m, c, v, d),
        past(x, c.state, 1, c.ret, d),
    decreases dd, xs, 0nat, 0nat,
{
    let e = ExprView::Alt(xs);
    let k = x.ag.k as nat;
    let arms = program::emit_arms(xs, xs.len(), tail, sym, cx, st).0;
    let eps = program::any_eps(x.ag, xs);
    let calls = derivation::deep(x.t, dd);
    let ts = prefixes::token_kinds(w + v);
    let look = window(ts, k);
    let cont = sentences::cont_of(x.p, c.state);
    let plain = exists|i: int|
        0 <= i < xs.len() && derivation::gives(x.t, calls, #[trigger] xs[i], w);
    let (i, u): (int, Seq<Mark>) = if plain {
        (
            choose|i: int|
                0 <= i < xs.len() && derivation::gives(x.t, calls, #[trigger] xs[i], w),
            w,
        )
    } else {
        choose|i: int, u: Seq<Mark>|
            0 <= i < xs.len() && derivation::gives(x.t, calls, #[trigger] xs[i], u)
                && #[trigger] derivation::tokenless(u)
    };
    assert(derivation::gives(x.t, calls, xs[i], u));
    prefixes::lemma_kinds_joined(w, v);
    prefixes::lemma_kinds_joined(u, v);
    if !plain {
        prefixes::lemma_tokenless(u);
        assert(prefixes::token_kinds(u) =~= prefixes::token_kinds(w));
    }
    assert(prefixes::token_kinds(u + v) == ts);
    assert(e->Alt_0[i] == xs[i]);
    lemma_alternative(x, dd, xs[i], tail, u, v);
    let (idx, places) = lemma_arms_laid(x, xs, xs.len(), tail, sym, cx, st);
    let c1 = lemma_ready(x.st, m, c, ts);
    let states = layout::arm_states(x.p, arms);
    let entries = dispatch::arm_entries(states, x.p.pool);
    let outer = dispatch::outer_default(eps);
    let tree = dispatch::dispatch_tree(states, x.p.pool, eps);
    assert forall|j: int| 0 <= j < arms.len() implies (#[trigger] arms[j]).0
        < x.p.pool.len() by {
        assert(arm_laid(x, cx, xs[idx[j]], tail, arms[j], places[j].0, places[j].1));
    }
    assert forall|j: int| 0 <= j < arms.len() implies choices::predicted(
        x.ag,
        xs[#[trigger] idx[j]],
        tail,
    ).subset_of(choices::short(x.ag)) by {
        lemma_predicted_short(x, xs, idx[j], tail);
    }
    assert forall|q: int| 0 <= q < entries.len() implies (#[trigger] entries[q]).0.len() <= k by {
        let j = lemma_entry_arm(x, arms, q);
        lemma_arm_row(x, cx, xs[idx[j]], tail, arms[j], places[j].0, places[j].1);
    }
    lemma_longest(entries, k);
    sentences::lemma_no_instr(x.st, c1, TailView::Dispatch(tree, cx.sync, cont, Seq::empty()));
    assert forall|n: int| 0 <= n < look.len() implies parser::look_kind(c1, n) == Some(
        #[trigger] look[n],
    ) by {
        assert(c1.look[n].kind == Some(seen(ts, n)));
    }
    lemma_decided(
        x.st,
        c1,
        entries,
        0,
        outer,
        dispatch::longest(entries),
        look,
        cx.sync,
        cont,
        Seq::empty(),
    );
    let leaf = dispatch::decided(tree, look);
    dispatch::law_dispatch_follows_first_sets(states, x.p.pool, eps, look);
    if exists|q: int|
        0 <= q < entries.len() && dispatch::begins(look, #[trigger] entries[q].0) && leaf
            == dispatch::arm_leaf(entries[q].1) {
        let q = choose|q: int|
            0 <= q < entries.len() && dispatch::begins(look, #[trigger] entries[q].0) && leaf
                == dispatch::arm_leaf(entries[q].1);
        let j = lemma_entry_arm(x, arms, q);
        let y = xs[idx[j]];
        assert(arm_laid(x, cx, y, tail, arms[j], places[j].0, places[j].1));
        lemma_arm_row(x, cx, y, tail, arms[j], places[j].0, places[j].1);
        assert(asks(x, choices::predicted(x.ag, y, tail), ts)) by {
            assert(choices::looks(x.t.tokens, choices::predicted(x.ag, y, tail)).contains(
                entries[q].0,
            ));
        }
        assert(idx[j] == i) by {
            let f = choices::predicted(x.ag, xs[i], tail);
            let g = choices::predicted(x.ag, xs[idx[j]], tail);
            assert(e->Alt_0[idx[j]] == xs[idx[j]]);
            lemma_predicted_short(x, xs, i, tail);
            lemma_predicted_short(x, xs, idx[j], tail);
            if i < idx[j] {
                choices::lemma_arms_apart(x.ag, xs, tail, i, idx[j]);
                lemma_not_both(x, f, g, ts);
            } else if idx[j] < i {
                choices::lemma_arms_apart(x.ag, xs, tail, idx[j], i);
                lemma_not_both(x, g, f, ts);
            }
        }
        let t = arms[j].1;
        sentences::lemma_jumps(x.st, parser::calling(c1, cont), layout::state_of(x.p, t));
        lemma_does(x, m, c1);
        let c2 = parser::at_state(parser::calling(c1, cont), layout::state_of(x.p, t));
        assert(remaining::op_arrives(x.p, remaining::todo(x.p, c.state)[0].0));
        assert(remaining::arrives(x.p, arms[j].1));
        assert(framed(x, y, tail)) by {
            assert forall|name: Seq<char>| first_follow::mentions(y, name) implies #[trigger]
                choices::sigma(x.ag).contains(name) by {
                lemma_mentioned(xs, i, name);
            }
            choices::lemma_arm_clear(x.ag, xs, tail, i);
        }
        let d = lemma_block_parses(
            x,
            m,
            dd,
            y,
            tail,
            places[j].0,
            cx,
            places[j].1,
            u,
            v,
            c2,
        );
        lemma_back(x, c1, d);
        lemma_reaches(x.st, m, c1, c2, d);
        lemma_reaches(x.st, m, c, c1, d);
        d
    } else {
        if prefixes::token_kinds(u).len() > 0 {
            assert(program::first_in(x.ag, xs[i]) == program::first_in(cx.ag, xs[i]));
            assert(idx.contains(i));
            let j = choose|j: int| 0 <= j < idx.len() && idx[j] == i;
            assert(arm_laid(x, cx, xs[idx[j]], tail, arms[j], places[j].0, places[j].1));
            lemma_arm_row(x, cx, xs[i], tail, arms[j], places[j].0, places[j].1);
            let s = choose|s: Seq<u16>| #[trigger]
                choices::looks(x.t.tokens, choices::predicted(x.ag, xs[i], tail)).contains(s)
                    && dispatch::begins(look, s);
            let q = lemma_arm_entry(x, arms, j, s);
            assert(dispatch::begins(look, entries[q].0));
        }
        assert(eps);
        lemma_does(x, m, c1);
        let d = parser::go_on(c1, cont);
        lemma_next(x, c1, c1);
        lemma_reaches(x.st, m, c, c1, d);
        d
    }
}

/// What an arm is taken on: the sequences that are foreseen.
proof fn lemma_arm_row(
    x: World,
    cx: Within,
    y: ExprView,
    tail: Set<NameSeq>,
    arm: (u32, TargetView),
    label: Seq<char>,
    st: Built,
)
    requires
        built(x),
        arm_laid(x, cx, y, tail, arm, label, st),
        choices::predicted(x.ag, y, tail).subset_of(choices::short(x.ag)),
    ensures
        ({
            let row = program::first_rows(x.p.pool)[arm.0 as int];
            let h = choices::looks(x.t.tokens, choices::predicted(x.ag, y, tail));
            &&& forall|s: Seq<u16>| #[trigger] row.contains(s) <==> h.contains(s)
            &&& forall|s: Seq<u16>| #[trigger] row.contains(s) ==> s.len() <= x.ag.k
        }),
{
    choices::lemma_short(x.ag);
    choices::lemma_row(
        x.t.tokens,
        choices::predicted(x.ag, y, tail),
        choices::sigma(x.ag),
        x.ag.k as nat,
    );
}

proof fn lemma_predicted_short(
    x: World,
    xs: Seq<ExprView>,
    i: int,
    tail: Set<NameSeq>,
)
    requires
        built(x),
        0 <= i < xs.len(),
        framed(x, ExprView::Alt(xs), tail),
    ensures
        choices::predicted(x.ag, xs[i], tail).subset_of(choices::short(x.ag)),
{
    choices::lemma_short(x.ag);
    assert(choices::inside(x.ag, xs[i])) by {
        assert forall|name: Seq<char>| first_follow::mentions(xs[i], name) implies #[trigger]
            choices::sigma(x.ag).contains(name) by {
            lemma_mentioned(xs, i, name);
        }
    }
    first_follow::lemma_concat_bounded(
        program::first_in(x.ag, xs[i]),
        tail,
        x.ag.k as nat,
        choices::sigma(x.ag),
        x.ag.k as nat,
    );
}

/// A rule is parsed.
proof fn lemma_rule_parses(
    x: World,
    m: TableMatcher,
    dd: nat,
    i: int,
    w: Seq<Mark>,
    v: Seq<Mark>,
    c: CursorView,
) -> (d: CursorView)
    requires
        built(x),
        0 <= i < x.t.rules.len(),
        derivation::rule_gives(x.t, derivation::deep(x.t, dd), x.t.rules[i], w),
        expected(
            x,
            first_follow::set_at(first_follow::firsts(x.ag.follow_k), x.t.rules[i].name),
            v,
        ),
        awaits(x.st, m, c, prefixes::token_kinds(w + v)),
        remaining::arrives(x.p, TargetView::Rule(x.t.rules[i].name)),
        c.state == layout::state_of(x.p, TargetView::Rule(x.t.rules[i].name)),
    ensures
        has_parsed(x, m, c, v, d),
        popped(c.ret, d),
    decreases dd, x.t.rules[i].body, 4nat, 0nat,
{
    let rules = x.ag.grammar.rule_list();
    let rule = rules[i];
    let cx = runs::rule_cx(x.ag, i);
    let reserved = runs::rule_start(x.ag, i);
    let tail = runs::rule_tail(x.ag, rule);
    let next = program::lowered_rules(x.ag, (i + 1) as nat).0;
    let (body, after) = program::emit(rule.body, tail, rule.name, cx, reserved);
    let at = program::lowered_rules(x.ag, i as nat).0.blocks.len() as int;
    runs::lemma_next_rule(x.ag, i);
    runs::lemma_rules_behind(x.ag, (i + 1) as nat, rules.len());
    runs::lemma_entry(x.ag, rules.len(), i);
    decided::lemma_rules_extend(x.ag, (i + 1) as nat, rules.len());
    assert(x.p.blocks[at] == next.blocks[at]);
    assert(laid(x, reserved, after)) by {
        assert forall|j: int| reserved.blocks.len() <= j < after.blocks.len() implies #[trigger]
            x.p.blocks[j] == after.blocks[j] by {
            assert(x.p.blocks[j] == next.blocks[j]);
            assert(next.blocks[j] == after.blocks[j]);
        }
    }
    choices::lemma_short(x.ag);
    assert(framed(x, rule.body, tail)) by {
        assert forall|name: Seq<char>| first_follow::mentions(rule.body, name) implies #[trigger]
            choices::sigma(x.ag).contains(name) by {
            assert(first_follow::mentions(rules[i].body, name));
            assert(first_follow::rules_alphabet(rules).contains(name));
        }
        assert(choices::decisive(x.ag, rules[i].body, tail));
        assert(choices::clear(x.ag, rules[i].body, tail));
        assert(follow_k::follow_k_holds(
            rules,
            x.ag.k as nat,
            x.ag.nullable@,
            first_follow::firsts(x.ag.first),
            first_follow::firsts(x.ag.follow_k),
        ));
        assert(rules[i].body == rule.body);
    }
    let todo = remaining::todo(x.p, c.state);
    assert(todo == x.p.blocks[at].steps);
    if rule.is_fragment {
        assert(todo.take(body.len() as int) =~= body);
        if body.len() > 0 {
            lemma_parses(x, m, dd, rule.body, tail, rule.name, cx, reserved, w, v, c)
        } else {
            lemma_stepless(
                x.t,
                derivation::deep(x.t, dd),
                rule.body,
                tail,
                rule.name,
                cx,
                reserved,
                w,
            );
            assert(w + v =~= v);
            lemma_returns(x, m, c, prefixes::token_kinds(v))
        }
    } else {
        let inside = w.subrange(1, w.len() - 1);
        let ts = prefixes::token_kinds(w + v);
        let a = seq![w[0]];
        let b = seq![w.last()];
        assert(w =~= a + inside + b);
        prefixes::lemma_kinds_joined(w, v);
        prefixes::lemma_kinds_joined(a + inside, b);
        prefixes::lemma_kinds_joined(a, inside);
        prefixes::lemma_kinds_joined(inside, v);
        prefixes::lemma_one_kind(w[0]);
        prefixes::lemma_one_kind(w.last());
        assert(ts =~= prefixes::token_kinds(inside + v));
        let c1 = lemma_marked(x, m, c, ts);
        lemma_past(x, c.state, 1);
        let todo1 = remaining::todo(x.p, c1.state);
        assert(todo1.take(body.len() as int) =~= body);
        let c2 = lemma_parses(
            x,
            m,
            dd,
            rule.body,
            tail,
            rule.name,
            cx,
            reserved,
            inside,
            v,
            c1,
        );
        lemma_past(x, c1.state, body.len());
        let todo2 = remaining::todo(x.p, c2.state);
        assert(todo2.len() == 1);
        assert(todo2[0] == todo[body.len() as int + 1]);
        let d = lemma_marked(x, m, c2, prefixes::token_kinds(v));
        lemma_reaches(x.st, m, c1, c2, d);
        lemma_reaches(x.st, m, c, c1, d);
        d
    }
}

/// What was gone through without an error gave no error.
proof fn lemma_gone(st: StateTable, m: TableMatcher, c: CursorView, d: CursorView, j: nat)
    requires
        goes(st, m, c, d, j),
    ensures
        laws::after_turns(st, m, false, at(c), j) == at(d),
        tree::clean(parser::events_within(st, m, false, at(c), j)),
    decreases j,
{
    if j > 0 {
        let (q, t) = parser::turn(st, m, false, at(c));
        assert(q == at(q.cursor));
        lemma_gone(st, m, q.cursor, d, (j - 1) as nat);
        if let TurnView::Event(e) = t {
            let rest = parser::events_within(st, m, false, q, (j - 1) as nat);
            let all = seq![e] + rest;
            assert forall|i: int| 0 <= i < all.len() implies !((#[trigger] all[i]) is Error) by {
                if i > 0 {
                    assert(all[i] == rest[i - 1]);
                }
            }
        }
    }
}

/// The text, from an entry point on, is parsed to its end without an error.
pub open spec fn accepts(st: StateTable, m: TableMatcher, src: Seq<char>, i: int, n: nat) -> bool {
    let p = parser::started(src, st.entry_states@[i].1);
    &&& tree::clean(parser::events_within(st, m, false, p, n))
    &&& parser::turn(st, m, false, laws::after_turns(st, m, false, p, n)).1 is Done
}

/// The text consists of the tokens that the marks speak of, and of tokens that
/// are skipped.
pub open spec fn spells(st: StateTable, m: TableMatcher, src: Seq<char>, w: Seq<Mark>) -> bool {
    let lex = ScanView { buf: vstd::utf8::encode_utf8(src), pos: 0, modes: seq![0u32] };
    exists|n: nat| #[trigger]
        reads(st, m, lex, prefixes::token_kinds(w) + seq![TOKEN_EOF], n)
}

/// Where the analysis finds a lookahead, and it tells every option and every
/// round of a loop from what comes behind it, the table that the grammar is laid
/// out as takes every sentence of an entry rule without an error. The lookahead
/// is no longer than a switch can count.
pub proof fn law_laid_out_takes_every_sentence(
    st: StateTable,
    prog: Program,
    ag: AnalyzedGrammar,
    dopts: DfaOpts,
    m: TableMatcher,
    src: Seq<char>,
    i: int,
    w: Seq<Mark>,
)
    requires
        ag.wf(),
        pipeline::lowerable(ag),
        runs::names_apart(ag.grammar.rule_list()),
        lookahead::solved_at(ag.grammar.rule_list(), ag.k as nat),
        choices::options_told(ag),
        choices::tokens_known(ag),
        ag.k <= 256,
        program::kind_of(ag.grammar.token_list(), EOF_MARKER@) == TOKEN_EOF,
        program::is_program(prog, ag),
        layout::is_layout(st, prog, ag, dopts),
        0 <= i < st.entry_states@.len(),
        derivation::derives(sentences::terms_of(ag, st), st.entry_states@[i].0@, w),
        spells(st, m, src, w),
    ensures
        exists|n: nat| #[trigger] accepts(st, m, src, i, n),
{
    let rules = ag.grammar.rule_list();
    let t = sentences::terms_of(ag, st);
    let p = layout::plan_of(prog);
    let x = World { st, ag, p, t };
    closed::law_program_is_closed(prog, ag);
    pipeline::lemma_slots(prog, ag);
    remaining::lemma_plan_arrives(prog);
    choices::lemma_solved(ag);
    assert(built(x)) by {
        assert(program::first_rows(p.pool).len() == p.pool.len());
    }
    let name = st.entry_states@[i].0@;
    let e = st.entry_states@[i].1;
    sentences::lemma_entry_name(prog, prog.rule_order@.len(), i);
    assert(layout::entries_view(st.entry_states@)[i] == (name, e));
    remaining::lemma_rule_arrives(prog, name);
    let dd = choose|d: nat| #[trigger] derivation::derived_at(t, name, w, d);
    let calls = derivation::deep(t, (dd - 1) as nat);
    assert(derivation::derived_at(t, name, w, dd));
    assert(derivation::named_gives(t, calls, name, w));
    let r = choose|r: int|
        0 <= r < t.rules.len() && (#[trigger] t.rules[r]).name == name && derivation::rule_gives(
            t,
            calls,
            t.rules[r],
            w,
        );
    let v = seq![Mark::Token(TOKEN_EOF, None)];
    let fo = first_follow::set_at(first_follow::firsts(ag.follow_k), name);
    prefixes::lemma_one_kind(v[0]);
    prefixes::lemma_kinds_joined(w, v);
    assert(expected(x, fo, v)) by {
        let s = seq![EOF_MARKER@];
        assert(follow::only_eof().contains(s));
        assert(follow::only_eof().subset_of(
            first_follow::set_at(first_follow::firsts(ag.follow_k), rules[r].name),
        ));
        assert(fo.contains(s));
        assert(program::kinds_of(t.tokens, s) =~= prefixes::first_kinds(
            prefixes::token_kinds(v),
            ag.k as nat,
        ));
    }
    let c = parser::started(src, e).cursor;
    assert(awaits(st, m, c, prefixes::token_kinds(w + v))) by {
        let n = choose|n: nat| #[trigger]
            reads(st, m, c.lex, prefixes::token_kinds(w) + seq![TOKEN_EOF], n);
        let ts = prefixes::token_kinds(w + v);
        assert(reads(st, m, c.lex, ts, n));
        lemma_read(st, m, c.lex, ts, n);
        assert(ts.skip(0) =~= ts);
        assert(rest_reads(st, m, c.lex, ts));
    }
    let d = lemma_rule_parses(x, m, (dd - 1) as nat, r, w, v, c);
    let f = lemma_ready(st, m, d, prefixes::token_kinds(v));
    lemma_reaches(st, m, c, d, f);
    let n = choose|n: nat| #[trigger] goes(st, m, c, f, n);
    lemma_gone(st, m, c, f, n);
    assert(parser::started(src, e) == at(c));
    assert(f.look[0].kind == Some(seen(prefixes::token_kinds(v), 0)));
    assert(parser::turn(st, m, false, at(f)).1 is Done);
    assert(accepts(st, m, src, i, n));
}

/// A parse that is over stays as it is.
proof fn lemma_over(st: StateTable, m: TableMatcher, p: ParserView, n: nat, k: nat)
    requires
        n <= k,
        parser::turn(st, m, false, laws::after_turns(st, m, false, p, n)).1 is Done,
    ensures
        parser::events_within(st, m, false, p, k) == parser::events_within(st, m, false, p, n),
        parser::turn(st, m, false, laws::after_turns(st, m, false, p, k)).1 is Done,
    decreases k,
{
    let (q, t) = parser::turn(st, m, false, p);
    if t is Done {
        laws::law_done_is_final(st, m, false, p);
        if k > 0 {
            lemma_over(st, m, p, 0, (k - 1) as nat);
        }
    } else {
        lemma_over(st, m, q, (n - 1) as nat, (k - 1) as nat);
    }
}

/// What is clean was clean before.
proof fn lemma_within(st: StateTable, m: TableMatcher, p: ParserView, k: nat, n: nat)
    requires
        k <= n,
        tree::clean(parser::events_within(st, m, false, p, n)),
    ensures
        tree::clean(parser::events_within(st, m, false, p, k)),
    decreases k,
{
    if k > 0 {
        let (q, t) = parser::turn(st, m, false, p);
        match t {
            TurnView::Event(e) => {
                let rest = parser::events_within(st, m, false, q, (n - 1) as nat);
                tree::lemma_clean_parts(seq![e], rest);
                lemma_within(st, m, q, (k - 1) as nat, (n - 1) as nat);
                let some = parser::events_within(st, m, false, q, (k - 1) as nat);
                let all = seq![e] + some;
                assert(!(seq![e][0] is Error));
                assert forall|i: int| 0 <= i < all.len() implies !((#[trigger] all[i])
                    is Error) by {
                    if i > 0 {
                        assert(all[i] == some[i - 1]);
                    }
                }
            },
            TurnView::Again => lemma_within(st, m, q, (k - 1) as nat, (n - 1) as nat),
            TurnView::Done => {},
        }
    }
}

/// What a text consists of depends on the tokens only.
proof fn lemma_same_tokens(
    a: StateTable,
    b: StateTable,
    m: TableMatcher,
    lex: ScanView,
    ts: Seq<u16>,
    n: nat,
)
    requires
        a.tokens == b.tokens,
    ensures
        reads(a, m, lex, ts, n) == reads(b, m, lex, ts, n),
    decreases n,
{
    if n > 0 {
        assert(behind_next(a, m, lex) == behind_next(b, m, lex));
        lemma_same_tokens(a, b, m, behind_next(a, m, lex), ts, (n - 1) as nat);
        lemma_same_tokens(a, b, m, behind_next(a, m, lex), ts.skip(1), (n - 1) as nat);
    }
}

/// Where the analysis finds a lookahead, and it tells every option and every
/// round of a loop from what comes behind it, the table that the grammar is
/// lowered to takes every sentence of an entry rule without an error. The
/// lookahead is no longer than a switch can count.
pub proof fn law_every_sentence_is_accepted(
    r: StateTable,
    ag: AnalyzedGrammar,
    opts: LoweringOpts,
    dopts: DfaOpts,
    m: TableMatcher,
    src: Seq<char>,
    i: int,
    w: Seq<Mark>,
)
    requires
        ag.wf(),
        pipeline::lowerable(ag),
        runs::names_apart(ag.grammar.rule_list()),
        lookahead::solved_at(ag.grammar.rule_list(), ag.k as nat),
        choices::options_told(ag),
        choices::tokens_known(ag),
        ag.k <= 256,
        program::kind_of(ag.grammar.token_list(), EOF_MARKER@) == TOKEN_EOF,
        pipeline::is_lowered(r, ag, opts, dopts),
        0 <= i < r.entry_states@.len(),
        derivation::derives(sentences::terms_of(ag, r), r.entry_states@[i].0@, w),
        spells(r, m, src, w),
    ensures
        exists|n: nat| #[trigger] accepts(r, m, src, i, n),
{
    let (prog, laid): (Program, StateTable) = choose|prog: Program, laid: StateTable|
        program::is_program(prog, ag) && #[trigger] layout::is_layout(laid, prog, ag, dopts)
            && pipeline::finished(r, laid, opts);
    let last = optimize::rounds(
        laid.states@,
        optimize::entry_set(laid.entry_states@),
        opts,
        usize::MAX as nat,
    );
    let (mid, f): (StateTable, Firsts) = choose|mid: StateTable, f: Firsts|
        {
            &&& mid == (StateTable {
                states: mid.states,
                entry_states: mid.entry_states,
                ..laid
            })
            &&& mid.states@ == optimize::compacted(last)
            &&& layout::entries_view(mid.entry_states@) == optimize::entries_renumbered(
                last,
                layout::entries_view(laid.entry_states@),
            )
            &&& #[trigger] state_first::is_first(mid, f)
            &&& r == (StateTable { states: r.states, first_sets: r.first_sets, ..mid })
            &&& r.states@ == recovery::stamped(mid, f)
            &&& pipeline::marked(r.first_sets@, laid.first_sets@, r)
        };
    closed::law_program_is_closed(prog, ag);
    pipeline::lemma_slots(prog, ag);
    let p = layout::plan_of(prog);
    let o = nesting::plan_owed(p);
    nesting::law_layout_is_level(prog, ag);
    optimized::law_layout_is_sound(prog, ag);
    layout::lemma_state_ids(p, p.order.len());
    let before = layout::entries_view(laid.entry_states@);
    let after = layout::entries_view(r.entry_states@);
    assert(before.len() == laid.entry_states@.len());
    assert(after.len() == r.entry_states@.len());
    assert(before[i] == (laid.entry_states@[i].0@, laid.entry_states@[i].1));
    assert(after[i] == (r.entry_states@[i].0@, r.entry_states@[i].1));
    sentences::lemma_entry_name(prog, prog.rule_order@.len(), i);
    let name = before[i].0;
    assert(after[i].0 == name);
    let l = names::list_view(prog.rule_order@);
    let j = choose|j: int| 0 <= j < l.len() && l[j] == name;
    assert(prog.rule_order@[j]@ == name);
    assert(o.contains_key(laid.entry_states@[i].1));
    assert forall|id: u32| #[trigger] parser::first_seqs(r, id) == parser::first_seqs(mid, id) by {
        if id < r.first_sets@.len() {
            assert(r.first_sets@[id as int].id == laid.first_sets@[id as int].id);
        }
    }
    let lex = ScanView { buf: vstd::utf8::encode_utf8(src), pos: 0, modes: seq![0u32] };
    let ts = prefixes::token_kinds(w) + seq![TOKEN_EOF];
    let tries = choose|n: nat| #[trigger] reads(r, m, lex, ts, n);
    lemma_same_tokens(r, laid, m, lex, ts, tries);
    assert(spells(laid, m, src, w));
    law_laid_out_takes_every_sentence(laid, prog, ag, dopts, m, src, i, w);
    let n = choose|n: nat| #[trigger] accepts(laid, m, src, i, n);
    let u = parser::started(src, laid.entry_states@[i].1);
    assert forall|k: nat| tree::clean(#[trigger] parser::events_within(laid, m, false, u, k)) by {
        if k >= n {
            lemma_over(laid, m, u, n, k);
        } else {
            lemma_within(laid, m, u, k, n);
        }
    }
    optimized::law_optimizing_keeps_events(laid, mid, opts, o, m, false, src, i, n);
    let v = parser::started(src, r.entry_states@[i].1);
    let k = choose|k: nat| #[trigger] optimized::gives_as(laid, mid, m, false, u, v, n, k);
    lemma_over(laid, m, u, n, k);
    stamping::law_stamping_keeps_clean_events(mid, r, f, m, false, v, n);
    assert(accepts(r, m, src, i, n));
}

/// A grammar that passes the analysis is lowered to a table that takes every
/// sentence of an entry rule without an error, where the lookahead that the
/// analysis has found also tells options and rounds of loops from what comes
/// behind them. Rules and tokens stand under their names, none of which is that
/// of the end of input, and the counts fit their integers.
pub proof fn law_analyzed_grammars_accept_their_sentences(
    g: Grammar,
    o: AnalysisOutcome,
    ag: AnalyzedGrammar,
    r: StateTable,
    opts: LoweringOpts,
    dopts: DfaOpts,
    m: TableMatcher,
    src: Seq<char>,
    i: int,
    w: Seq<Mark>,
)
    requires
        check::well_named(g.token_map()),
        closed::rules_named(g.rule_map()),
        g.token_list().len() <= u16::MAX,
        program::kind_of(g.token_list(), EOF_MARKER@) == TOKEN_EOF,
        analysis::analyzed(g, o),
        o.grammar == Some(ag),
        choices::options_told(ag),
        ag.k <= 256,
        pipeline::tokens_ok(g),
        closed::ids_suffice(ag),
        pipeline::slots_suffice(ag),
        pipeline::is_lowered(r, ag, opts, dopts),
        0 <= i < r.entry_states@.len(),
        derivation::derives(sentences::terms_of(ag, r), r.entry_states@[i].0@, w),
        spells(r, m, src, w),
    ensures
        exists|n: nat| #[trigger] accepts(r, m, src, i, n),
{
    choices::law_checked_names_are_known(ag);
    closed::law_checked_rules_are_defined(g);
    law_every_sentence_is_accepted(r, ag, opts, dopts, m, src, i, w);
}

/// Tokens and rules of a grammar file stand under their names, and no token has
/// the name of the end of input.
proof fn lemma_file_names(text: Seq<char>, g: Grammar)
    requires
        grammar_file::parsed(text, Ok(g)),
    ensures
        check::well_named(g.token_map()),
        closed::rules_named(g.rule_map()),
        program::kind_of(g.token_list(), EOF_MARKER@) == TOKEN_EOF,
{
    let names = program::kind_names(g.token_list());
    grammar_file::law_parsed_grammars_are_named_well(text, g);
    program::lemma_place(names, EOF_MARKER@);
    if names.contains(EOF_MARKER@) {
        let i = choices::lemma_kinds_are_tokens(g.token_list(), EOF_MARKER@);
        reveal_strlit("$EOF");
        assert(g.token_map()[i].0 == EOF_MARKER@);
        assert(grammar_file::names_token(EOF_MARKER@));
    }
}

/// The same from the text of a grammar file on: a file that is parsed, passes
/// the analysis and is lowered gives a table that takes every sentence of an
/// entry rule without an error.
pub proof fn law_grammar_files_accept_their_sentences(
    text: Seq<char>,
    g: Grammar,
    o: AnalysisOutcome,
    ag: AnalyzedGrammar,
    r: StateTable,
    opts: LoweringOpts,
    dopts: DfaOpts,
    m: TableMatcher,
    src: Seq<char>,
    i: int,
    w: Seq<Mark>,
)
    requires
        grammar_file::parsed(text, Ok(g)),
        g.token_list().len() <= u16::MAX,
        analysis::analyzed(g, o),
        o.grammar == Some(ag),
        choices::options_told(ag),
        ag.k <= 256,
        pipeline::tokens_ok(g),
        closed::ids_suffice(ag),
        pipeline::slots_suffice(ag),
        pipeline::is_lowered(r, ag, opts, dopts),
        0 <= i < r.entry_states@.len(),
        derivation::derives(sentences::terms_of(ag, r), r.entry_states@[i].0@, w),
        spells(r, m, src, w),
    ensures
        exists|n: nat| #[trigger] accepts(r, m, src, i, n),
{
    lemma_file_names(text, g);
    law_analyzed_grammars_accept_their_sentences(g, o, ag, r, opts, dopts, m, src, i, w);
}

} // verus!
