//! What the lexer of a lowered grammar finds, in terms of the grammar.
use vstd::prelude::*;

use crate::analysis::token_laws;
use crate::analysis::validate;
use crate::analysis::{self, AnalysisOutcome, AnalyzedGrammar};
use crate::grammar::ir::{Grammar, ModeActionView, TokenView};
use crate::grammar::resolve;
use crate::lowering::language;
use crate::lowering::layout;
use crate::lowering::lexer_dfa::{self, DfaOpts};
use crate::lowering::nfa;
use crate::lowering::optimize::LoweringOpts;
use crate::lowering::pipeline;
use crate::lowering::program::{self, Program};
use crate::lowering::table::{ModeActionInfo, StateTable, TokenInfo};
use crate::names;
use crate::runtime::lexer;
use crate::runtime::lexing;

verus! {

/// The token at position `i` is looked for in the mode, and matches `w`.
pub open spec fn competes(g: Grammar, i: int, mode: Seq<char>, w: Seq<u8>) -> bool {
    &&& 0 <= i < g.token_list().len()
    &&& !g.token_list()[i].is_fragment
    &&& g.token_list()[i].modes.contains(mode)
    &&& language::lang(resolve::resolved(g.token_list()[i].pattern, g.token_map()), w)
}

/// Of the tokens that are looked for in the mode and match `w`, the one at
/// position `i` is declared first.
pub open spec fn wins(g: Grammar, i: int, mode: Seq<char>, w: Seq<u8>) -> bool {
    &&& competes(g, i, mode, w)
    &&& forall|j: int| 0 <= j < i ==> !#[trigger] competes(g, j, mode, w)
}

/// What the table says of a token kind is what the grammar says of the token at
/// position `i`.
pub open spec fn stands_for(r: StateTable, k: u16, t: TokenView) -> bool {
    &&& 0 < k <= r.tokens@.len()
    &&& r.tokens@[k - 1].name@ == t.name
    &&& r.tokens@[k - 1].display_name@ == t.name
    &&& r.tokens@[k - 1].skip == t.skip
    &&& r.tokens@[k - 1].mode_actions@.len() == t.mode_actions.len()
    &&& forall|a: int|
        0 <= a < t.mode_actions.len() ==> match t.mode_actions[a] {
            ModeActionView::Pop => (#[trigger] r.tokens@[k - 1].mode_actions@[a])
                == ModeActionInfo::Pop,
            ModeActionView::Push(n) => r.tokens@[k - 1].mode_actions@[a] matches ModeActionInfo::Push(
                id,
            ) && id < r.modes@.len() && r.modes@[id as int].name@ == n,
        }
}

/// Which kind the token at position `i` gets.
spec fn rank_of(tokens: Seq<TokenView>, i: int) -> nat {
    program::kind_defs(tokens.take(i)).len()
}

proof fn lemma_kind_defs(tokens: Seq<TokenView>, i: int)
    requires
        0 <= i < tokens.len(),
        !tokens[i].is_fragment,
    ensures
        rank_of(tokens, i) < program::kind_defs(tokens).len(),
        program::kind_defs(tokens)[rank_of(tokens, i) as int] == tokens[i],
    decreases tokens.len(),
{
    let p = tokens.drop_last();
    if i == tokens.len() - 1 {
        assert(tokens.take(i) =~= p);
    } else {
        lemma_kind_defs(p, i);
        assert(p.take(i) =~= tokens.take(i));
    }
}

proof fn lemma_rank_grows(tokens: Seq<TokenView>, i: int, j: int)
    requires
        0 <= i < j <= tokens.len(),
        !tokens[i].is_fragment,
    ensures
        rank_of(tokens, i) < rank_of(tokens, j),
    decreases j,
{
    let t = tokens.take(j);
    assert(t.drop_last() =~= tokens.take(j - 1));
    assert(t.last() == tokens[j - 1]);
    if i < j - 1 {
        lemma_rank_grows(tokens, i, j - 1);
    }
}

proof fn lemma_kind_has_token(tokens: Seq<TokenView>, q: int) -> (i: int)
    requires
        0 <= q < program::kind_defs(tokens).len(),
    ensures
        0 <= i < tokens.len(),
        !tokens[i].is_fragment,
        rank_of(tokens, i) == q,
        program::kind_defs(tokens)[q] == tokens[i],
    decreases tokens.len(),
{
    let p = tokens.drop_last();
    if q < program::kind_defs(p).len() {
        let i = lemma_kind_has_token(p, q);
        assert(p.take(i) =~= tokens.take(i));
        i
    } else {
        assert(tokens.take(tokens.len() - 1) =~= p);
        tokens.len() - 1
    }
}

/// No two entries are the same.
pub open spec fn distinct(l: Seq<Seq<char>>) -> bool {
    forall|i: int, j: int| 0 <= i < j < l.len() ==> #[trigger] l[i] != #[trigger] l[j]
}

proof fn lemma_joined(l: Seq<Seq<char>>, x: Seq<char>)
    requires
        distinct(l),
    ensures
        distinct(program::joined(l, x)),
        program::joined(l, x).contains(x),
        forall|y: Seq<char>| #[trigger] l.contains(y) ==> program::joined(l, x).contains(y),
{
    program::lemma_place(l, x);
    let r = program::joined(l, x);
    if program::place(l, x) < l.len() {
        assert(r[program::place(l, x)] == x);
    } else {
        assert(r[l.len() as int] == x);
    }
    assert forall|y: Seq<char>| #[trigger] l.contains(y) implies r.contains(y) by {
        let i = choose|i: int| 0 <= i < l.len() && l[i] == y;
        assert(r[i] == y);
    }
}

proof fn lemma_joined_all(l: Seq<Seq<char>>, more: Seq<Seq<char>>)
    requires
        distinct(l),
    ensures
        distinct(program::joined_all(l, more)),
        forall|y: Seq<char>| #[trigger] l.contains(y) ==> program::joined_all(l, more).contains(y),
        forall|y: Seq<char>| #[trigger]
            more.contains(y) ==> program::joined_all(l, more).contains(y),
    decreases more.len(),
{
    if more.len() > 0 {
        let p = more.drop_last();
        lemma_joined_all(l, p);
        let before = program::joined_all(l, p);
        lemma_joined(before, more.last());
        assert forall|y: Seq<char>| #[trigger] more.contains(y) implies program::joined_all(
            l,
            more,
        ).contains(y) by {
            if y != more.last() {
                let i = choose|i: int| 0 <= i < more.len() && more[i] == y;
                assert(p[i] == y);
                assert(p.contains(y));
                assert(before.contains(y));
            }
        }
        assert forall|y: Seq<char>| #[trigger] l.contains(y) implies program::joined_all(
            l,
            more,
        ).contains(y) by {
            assert(before.contains(y));
        }
    }
}

proof fn lemma_pushed_modes(l: Seq<Seq<char>>, actions: Seq<ModeActionView>)
    requires
        distinct(l),
    ensures
        distinct(program::pushed_modes(l, actions)),
        forall|y: Seq<char>| #[trigger]
            l.contains(y) ==> program::pushed_modes(l, actions).contains(y),
        forall|y: Seq<char>| #[trigger]
            actions.contains(ModeActionView::Push(y)) ==> program::pushed_modes(
                l,
                actions,
            ).contains(y),
    decreases actions.len(),
{
    if actions.len() > 0 {
        let p = actions.drop_last();
        lemma_pushed_modes(l, p);
        let before = program::pushed_modes(l, p);
        match actions.last() {
            ModeActionView::Push(n) => lemma_joined(before, n),
            ModeActionView::Pop => {},
        }
        assert forall|y: Seq<char>| #[trigger]
            actions.contains(ModeActionView::Push(y)) implies program::pushed_modes(
            l,
            actions,
        ).contains(y) by {
            let i = choose|i: int|
                0 <= i < actions.len() && actions[i] == ModeActionView::Push(y);
            if i < p.len() {
                assert(p[i] == ModeActionView::Push(y));
                assert(p.contains(ModeActionView::Push(y)));
                assert(before.contains(y));
            }
        }
    }
}

proof fn lemma_mode_list(tokens: Seq<TokenView>)
    ensures
        distinct(program::mode_list(tokens)),
        program::mode_list(tokens).len() > 0,
        program::mode_list(tokens)[0] == "default"@,
        forall|i: int, n: Seq<char>|
            0 <= i < tokens.len() && #[trigger] tokens[i].modes.contains(n) ==> program::mode_list(
                tokens,
            ).contains(n),
        forall|i: int, n: Seq<char>|
            0 <= i < tokens.len() && #[trigger] tokens[i].mode_actions.contains(
                ModeActionView::Push(n),
            ) ==> program::mode_list(tokens).contains(n),
    decreases tokens.len(),
{
    if tokens.len() > 0 {
        let p = tokens.drop_last();
        lemma_mode_list(p);
        let before = program::mode_list(p);
        let mid = program::joined_all(before, tokens.last().modes);
        let all = program::mode_list(tokens);
        lemma_joined_all(before, tokens.last().modes);
        lemma_pushed_modes(mid, tokens.last().mode_actions);
        lemma_front_kept(before, tokens.last().modes, tokens.last().mode_actions);
        assert forall|y: Seq<char>| before.contains(y) implies all.contains(y) by {
            assert(mid.contains(y));
        }
        assert forall|i: int, n: Seq<char>|
            0 <= i < tokens.len() && #[trigger] tokens[i].modes.contains(n) implies all.contains(
            n,
        ) by {
            if i < p.len() {
                assert(p[i].modes.contains(n));
            } else {
                assert(tokens[i] == tokens.last());
                assert(tokens.last().modes.contains(n));
                assert(mid.contains(n));
            }
        }
        assert forall|i: int, n: Seq<char>|
            0 <= i < tokens.len() && #[trigger] tokens[i].mode_actions.contains(
                ModeActionView::Push(n),
            ) implies all.contains(n) by {
            if i < p.len() {
                assert(p[i].mode_actions.contains(ModeActionView::Push(n)));
            } else {
                assert(tokens.last().mode_actions.contains(ModeActionView::Push(n)));
            }
        }
    }
}

/// What stands first stays first.
proof fn lemma_front_kept(
    l: Seq<Seq<char>>,
    more: Seq<Seq<char>>,
    actions: Seq<ModeActionView>,
)
    requires
        l.len() > 0,
    ensures
        program::joined_all(l, more).len() > 0,
        program::joined_all(l, more)[0] == l[0],
        program::pushed_modes(l, actions).len() > 0,
        program::pushed_modes(l, actions)[0] == l[0],
        program::pushed_modes(program::joined_all(l, more), actions).len() > 0,
        program::pushed_modes(program::joined_all(l, more), actions)[0] == l[0],
    decreases more.len() + actions.len(),
{
    if more.len() > 0 {
        lemma_front_kept(l, more.drop_last(), actions);
        if actions.len() > 0 {
            lemma_front_kept(l, Seq::empty(), actions);
        }
        let mid = program::joined_all(l, more);
        lemma_pushed_front(mid, actions);
        lemma_pushed_front(l, actions);
    } else {
        lemma_pushed_front(l, actions);
        assert(program::joined_all(l, more) == l);
    }
}

proof fn lemma_pushed_front(l: Seq<Seq<char>>, actions: Seq<ModeActionView>)
    requires
        l.len() > 0,
    ensures
        program::pushed_modes(l, actions).len() > 0,
        program::pushed_modes(l, actions)[0] == l[0],
    decreases actions.len(),
{
    if actions.len() > 0 {
        lemma_pushed_front(l, actions.drop_last());
    }
}

proof fn lemma_mode_id(modes: Seq<Seq<char>>, n: Seq<char>, id: u32)
    requires
        distinct(modes),
        modes.len() <= u32::MAX,
        modes.contains(n),
        id < modes.len(),
    ensures
        program::mode_id(modes, n) < modes.len(),
        modes[program::mode_id(modes, n) as int] == n,
        program::mode_id(modes, n) == id <==> modes[id as int] == n,
{
    program::lemma_place(modes, n);
    let p = program::place(modes, n);
    if modes[id as int] == n && p != id {
        if p < id {
            assert(modes[p] != modes[id as int]);
        } else {
            assert(modes[id as int] != modes[p]);
        }
    }
}

proof fn lemma_live_holds(tokens: Seq<TokenInfo>, mode: u32, t: TokenInfo)
    ensures
        layout::live(tokens, mode).contains(t) <==> tokens.contains(t) && t.mode_ids@.contains(
            mode,
        ),
    decreases tokens.len(),
{
    if tokens.len() > 0 {
        let p = tokens.drop_last();
        let before = layout::live(p, mode);
        let all = layout::live(tokens, mode);
        lemma_live_holds(p, mode, t);
        if tokens.contains(t) {
            let i = choose|i: int| 0 <= i < tokens.len() && tokens[i] == t;
            if i < p.len() {
                assert(p[i] == t);
            }
        }
        if p.contains(t) {
            let i = choose|i: int| 0 <= i < p.len() && p[i] == t;
            assert(tokens[i] == t);
        }
        assert(tokens[tokens.len() - 1] == tokens.last());
        if before.contains(t) {
            let i = choose|i: int| 0 <= i < before.len() && before[i] == t;
            assert(all[i] == t);
        }
        if all.contains(t) {
            let i = choose|i: int| 0 <= i < all.len() && all[i] == t;
            if i < before.len() {
                assert(before[i] == t);
            }
        }
        if tokens.last().mode_ids@.contains(mode) {
            assert(all[before.len() as int] == tokens.last());
        }
    }
}

/// The token of a kind matches in a mode if and only if the token of the grammar
/// competes there.
proof fn lemma_matching(
    tokens: Seq<TokenInfo>,
    g: Grammar,
    mode: u32,
    w: Seq<u8>,
    i: int,
    k: u16,
)
    requires
        program::tokens_lowered(tokens, program::kind_defs(g.token_list()), g),
        program::kind_defs(g.token_list()).len() <= u16::MAX,
        program::mode_list(g.token_list()).len() <= u32::MAX,
        mode < program::mode_list(g.token_list()).len(),
        0 <= i < g.token_list().len(),
        !g.token_list()[i].is_fragment,
        k == rank_of(g.token_list(), i) + 1,
    ensures
        nfa::token_matches(layout::live(tokens, mode), w, k) <==> competes(
            g,
            i,
            program::mode_list(g.token_list())[mode as int],
            w,
        ),
{
    let defs = program::kind_defs(g.token_list());
    let modes = program::mode_list(g.token_list());
    let name = modes[mode as int];
    let live = layout::live(tokens, mode);
    let def = g.token_list()[i];
    let q = rank_of(g.token_list(), i) as int;
    lemma_kind_defs(g.token_list(), i);
    lemma_mode_list(g.token_list());
    let t = tokens[q];
    assert(program::token_lowered(tokens[q], defs[q], q, g));
    assert(t.mode_ids@.contains(mode) <==> def.modes.contains(name)) by {
        if def.modes.contains(name) {
            let m = choose|m: int| 0 <= m < def.modes.len() && def.modes[m] == name;
            assert(g.token_list()[i].modes.contains(name));
            lemma_mode_id(modes, name, mode);
            assert(t.mode_ids@[m] == mode);
        }
        if t.mode_ids@.contains(mode) {
            let m = choose|m: int| 0 <= m < t.mode_ids@.len() && t.mode_ids@[m] == mode;
            assert(def.modes.contains(def.modes[m]));
            assert(g.token_list()[i].modes.contains(def.modes[m]));
            lemma_mode_id(modes, def.modes[m], mode);
            assert(def.modes[m] == name);
        }
    }
    lemma_live_holds(tokens, mode, t);
    assert(tokens.contains(t));
    if nfa::token_matches(live, w, k) {
        let x = choose|x: int|
            0 <= x < live.len() && (#[trigger] live[x]).kind == k && language::lang(
                live[x].pattern@,
                w,
            );
        lemma_live_holds(tokens, mode, live[x]);
        assert(live.contains(live[x]));
        let y = choose|y: int| 0 <= y < tokens.len() && tokens[y] == live[x];
        assert(program::token_lowered(tokens[y], defs[y], y, g));
        assert(y == q);
    }
    if competes(g, i, name, w) {
        assert(live.contains(t));
        let x = choose|x: int| 0 <= x < live.len() && live[x] == t;
        assert(live[x].kind == k);
    }
}

/// The lexer finds the longest text that a token of the grammar matches in the
/// mode that it is in. Of the tokens that match it, fragments left out, it takes
/// the one that is declared first, and what the table says of its kind is what
/// the grammar says of the token. The first mode is the default one.
pub proof fn law_lexer_follows_the_grammar(
    r: StateTable,
    ag: AnalyzedGrammar,
    opts: LoweringOpts,
    dopts: DfaOpts,
    mode: u32,
    rest: Seq<u8>,
)
    requires
        pipeline::is_lowered(r, ag, opts, dopts),
        mode < r.modes@.len(),
        r.modes@.len() <= u32::MAX,
        r.tokens@.len() <= u16::MAX,
        !lexer_dfa::crowded(layout::live(r.tokens@, mode)),
    ensures
        r.modes@[0].name@ == "default"@,
        ({
            let (len, kind, _) = lexer::mode_match(r.modes@, rest, mode);
            let name = r.modes@[mode as int].name@;
            &&& len <= rest.len()
            &&& match kind {
                Some(k) => len > 0 && exists|i: int| #[trigger]
                    wins(ag.grammar, i, name, rest.take(len as int)) && stands_for(
                        r,
                        k,
                        ag.grammar.token_list()[i],
                    ),
                None => len == 0,
            }
            &&& forall|n: int, i: int|
                len < n <= rest.len() ==> !#[trigger] competes(
                    ag.grammar,
                    i,
                    name,
                    rest.take(n),
                )
        }),
{
    let g = ag.grammar;
    let tokens = g.token_list();
    let (prog, laid): (Program, StateTable) = choose|prog: Program, laid: StateTable|
        program::is_program(prog, ag) && #[trigger] layout::is_layout(laid, prog, ag, dopts)
            && pipeline::finished(r, laid, opts);
    assert(r.tokens == prog.tokens);
    assert(r.modes == laid.modes);
    let modes = program::mode_list(tokens);
    assert(names::list_view(prog.mode_names@) == modes);
    lemma_mode_list(tokens);
    assert(laid.modes@[0].name@ == modes[0]);
    assert(laid.modes@[mode as int].name@ == modes[mode as int]);
    let defs = program::kind_defs(tokens);
    assert(program::tokens_lowered(r.tokens@, defs, g));
    lexing::law_lexer_takes_longest_then_first(r, ag, opts, dopts, mode, rest);
    let (len, kind, _) = lexer::mode_match(r.modes@, rest, mode);
    let name = modes[mode as int];
    let live = layout::live(r.tokens@, mode);
    match kind {
        Some(k) => {
            let w = rest.take(len as int);
            let x = choose|x: int|
                0 <= x < live.len() && (#[trigger] live[x]).kind == k && language::lang(
                    live[x].pattern@,
                    w,
                );
            lemma_live_holds(r.tokens@, mode, live[x]);
            assert(live.contains(live[x]));
            let q = choose|q: int| 0 <= q < r.tokens@.len() && r.tokens@[q] == live[x];
            assert(program::token_lowered(r.tokens@[q], defs[q], q, g));
            let i = lemma_kind_has_token(tokens, q);
            lemma_matching(r.tokens@, g, mode, w, i, k);
            assert forall|j: int| 0 <= j < i implies !#[trigger] competes(g, j, name, w) by {
                if competes(g, j, name, w) {
                    lemma_rank_grows(tokens, j, i);
                    let kj = (rank_of(tokens, j) + 1) as u16;
                    lemma_kind_defs(tokens, j);
                    lemma_matching(r.tokens@, g, mode, w, j, kj);
                    assert(nfa::token_matches(live, w, kj));
                }
            }
            assert(wins(g, i, name, w));
            let def = tokens[i];
            assert forall|a: int| 0 <= a < def.mode_actions.len() implies match def.mode_actions[a] {
                ModeActionView::Pop => (#[trigger] r.tokens@[k - 1].mode_actions@[a])
                    == ModeActionInfo::Pop,
                ModeActionView::Push(n) => r.tokens@[k
                    - 1].mode_actions@[a] matches ModeActionInfo::Push(id) && id < r.modes@.len()
                    && r.modes@[id as int].name@ == n,
            } by {
                match def.mode_actions[a] {
                    ModeActionView::Push(n) => {
                        assert(def.mode_actions.contains(ModeActionView::Push(n)));
                        assert(tokens[i].mode_actions.contains(ModeActionView::Push(n)));
                        lemma_mode_id(modes, n, 0);
                        let id = program::mode_id(modes, n);
                        assert(laid.modes@[id as int].name@ == modes[id as int]);
                    },
                    ModeActionView::Pop => {},
                }
            }
            assert(stands_for(r, k, def));
        },
        None => {},
    }
    assert forall|n: int, i: int| len < n <= rest.len() implies !#[trigger] competes(
        g,
        i,
        name,
        rest.take(n),
    ) by {
        if competes(g, i, name, rest.take(n)) {
            let ki = (rank_of(tokens, i) + 1) as u16;
            lemma_kind_defs(tokens, i);
            lemma_matching(r.tokens@, g, mode, rest.take(n), i, ki);
            assert(nfa::token_matches(live, rest.take(n), ki));
        }
    }
}

/// In a grammar that passes the analysis a literal token is what its text is
/// lexed as, in every mode that looks for it. Only a token that is skipped can
/// come before it.
pub proof fn law_literals_are_lexed_as_themselves(
    g: Grammar,
    o: AnalysisOutcome,
    i: int,
    j: int,
    mode: Seq<char>,
)
    requires
        validate::well_named(g.token_map()),
        analysis::analyzed(g, o),
        o.grammar is Some,
        0 <= i < g.token_list().len(),
        !g.token_list()[i].skip,
        g.token_list()[i].pattern is Literal,
        competes(
            g,
            i,
            mode,
            vstd::utf8::encode_utf8(g.token_list()[i].pattern->Literal_0),
        ),
        wins(g, j, mode, vstd::utf8::encode_utf8(g.token_list()[i].pattern->Literal_0)),
    ensures
        j == i || j < i && g.token_list()[j].skip,
{
    token_laws::law_analyzed_tokens_are_sound(g, o, i);
    let s = g.token_list()[i].pattern->Literal_0;
    assert(g.token_list()[j] == g.token_map()[j].1);
    if j < i && !g.token_list()[j].skip {
        assert(token_laws::takes(g.token_map(), j, s));
    }
}

} // verus!
