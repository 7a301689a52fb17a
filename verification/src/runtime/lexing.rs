//! What the lexer of a lowered grammar finds.
use vstd::prelude::*;

use crate::analysis::AnalyzedGrammar;
use crate::lowering::layout;
use crate::lowering::lexer_dfa::{self, DfaOpts};
use crate::lowering::nfa;
use crate::lowering::optimize::LoweringOpts;
use crate::lowering::pipeline;
use crate::lowering::program::{self, Program};
use crate::lowering::table::{StateTable, TokenInfo};
use crate::lowering::validate;
use crate::runtime::events::TOKEN_EOF;
use crate::runtime::laws;
use crate::runtime::lexer::{self, TableMatcher};

verus! {

/// What is found at the beginning of the bytes: the longest prefix that a
/// token matches, and of the tokens that match it the one with the smallest
/// kind, which was declared first. No kind if no token matches a prefix.
pub open spec fn longest_first(
    tokens: Seq<TokenInfo>,
    rest: Seq<u8>,
    len: nat,
    kind: Option<u16>,
) -> bool {
    &&& len <= rest.len()
    &&& match kind {
        Some(k) => {
            &&& len > 0
            &&& nfa::token_matches(tokens, rest.take(len as int), k)
            &&& forall|j: u16| #[trigger]
                nfa::token_matches(tokens, rest.take(len as int), j) ==> k <= j
        },
        None => len == 0,
    }
    &&& forall|n: int, j: u16|
        len < n <= rest.len() ==> !(#[trigger] nfa::token_matches(tokens, rest.take(n), j))
}

/// The lexer of a lowered grammar finds the longest match in the mode it is
/// in, and of the tokens that match as much the one that was declared first.
pub proof fn law_lexer_takes_longest_then_first(
    r: StateTable,
    ag: AnalyzedGrammar,
    opts: LoweringOpts,
    dopts: DfaOpts,
    mode: u32,
    rest: Seq<u8>,
)
    requires
        pipeline::is_lowered(r, ag, opts, dopts),
        mode < r.modes@.len(),
        !lexer_dfa::crowded(layout::live(r.tokens@, mode)),
    ensures
        ({
            let (len, kind, _) = lexer::mode_match(r.modes@, rest, mode);
            longest_first(layout::live(r.tokens@, mode), rest, len, kind)
        }),
{
    pipeline::lemma_lowered(r, ag, opts, dopts);
    let m = r.modes@[mode as int];
    let dfa = m.dfa@;
    assert(layout::mode_lexes(m, r.tokens@, dopts.minimize));
    lexer::law_longest_match(dfa, rest);
    let (len, kind, _) = lexer::longest(dfa, rest);
    let tokens = layout::live(r.tokens@, mode);
    let w = rest.take(len as int);
    assert(lexer_dfa::lexes(tokens, w, lexer_dfa::accepted(dfa, w)));
    assert forall|n: int, j: u16| len < n <= rest.len() implies !(#[trigger] nfa::token_matches(
        tokens,
        rest.take(n),
        j,
    )) by {
        assert(lexer_dfa::accepted(dfa, rest.take(n)) is None);
        assert(lexer_dfa::lexes(
            tokens,
            rest.take(n),
            lexer_dfa::accepted(dfa, rest.take(n)),
        ));
    }
}

proof fn lemma_live(tokens: Seq<TokenInfo>, mode: u32, i: int)
    requires
        0 <= i < layout::live(tokens, mode).len(),
    ensures
        exists|j: int| 0 <= j < tokens.len() && tokens[j] == layout::live(tokens, mode)[i],
    decreases tokens.len(),
{
    let p = tokens.drop_last();
    let before = layout::live(p, mode);
    if i < before.len() {
        lemma_live(p, mode, i);
        let j = choose|j: int| 0 <= j < p.len() && p[j] == before[i];
        assert(tokens[j] == layout::live(tokens, mode)[i]);
    } else {
        assert(tokens[tokens.len() - 1] == layout::live(tokens, mode)[i]);
    }
}

/// The table of a lowered grammar can be run.
pub proof fn law_lowered_is_runnable(
    r: StateTable,
    m: TableMatcher,
    ag: AnalyzedGrammar,
    opts: LoweringOpts,
    dopts: DfaOpts,
)
    requires
        pipeline::is_lowered(r, ag, opts, dopts),
        validate::all_valid(r.states@),
        r.k >= 1,
        m.modes == r.modes,
        r.tokens@.len() <= u16::MAX,
    ensures
        laws::runnable(r, m),
{
    pipeline::lemma_lowered(r, ag, opts, dopts);
    let (prog, laid): (Program, StateTable) = choose|prog: Program, laid: StateTable|
        program::is_program(prog, ag) && #[trigger] layout::is_layout(laid, prog, ag, dopts)
            && pipeline::finished(r, laid, opts);
    assert(r.tokens == prog.tokens);
    let defs = program::kind_defs(ag.grammar.token_list());
    assert forall|i: int, w: Seq<u8>|
        0 <= i < r.modes@.len() implies #[trigger] lexer_dfa::accepted(r.modes@[i].dfa@, w) != Some(
        TOKEN_EOF,
    ) by {
        let mode = r.modes@[i];
        assert(layout::mode_lexes(mode, r.tokens@, dopts.minimize));
        let tokens = layout::live(r.tokens@, mode.id);
        let a = lexer_dfa::accepted(mode.dfa@, w);
        if a == Some(TOKEN_EOF) {
            assert(nfa::token_matches(tokens, w, TOKEN_EOF));
            let t = choose|t: int|
                0 <= t < tokens.len() && (#[trigger] tokens[t]).kind == TOKEN_EOF;
            lemma_live(r.tokens@, mode.id, t);
            let j = choose|j: int| 0 <= j < r.tokens@.len() && r.tokens@[j] == tokens[t];
            assert(program::token_lowered(prog.tokens@[j], defs[j], j, ag.grammar));
        }
    }
}

} // verus!
