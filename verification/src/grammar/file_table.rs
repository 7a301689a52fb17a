//! The table that grammar files are read with.
//!
//! The notation is itself a grammar (see [`syntax_grammar`]): it is analysed and
//! lowered, and files are read with what comes of it. For the case that this
//! does not succeed there is a table that was lowered before (see
//! [`notation_table`]).
//!
//! [`syntax_grammar`]: crate::grammar::syntax::syntax_grammar
//! [`notation_table`]: crate::grammar::notation::notation_table
use vstd::prelude::*;

use crate::analysis::lookahead;
use crate::analysis::{self, AnalysisOutcome, AnalyzedGrammar};
use crate::grammar::ir::Grammar;
use crate::grammar::syntax;
use crate::lowering::lexer_dfa::DfaOpts;
use crate::lowering::optimize::LoweringOpts;
use crate::lowering::pipeline;
use crate::lowering::table::StateTable;
use crate::names::{self, Rank};
use crate::runtime::lexer;

verus! {

/// The name of the rule that a file is read by.
pub const FILE: &'static str = "file";

/// All passes are on.
pub open spec fn all_passes() -> LoweringOpts {
    LoweringOpts {
        inline_jumps: true,
        fold_trampolines: true,
        inline_branch_bodies: true,
        eliminate_dead: true,
    }
}

/// The table is what the grammar, which is that of the notation, is lowered to
/// with the lookahead that the analysis finds, and its entry `i` is that of a
/// file.
pub open spec fn lowered_notation(ag: AnalyzedGrammar, st: StateTable, i: int) -> bool {
    &&& syntax::is_syntax(ag.grammar)
    &&& ag.wf()
    &&& lookahead::solved_at(ag.grammar.rule_list(), ag.k as nat)
    &&& pipeline::lowerable(ag)
    &&& pipeline::is_lowered(st, ag, all_passes(), DfaOpts { minimize: true })
    &&& 0 <= i < st.entry_states@.len()
    &&& st.entry_states@[i].0@ == FILE@
}

/// The table is what the grammar of the notation is lowered to, and its entry
/// `i` is that of a file.
pub open spec fn is_file_table(st: StateTable, i: int) -> bool {
    exists|ag: AnalyzedGrammar| #[trigger] lowered_notation(ag, st, i)
}

/// The analysis of the grammar of the notation finds something wrong with it,
/// or it is too large to be lowered, or has no rule for a file.
pub open spec fn notation_fails(g: Grammar, o: AnalysisOutcome) -> bool {
    &&& syntax::is_syntax(g)
    &&& analysis::analyzed(g, o)
    &&& match o.grammar {
        Some(ag) => pipeline::lowerable(ag) ==> exists|st: StateTable| #[trigger]
            pipeline::is_lowered(st, ag, all_passes(), DfaOpts { minimize: true })
                && no_file_entry(st),
        None => true,
    }
}

/// No entry of the table is that of a file.
pub open spec fn no_file_entry(st: StateTable) -> bool {
    forall|i: int| 0 <= i < st.entry_states@.len() ==> (#[trigger] st.entry_states@[i]).0@ != FILE@
}

/// The table of the notation, and which of its entries is that of a file.
pub fn file_table() -> (r: Option<(StateTable, usize)>)
    ensures
        match r {
            Some(t) => is_file_table(t.0, t.1 as int) && t.0.k >= 1 && t.0.states.wf()
                && lexer::modes_ok(t.0.modes@),
            None => exists|g: Grammar, o: AnalysisOutcome| #[trigger] notation_fails(g, o),
        },
{
    let g = syntax::syntax_grammar();
    let ghost g0 = g;
    let out = analysis::analyze(g);
    let ghost out0 = out;
    assert(analysis::analyzed(g0, out0));
    match out.grammar {
        Some(ag) => {
            let ghost ag0 = ag;
            match pipeline::try_lower(&ag) {
                Some(st) => {
                    proof {
                        pipeline::lemma_lowered(
                            st,
                            ag0,
                            all_passes(),
                            DfaOpts { minimize: true },
                        );
                    }
                    match find_file(&st) {
                        Some(i) => {
                            assert(lowered_notation(ag0, st, i as int));
                            assert(is_file_table(st, i as int));
                            Some((st, i))
                        },
                        None => {
                            assert(notation_fails(g0, out0));
                            None
                        },
                    }
                },
                None => {
                    assert(notation_fails(g0, out0));
                    None
                },
            }
        },
        None => {
            assert(notation_fails(g0, out0));
            None
        },
    }
}

/// The first entry that is that of a file.
fn find_file(st: &StateTable) -> (r: Option<usize>)
    ensures
        match r {
            Some(i) => i < st.entry_states@.len() && st.entry_states@[i as int].0@ == FILE@,
            None => no_file_entry(*st),
        },
{
    let mut i: usize = 0;
    while i < st.entry_states.len()
        invariant
            i <= st.entry_states@.len(),
            forall|j: int| 0 <= j < i ==> (#[trigger] st.entry_states@[j]).0@ != FILE@,
        decreases st.entry_states@.len() - i,
    {
        if names::rank_str(st.entry_states[i].0.as_str(), FILE) == Rank::Same {
            return Some(i);
        }
        i += 1;
    }
    None
}

} // verus!
