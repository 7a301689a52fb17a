//! Semantic analysis of a parsed grammar.
pub mod check_laws;
pub mod conflict_laws;
pub mod first_follow;
pub mod first_laws;
pub mod first_set;
pub mod follow;
pub mod follow_k;
pub mod follow_k_laws;
pub mod follow_laws;
pub mod left_recursion;
pub mod lints;
pub mod lookahead;
pub mod lookahead_laws;
pub mod mode_check;
pub mod mode_laws;
pub mod ref_laws;
pub mod resolve_laws;
pub mod shadow;
pub mod token_laws;
pub mod universe;
pub mod validate;

use vstd::prelude::*;

use crate::diagnostic::{self, Diagnostic, DiagnosticView};
use crate::grammar::ir::Grammar;
use first_follow::{FirstTable, FollowTable, NullTable};

pub use first_set::FirstSet;
pub use follow::EOF_MARKER;

verus! {

/// Result of [`analyze`]: the analyzed grammar, when analysis succeeded, and
/// every diagnostic produced along the way. `grammar` is `Some` iff no
/// diagnostic has error severity.
#[derive(Debug)]
pub struct AnalysisOutcome {
    /// The analyzed grammar; present iff [`AnalysisOutcome::has_errors`]
    /// returns `false`.
    pub grammar: Option<AnalyzedGrammar>,
    /// Every diagnostic produced.
    pub diagnostics: Vec<Diagnostic>,
}

impl AnalysisOutcome {
    /// True iff any diagnostic has error severity.
    pub fn has_errors(&self) -> (r: bool)
        ensures
            r == diagnostic::any_error(diagnostic::diags_view(self.diagnostics@)),
    {
        diagnostic::has_errors(&self.diagnostics)
    }
}

/// A validated grammar together with the FIRST/FOLLOW tables needed to
/// generate its parser.
#[derive(Debug)]
pub struct AnalyzedGrammar {
    /// The grammar this analysis ran over.
    pub grammar: Grammar,
    /// FIRST(k) per rule name: every length-≤-`k` token-name prefix that can
    /// start an occurrence of the rule. The empty sequence marks a nullable
    /// rule.
    pub first: FirstTable,
    /// Classic single-token FOLLOW per rule name, used as recovery sync
    /// points. [`EOF_MARKER`] stands in for end-of-input.
    pub follow: FollowTable,
    /// FIRST(k)-style FOLLOW per rule name: every length-≤-`k` sequence that
    /// can legally follow an occurrence of the rule.
    pub follow_k: FirstTable,
    /// Per-rule nullability: `true` iff the rule can derive ε.
    pub nullable: NullTable,
    /// The smallest `k` for which the grammar is LL(k).
    pub k: usize,
}

impl AnalyzedGrammar {
    /// The tables are those of the grammar.
    pub open spec fn wf(self) -> bool {
        let rules = self.grammar.rule_list();
        let nulls = self.nullable@;
        let firsts = first_follow::firsts(self.first);
        &&& self.nullable.wf()
        &&& first_follow::table_wf(self.first)
        &&& self.follow.wf()
        &&& forall|n: Seq<char>| #[trigger]
            self.follow@.contains_key(n) ==> self.follow@[n].wf()
        &&& first_follow::table_wf(self.follow_k)
        &&& self.k >= 1
        &&& first_follow::is_first(rules, self.k as nat, nulls, firsts)
        &&& forall|n: Seq<char>| #[trigger]
            first_follow::null_at(nulls, n) == first_follow::set_at(firsts, n).contains(
                Seq::empty(),
            )
        &&& follow::is_follow(rules, nulls, firsts, follow::singles(self.follow))
        &&& follow_k::is_follow_k(
            rules,
            self.k as nat,
            nulls,
            firsts,
            first_follow::firsts(self.follow_k),
        )
    }
}

/// What the checks before the search for a lookahead report, when the first
/// of them, the validators, found no error.
pub open spec fn check_diags(g: Grammar) -> Seq<DiagnosticView> {
    validate::validate_diags(g) + lints::lint_diags(g) + shadow::shadow_diags(
        g.token_map(),
        g.token_map().len(),
    )
}

/// What the analysis of a grammar gives.
pub open spec fn analyzed(g: Grammar, r: AnalysisOutcome) -> bool {
    let diags = diagnostic::diags_view(r.diagnostics@);
    let checks = check_diags(g);
    if diagnostic::any_error(validate::validate_diags(g)) {
        r.grammar is None && diags == validate::validate_diags(g)
    } else if diagnostic::any_error(checks) {
        r.grammar is None && diags == checks
    } else {
        match r.grammar {
            Some(ag) => {
                &&& diags == checks
                &&& ag.grammar == g
                &&& ag.wf()
                &&& lookahead::solved_at(g.rule_list(), ag.k as nat)
            },
            None => exists|k: nat| #[trigger]
                lookahead::given_up_at(g.rule_list(), k) && diags == checks
                    + lookahead::give_up_diags(g.rule_list(), k),
        }
    }
}

/// Validate `g` and compute the analysis tables at the smallest `k` that
/// resolves all LL conflicts.
///
/// The structural validators run first, then the lints; where they find no
/// error, [`lookahead::solve_lookahead`] deepens `k` until no alternative
/// remains ambiguous.
pub fn analyze(g: Grammar) -> (r: AnalysisOutcome)
    ensures
        analyzed(g, r),
        r.grammar is Some <==> !diagnostic::any_error(diagnostic::diags_view(r.diagnostics@)),
{
    let mut diags: Vec<Diagnostic> = Vec::new();
    assert(diagnostic::diags_view(diags@) =~= Seq::<DiagnosticView>::empty());
    validate::run(&g, &mut diags);
    assert(diagnostic::diags_view(diags@) =~= validate::validate_diags(g));
    if diagnostic::has_errors(&diags) {
        return AnalysisOutcome { grammar: None, diagnostics: diags };
    }
    lints::run(&g, &mut diags);
    shadow::run(&g, &mut diags);
    if diagnostic::has_errors(&diags) {
        return AnalysisOutcome { grammar: None, diagnostics: diags };
    }
    match lookahead::solve_lookahead(&g, &mut diags) {
        Ok((k, nullable, first)) => {
            let follow = follow::compute_follow(&g, &first, &nullable);
            let follow_k = follow_k::compute_follow_k(&g, &first, &nullable, k);
            let ag = AnalyzedGrammar { grammar: g, first, follow, follow_k, nullable, k };
            AnalysisOutcome { grammar: Some(ag), diagnostics: diags }
        },
        Err(_) => {
            proof {
                let k = choose|k: nat| #[trigger]
                    lookahead::given_up_at(g.rule_list(), k) && diagnostic::diags_view(diags@)
                        == check_diags(g) + lookahead::give_up_diags(g.rule_list(), k);
                let all = check_diags(g) + lookahead::give_up_diags(g.rule_list(), k);
                let at = check_diags(g).len() as int;
                assert(all[at] == lookahead::give_up_diags(g.rule_list(), k)[0]);
                assert(all[at].severity == diagnostic::Severity::Error);
            }
            AnalysisOutcome { grammar: None, diagnostics: diags }
        },
    }
}

} // verus!
