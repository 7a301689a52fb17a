//! What the search for a lookahead finds, and when it gives up.
use vstd::prelude::*;

use crate::analysis::lookahead::{self, ConflictView};
use crate::analysis::validate;
use crate::analysis::{self, AnalysisOutcome};
use crate::diagnostic;
use crate::grammar::ir::{Grammar, RuleView};

verus! {

/// How many sequences the conflicts at lookahead `k` are about.
pub open spec fn open_at(rules: Seq<RuleView>, k: nat) -> nat {
    lookahead::total(lookahead::conflicts_at(rules, k))
}

/// Of the lookaheads up to `k`, `b` is the first that leaves least open.
pub open spec fn best(rules: Seq<RuleView>, k: nat, b: nat) -> bool {
    &&& 1 <= b <= k
    &&& forall|i: nat| 1 <= i <= k ==> open_at(rules, b) <= #[trigger] open_at(rules, i)
    &&& forall|i: nat| 1 <= i < b ==> open_at(rules, b) < #[trigger] open_at(rules, i)
}

/// No lookahead up to `k` is free of conflicts, and none has been without
/// progress for too many rounds.
pub open spec fn promising(rules: Seq<RuleView>, k: nat) -> bool {
    forall|j: nat, b: nat|
        1 <= j <= k && #[trigger] best(rules, j, b) ==> lookahead::conflicts_at(rules, j).len() > 0
            && j - b < lookahead::STUCK_LIMIT
}

/// Each of the three lookaheads up to `k` leaves at least as much open as `b`,
/// which is smaller.
pub open spec fn stalled(rules: Seq<RuleView>, k: nat, b: nat) -> bool {
    &&& 1 <= b <= k - 3
    &&& forall|j: nat| k - 3 < j <= k ==> #[trigger] open_at(rules, j) >= open_at(rules, b)
}

/// What two lists of conflicts leave open adds up, and a conflict leaves open
/// the sequences that it is about.
pub proof fn law_totals_add_up(a: Seq<ConflictView>, b: Seq<ConflictView>, c: ConflictView)
    ensures
        lookahead::total(a + b) == lookahead::total(a) + lookahead::total(b),
        lookahead::total(seq![c]) == c.ambiguous.len(),
    decreases b.len(),
{
    assert(seq![c].drop_last() =~= Seq::empty());
    assert(lookahead::total(Seq::<ConflictView>::empty()) == 0);
    if b.len() == 0 {
        assert(a + b =~= a);
    } else {
        assert((a + b).drop_last() =~= a + b.drop_last());
        law_totals_add_up(a, b.drop_last(), c);
    }
}

proof fn lemma_search(rules: Seq<RuleView>, k: nat) -> (b: nat)
    requires
        k >= 1,
    ensures
        best(rules, k, b),
        lookahead::search(rules, k).least == Some(open_at(rules, b)),
        lookahead::search(rules, k).stuck == k - b,
    decreases k,
{
    reveal_with_fuel(lookahead::search, 2);
    if k == 1 {
        1
    } else {
        let b = lemma_search(rules, (k - 1) as nat);
        if open_at(rules, k) < open_at(rules, b) {
            k
        } else {
            b
        }
    }
}

proof fn lemma_best_is_one(rules: Seq<RuleView>, k: nat, a: nat, b: nat)
    requires
        best(rules, k, a),
        best(rules, k, b),
    ensures
        a == b,
{
    assert(open_at(rules, a) <= open_at(rules, b));
    assert(open_at(rules, b) <= open_at(rules, a));
}

proof fn lemma_promising(rules: Seq<RuleView>, k: nat)
    ensures
        promising(rules, k) <==> lookahead::goes_on(rules, k),
{
    if promising(rules, k) {
        assert forall|j: nat| 1 <= j <= k implies lookahead::conflicts_at(rules, j).len() > 0 && (
        #[trigger] lookahead::search(rules, j)).stuck < lookahead::STUCK_LIMIT by {
            let b = lemma_search(rules, j);
        }
    }
    if lookahead::goes_on(rules, k) {
        assert forall|j: nat, b: nat|
            1 <= j <= k && #[trigger] best(rules, j, b) implies lookahead::conflicts_at(
            rules,
            j,
        ).len() > 0 && j - b < lookahead::STUCK_LIMIT by {
            let c = lemma_search(rules, j);
            lemma_best_is_one(rules, j, b, c);
            assert(lookahead::search(rules, j).stuck < lookahead::STUCK_LIMIT);
        }
    }
}

/// The lookahead that is found is the smallest that is free of conflicts.
/// Before it no lookahead has gone too far without leaving less open.
pub proof fn law_smallest_lookahead_is_found(rules: Seq<RuleView>, k: nat)
    ensures
        lookahead::solved_at(rules, k) <==> k >= 1 && lookahead::conflicts_at(rules, k).len() == 0
            && promising(rules, (k - 1) as nat),
        lookahead::solved_at(rules, k) ==> forall|j: nat|
            1 <= j < k ==> (#[trigger] lookahead::conflicts_at(rules, j)).len() > 0,
{
    if k >= 1 {
        lemma_promising(rules, (k - 1) as nat);
    }
    if lookahead::solved_at(rules, k) {
        assert forall|j: nat| 1 <= j < k implies (#[trigger] lookahead::conflicts_at(
            rules,
            j,
        )).len() > 0 by {
            assert(lookahead::search(rules, j).stuck < lookahead::STUCK_LIMIT);
        }
    }
}

/// The search gives up where the conflicts have not become fewer for three
/// rounds: each of the last three leaves at least as much open as one before
/// them, and there were others before them. It gives up nowhere else, as long
/// as a larger lookahead can be counted.
pub proof fn law_search_gives_up_without_progress(rules: Seq<RuleView>, k: nat)
    requires
        k < usize::MAX,
    ensures
        lookahead::given_up_at(rules, k) <==> {
            &&& k >= 1
            &&& promising(rules, (k - 1) as nat)
            &&& lookahead::conflicts_at(rules, k).len() > 0
            &&& exists|b: nat| #[trigger]
                best(rules, k, b) && k - b >= lookahead::STUCK_LIMIT
        },
        lookahead::given_up_at(rules, k) ==> exists|b: nat| #[trigger] stalled(rules, k, b),
        lookahead::given_up_at(rules, k) ==> forall|j: nat|
            1 <= j <= k ==> (#[trigger] lookahead::conflicts_at(rules, j)).len() > 0,
{
    if k >= 1 {
        lemma_promising(rules, (k - 1) as nat);
        let b = lemma_search(rules, k);
        assert forall|c: nat| #[trigger] best(rules, k, c) implies c == b by {
            lemma_best_is_one(rules, k, b, c);
        }
        if lookahead::given_up_at(rules, k) {
            assert(stalled(rules, k, b));
            assert forall|j: nat| 1 <= j <= k implies (#[trigger] lookahead::conflicts_at(
                rules,
                j,
            )).len() > 0 by {
                if j < k {
                    assert(lookahead::search(rules, j).stuck < lookahead::STUCK_LIMIT);
                }
            }
        }
    }
}

/// A grammar that is free of conflicts at a lookahead of at most four tokens is
/// never given up: its lookahead is found.
pub proof fn law_short_lookaheads_are_found(rules: Seq<RuleView>, k: nat) -> (found: nat)
    requires
        1 <= k <= 4,
        lookahead::conflicts_at(rules, k).len() == 0,
    ensures
        lookahead::solved_at(rules, found),
        1 <= found <= k,
        forall|j: nat| j < usize::MAX ==> !#[trigger] lookahead::given_up_at(rules, j),
    decreases k,
{
    assert forall|j: nat| j < usize::MAX implies !#[trigger] lookahead::given_up_at(rules, j) by {
        if lookahead::given_up_at(rules, j) {
            law_search_gives_up_without_progress(rules, j);
            assert(lookahead::conflicts_at(rules, k).len() > 0);
        }
    }
    if exists|j: nat| 1 <= j < k && (#[trigger] lookahead::conflicts_at(rules, j)).len() == 0 {
        let j = choose|j: nat|
            1 <= j < k && (#[trigger] lookahead::conflicts_at(rules, j)).len() == 0;
        law_short_lookaheads_are_found(rules, j)
    } else {
        assert(promising(rules, (k - 1) as nat));
        law_smallest_lookahead_is_found(rules, k);
        k
    }
}

/// The analysis takes a grammar that is free of conflicts at a lookahead of at
/// most four tokens, where its checks find no error, with the smallest such
/// lookahead and without a report of its own.
pub proof fn law_analysis_takes_short_lookaheads(g: Grammar, o: AnalysisOutcome, k: nat)
    requires
        analysis::analyzed(g, o),
        !diagnostic::any_error(validate::validate_diags(g)),
        !diagnostic::any_error(analysis::check_diags(g)),
        1 <= k <= 4,
        lookahead::conflicts_at(g.rule_list(), k).len() == 0,
        forall|j: nat|
            1 <= j < k ==> (#[trigger] lookahead::conflicts_at(g.rule_list(), j)).len() > 0,
    ensures
        o.grammar matches Some(ag) && ag.k == k && ag.grammar == g,
        diagnostic::diags_view(o.diagnostics@) == analysis::check_diags(g),
{
    let found = law_short_lookaheads_are_found(g.rule_list(), k);
    if o.grammar is None {
        let j = choose|j: nat| #[trigger]
            lookahead::given_up_at(g.rule_list(), j) && diagnostic::diags_view(o.diagnostics@)
                == analysis::check_diags(g) + lookahead::give_up_diags(g.rule_list(), j);
        assert(lookahead::conflicts_at(g.rule_list(), k).len() > 0) by {
            if j < usize::MAX {
                law_search_gives_up_without_progress(g.rule_list(), j);
            } else {
                assert(lookahead::search(g.rule_list(), k).stuck < lookahead::STUCK_LIMIT);
            }
        }
    } else {
        let ag = o.grammar->0;
        law_smallest_lookahead_is_found(g.rule_list(), ag.k as nat);
    }
}

} // verus!
