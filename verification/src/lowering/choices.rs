//! Where the lookahead decides the choices of a grammar.
use vstd::prelude::*;

use crate::analysis::first_follow;
use crate::analysis::first_set::{self, NameSeq};
use crate::analysis::follow;
use crate::analysis::follow_k;
use crate::analysis::lookahead;
use crate::analysis::universe;
use crate::analysis::validate as check;
use crate::analysis::{AnalyzedGrammar, EOF_MARKER};
use crate::diagnostic::{self, Severity};
use crate::grammar::ir::{self, ExprView, RuleView, TokenView};
use crate::lowering::closed;
use crate::lowering::decided;
use crate::lowering::program;
use crate::lowering::runs;
use crate::names;
use crate::sorting;

verus! {

/// The kinds of the sequences that are not empty.
pub open spec fn looks(tokens: Seq<TokenView>, f: Set<NameSeq>) -> Set<Seq<u16>> {
    Set::new(
        |x: Seq<u16>|
            exists|s: NameSeq| #[trigger]
                f.contains(s) && s.len() > 0 && program::kinds_of(tokens, s) == x,
    )
}

/// One of the sequences begins the other.
pub open spec fn one_begins(x: Seq<u16>, y: Seq<u16>) -> bool {
    x.is_prefix_of(y) || y.is_prefix_of(x)
}

/// The sequences of names of the grammar that are no longer than the lookahead.
pub open spec fn short(ag: AnalyzedGrammar) -> Set<NameSeq> {
    universe::all_seqs(sigma(ag), ag.k as nat)
}

/// The names of the tokens that the grammar speaks of, and of the end of input.
pub open spec fn sigma(ag: AnalyzedGrammar) -> Set<Seq<char>> {
    follow::follow_alphabet(ag.grammar.rule_list(), first_follow::firsts(ag.first))
}

/// The expression speaks of tokens of the grammar only.
pub open spec fn inside(ag: AnalyzedGrammar, e: ExprView) -> bool {
    forall|n: Seq<char>| first_follow::mentions(e, n) ==> #[trigger] sigma(ag).contains(n)
}

/// A finite set has an ascending list.
proof fn lemma_listed(f: Set<NameSeq>)
    requires
        f.finite(),
    ensures
        first_set::listed(f).to_set() == f,
{
    let less = |a: NameSeq, b: NameSeq| names::list_less(a, b);
    assert(sorting::total_order(less)) by {
        assert forall|a: NameSeq| !#[trigger] less(a, a) by {
            names::lemma_list_irreflexive(a);
        }
        assert forall|a: NameSeq, b: NameSeq, c: NameSeq| #[trigger]
            less(a, b) && #[trigger] less(b, c) implies less(a, c) by {
            names::lemma_list_transitive(a, b, c);
        }
        assert forall|a: NameSeq, b: NameSeq| a == b || #[trigger] less(a, b) || less(b, a) by {
            names::lemma_list_total(a, b);
        }
    }
    let any = f.to_seq();
    f.lemma_to_seq_to_set_id();
    let l = sorting::set_by(any, less);
    sorting::lemma_set_by(any, less);
    assert(first_set::ascending(l)) by {
        assert forall|i: int, j: int| 0 <= i < j < l.len() implies names::list_less(
            #[trigger] l[i],
            #[trigger] l[j],
        ) by {
            assert(less(l[i], l[j]));
        }
    }
    assert(l.to_set() =~= f) by {
        assert forall|s: NameSeq| l.to_set().contains(s) <==> f.contains(s) by {
            assert(l.contains(s) <==> any.contains(s));
            assert(any.to_set().contains(s) <==> f.contains(s));
        }
    }
}

proof fn lemma_kind_seqs(tokens: Seq<TokenView>, l: Seq<NameSeq>)
    ensures
        forall|x: Seq<u16>| #[trigger]
            program::kind_seqs(tokens, l).contains(x) ==> exists|i: int|
                0 <= i < l.len() && (#[trigger] l[i]).len() > 0 && program::kinds_of(tokens, l[i])
                    == x,
        forall|i: int|
            0 <= i < l.len() && (#[trigger] l[i]).len() > 0 ==> program::kind_seqs(
                tokens,
                l,
            ).contains(program::kinds_of(tokens, l[i])),
    decreases l.len(),
{
    if l.len() > 0 {
        let p = l.drop_last();
        let before = program::kind_seqs(tokens, p);
        let all = program::kind_seqs(tokens, l);
        lemma_kind_seqs(tokens, p);
        assert forall|x: Seq<u16>| #[trigger] all.contains(x) implies exists|i: int|
            0 <= i < l.len() && (#[trigger] l[i]).len() > 0 && program::kinds_of(tokens, l[i])
                == x by {
            let j = choose|j: int| 0 <= j < all.len() && all[j] == x;
            if j < before.len() {
                assert(before[j] == x);
                assert(before.contains(x));
                let i = choose|i: int|
                    0 <= i < p.len() && (#[trigger] p[i]).len() > 0 && program::kinds_of(
                        tokens,
                        p[i],
                    ) == x;
                assert(l[i] == p[i]);
            } else {
                assert(l[l.len() - 1] == l.last());
            }
        }
        assert forall|i: int| 0 <= i < l.len() && (#[trigger] l[i]).len() > 0 implies all.contains(
            program::kinds_of(tokens, l[i]),
        ) by {
            let x = program::kinds_of(tokens, l[i]);
            if i < p.len() {
                assert(p[i] == l[i]);
                assert(before.contains(x));
                let j = choose|j: int| 0 <= j < before.len() && before[j] == x;
                assert(all[j] == x);
            } else {
                assert(all[all.len() - 1] == x);
            }
        }
    }
}

/// What is interned for a set: the kinds of its sequences.
pub proof fn lemma_row(tokens: Seq<TokenView>, f: Set<NameSeq>, names: Set<Seq<char>>, k: nat)
    requires
        names.finite(),
        f.subset_of(universe::all_seqs(names, k)),
    ensures
        forall|x: Seq<u16>| #[trigger]
            program::first_row(tokens, f).contains(x) <==> looks(tokens, f).contains(x),
        forall|x: Seq<u16>| #[trigger]
            program::first_row(tokens, f).contains(x) ==> 0 < x.len() <= k,
{
    let u = universe::all_seqs(names, k);
    universe::lemma_all_seqs_finite(names, k);
    vstd::set_lib::lemma_set_subset_finite(u, f);
    let l = first_set::listed(f);
    lemma_listed(f);
    lemma_kind_seqs(tokens, l);
    sorting::lemma_seq_set(program::kind_seqs(tokens, l));
    let row = program::first_row(tokens, f);
    assert forall|x: Seq<u16>| #[trigger] row.contains(x) implies looks(tokens, f).contains(x) && 0
        < x.len() <= k by {
        assert(program::kind_seqs(tokens, l).contains(x));
        let i = choose|i: int|
            0 <= i < l.len() && (#[trigger] l[i]).len() > 0 && program::kinds_of(tokens, l[i]) == x;
        assert(l.contains(l[i]));
        assert(l.to_set().contains(l[i]));
        assert(f.contains(l[i]));
        assert(u.contains(l[i]));
        assert(x.len() == l[i].len());
    }
    assert forall|x: Seq<u16>| looks(tokens, f).contains(x) implies #[trigger] row.contains(x) by {
        let s = choose|s: NameSeq| #[trigger]
            f.contains(s) && s.len() > 0 && program::kinds_of(tokens, s) == x;
        assert(l.to_set().contains(s));
        let i = choose|i: int| 0 <= i < l.len() && l[i] == s;
        assert(program::kind_seqs(tokens, l).contains(program::kinds_of(tokens, l[i])));
    }
}

/// FIRST and FOLLOW hold short sequences only.
pub proof fn lemma_short(ag: AnalyzedGrammar)
    requires
        ag.wf(),
    ensures
        sigma(ag).finite(),
        forall|e: ExprView|
            inside(ag, e) ==> (#[trigger] program::first_in(ag, e)).subset_of(short(ag)),
        forall|n: Seq<char>|
            (#[trigger] first_follow::set_at(first_follow::firsts(ag.follow_k), n)).subset_of(
                short(ag),
            ),
{
    let rules = ag.grammar.rule_list();
    let f = first_follow::firsts(ag.first);
    let fo = first_follow::firsts(ag.follow_k);
    let names = sigma(ag);
    let u = short(ag);
    let k = ag.k as nat;
    let len = follow::lemma_follow_alphabet(rules, ag.first, k);
    assert forall|n: Seq<char>| (#[trigger] first_follow::set_at(f, n)).subset_of(u) by {
        let e = ExprView::Rule(n);
        decided::lemma_short(ag, e);
        assert forall|s: NameSeq| first_follow::set_at(f, n).contains(s) implies u.contains(s) by {
            assert(program::first_in(ag, e).contains(s));
            assert(universe::all_seqs(names, len).contains(s));
        }
    }
    assert forall|e: ExprView| inside(ag, e) implies (#[trigger] program::first_in(ag, e)).subset_of(
        u,
    ) by {
        first_follow::lemma_first_bounded(e, ag.nullable@, f, k, names, k);
    }
    follow_k::lemma_full_holds(rules, k, ag.nullable@, f, names, k);
    let fo2 = follow::full(follow::all_keys(rules), u);
    assert(first_follow::tables_le(fo, fo2));
    assert forall|n: Seq<char>| (#[trigger] first_follow::set_at(fo, n)).subset_of(u) by {
        assert(first_follow::set_at(fo, n).subset_of(first_follow::set_at(fo2, n)));
    }
}

/// No sequence of one set begins one of the other.
pub open spec fn apart(tokens: Seq<TokenView>, a: Set<NameSeq>, b: Set<NameSeq>) -> bool {
    forall|x: Seq<u16>, y: Seq<u16>|
        #![trigger looks(tokens, a).contains(x), looks(tokens, b).contains(y)]
        looks(tokens, a).contains(x) && looks(tokens, b).contains(y) ==> !one_begins(x, y)
}

/// What can come where the alternative is, with `tail` behind it.
pub open spec fn predicted(ag: AnalyzedGrammar, x: ExprView, tail: Set<NameSeq>) -> Set<NameSeq> {
    first_set::concat_k_of(program::first_in(ag, x), tail, ag.k as nat).remove(Seq::empty())
}

/// What can come behind the first `i` items, with `tail` behind all of them.
pub open spec fn rest(
    ag: AnalyzedGrammar,
    xs: Seq<ExprView>,
    i: int,
    tail: Set<NameSeq>,
) -> Set<NameSeq> {
    follow_k::rest_then(
        xs,
        i,
        tail,
        ag.nullable@,
        first_follow::firsts(ag.first),
        ag.k as nat,
    )
}

/// In the expression, with `tail` behind it, the lookahead tells an option and
/// a round of a loop from what comes behind them.
pub open spec fn decisive(ag: AnalyzedGrammar, e: ExprView, tail: Set<NameSeq>) -> bool
    decreases e,
{
    let tokens = ag.grammar.token_list();
    match e {
        ExprView::Concat(xs) => forall|i: int|
            0 <= i < xs.len() ==> decisive(ag, #[trigger] xs[i], rest(ag, xs, i + 1, tail)),
        ExprView::Alt(xs) => forall|i: int|
            0 <= i < xs.len() ==> decisive(ag, #[trigger] xs[i], tail),
        ExprView::Opt(x) => {
            &&& apart(tokens, program::first_in(ag, *x), tail)
            &&& decisive(ag, *x, tail)
        },
        ExprView::Star(x) => {
            &&& apart(tokens, program::first_in(ag, *x), tail)
            &&& decisive(ag, *x, program::looped(ag, *x, tail))
        },
        ExprView::Plus(x) => {
            &&& apart(tokens, program::first_in(ag, *x), tail)
            &&& decisive(ag, *x, program::looped(ag, *x, tail))
        },
        ExprView::Label(_, x) => decisive(ag, *x, tail),
        _ => true,
    }
}

/// The lookahead tells every option and every round of a loop of the grammar
/// from what comes behind it.
pub open spec fn options_told(ag: AnalyzedGrammar) -> bool {
    let rules = ag.grammar.rule_list();
    let follow = first_follow::firsts(ag.follow_k);
    forall|i: int|
        0 <= i < rules.len() ==> decisive(
            ag,
            (#[trigger] rules[i]).body,
            first_follow::set_at(follow, rules[i].name),
        )
}

/// Every token that the rules speak of has a kind of its own.
pub open spec fn tokens_known(ag: AnalyzedGrammar) -> bool {
    let tokens = ag.grammar.token_list();
    forall|n: Seq<char>|
        first_follow::rules_alphabet(ag.grammar.rule_list()).contains(n) ==> {
            let k = #[trigger] program::kind_of(tokens, n);
            0 < k <= program::kind_names(tokens).len() && program::kind_names(tokens)[k - 1] == n
        }
}

proof fn lemma_tokens_checked(
    e: ExprView,
    defs: Seq<(Seq<char>, TokenView)>,
    rules: Seq<(Seq<char>, RuleView)>,
    ctx: RuleView,
    n: Seq<char>,
)
    requires
        !diagnostic::any_error(check::expr_ref_diags(e, defs, rules, ctx)),
        first_follow::mentions(e, n),
    ensures
        ir::lookup(defs, n) matches Some(t) && !t.is_fragment,
    decreases e, 0nat,
{
    match e {
        ExprView::Token(m) => {
            let l = check::expr_ref_diags(e, defs, rules, ctx);
            if ir::lookup(defs, n) is None || ir::lookup(defs, n)->0.is_fragment {
                assert(l[0].severity == Severity::Error);
            }
        },
        ExprView::Concat(xs) => {
            let i = choose|i: int| 0 <= i < xs.len() && first_follow::mentions(#[trigger] xs[i], n);
            lemma_listed_checked(xs, defs, rules, ctx, n, i);
        },
        ExprView::Alt(xs) => {
            let i = choose|i: int| 0 <= i < xs.len() && first_follow::mentions(#[trigger] xs[i], n);
            lemma_listed_checked(xs, defs, rules, ctx, n, i);
        },
        ExprView::Opt(x) => lemma_tokens_checked(*x, defs, rules, ctx, n),
        ExprView::Star(x) => lemma_tokens_checked(*x, defs, rules, ctx, n),
        ExprView::Plus(x) => lemma_tokens_checked(*x, defs, rules, ctx, n),
        ExprView::Label(_, x) => lemma_tokens_checked(*x, defs, rules, ctx, n),
        _ => {},
    }
}

proof fn lemma_listed_checked(
    xs: Seq<ExprView>,
    defs: Seq<(Seq<char>, TokenView)>,
    rules: Seq<(Seq<char>, RuleView)>,
    ctx: RuleView,
    n: Seq<char>,
    i: int,
)
    requires
        !diagnostic::any_error(check::list_ref_diags(xs, defs, rules, ctx)),
        0 <= i < xs.len(),
        first_follow::mentions(xs[i], n),
    ensures
        ir::lookup(defs, n) matches Some(t) && !t.is_fragment,
    decreases xs, xs.len(),
{
    let p = xs.drop_last();
    closed::lemma_error_parts(
        check::list_ref_diags(p, defs, rules, ctx),
        check::expr_ref_diags(xs.last(), defs, rules, ctx),
    );
    if i < p.len() {
        assert(p[i] == xs[i]);
        lemma_listed_checked(p, defs, rules, ctx, n, i);
    } else {
        lemma_tokens_checked(xs.last(), defs, rules, ctx, n);
    }
}

proof fn lemma_kind_named(tokens: Seq<TokenView>, i: int)
    requires
        0 <= i < tokens.len(),
        !tokens[i].is_fragment,
    ensures
        program::kind_names(tokens).contains(tokens[i].name),
    decreases tokens.len(),
{
    let p = tokens.drop_last();
    let all = program::kind_names(tokens);
    if i < p.len() {
        lemma_kind_named(p, i);
        let j = choose|j: int|
            0 <= j < program::kind_names(p).len() && program::kind_names(p)[j] == p[i].name;
        assert(all[j] == tokens[i].name);
    } else {
        assert(all.last() == tokens[i].name);
    }
}

proof fn lemma_kinds_bounded(tokens: Seq<TokenView>)
    ensures
        program::kind_names(tokens).len() <= tokens.len(),
    decreases tokens.len(),
{
    if tokens.len() > 0 {
        lemma_kinds_bounded(tokens.drop_last());
    }
}

/// A name with a kind is the name of a token.
pub proof fn lemma_kinds_are_tokens(tokens: Seq<TokenView>, n: Seq<char>) -> (i: int)
    requires
        program::kind_names(tokens).contains(n),
    ensures
        0 <= i < tokens.len(),
        tokens[i].name == n,
    decreases tokens.len(),
{
    let p = tokens.drop_last();
    let all = program::kind_names(tokens);
    let j = choose|j: int| 0 <= j < all.len() && all[j] == n;
    if tokens.last().is_fragment {
        lemma_kinds_are_tokens(p, n)
    } else if j < program::kind_names(p).len() {
        assert(program::kind_names(p)[j] == n);
        lemma_kinds_are_tokens(p, n)
    } else {
        tokens.len() - 1
    }
}

/// In a grammar of which the validators report no error, every token that the
/// rules speak of has a kind of its own, and no two rules have the same name.
/// The tokens stand under their names, and 16 bits are enough to count them.
pub proof fn law_checked_names_are_known(ag: AnalyzedGrammar)
    requires
        check::well_named(ag.grammar.token_map()),
        ag.grammar.token_list().len() <= u16::MAX,
        !diagnostic::any_error(check::validate_diags(ag.grammar)),
    ensures
        tokens_known(ag),
        runs::names_apart(ag.grammar.rule_list()),
{
    let g = ag.grammar;
    let tokens = g.token_list();
    let rules = g.rule_list();
    let defs = g.token_map();
    assert forall|n: Seq<char>| first_follow::rules_alphabet(rules).contains(n) implies ({
        let k = #[trigger] program::kind_of(tokens, n);
        0 < k <= program::kind_names(tokens).len() && program::kind_names(tokens)[k - 1] == n
    }) by {
        let i = choose|i: int|
            0 <= i < rules.len() && first_follow::mentions((#[trigger] rules[i]).body, n);
        closed::lemma_rule_checked(g, i);
        lemma_tokens_checked(rules[i].body, defs, g.rule_map(), rules[i], n);
        ir::lemma_position(defs, n);
        let at = ir::position(defs, n);
        assert(defs[at].0 == n && tokens[at] == defs[at].1);
        lemma_kind_named(tokens, at);
        lemma_kinds_bounded(tokens);
        program::lemma_place(program::kind_names(tokens), n);
    }
    assert forall|i: int, j: int| 0 <= i < j < rules.len() implies (#[trigger] rules[i]).name != (
    #[trigger] rules[j]).name by {
        closed::lemma_rule_checked(g, j);
    }
}

/// The analysis finds no conflict in the expression, with `tail` behind it.
pub open spec fn clear(ag: AnalyzedGrammar, e: ExprView, tail: Set<NameSeq>) -> bool {
    exists|r: RuleView|
        (#[trigger] lookahead::expr_conflicts(decided::tables(ag), e, tail, r)).len() == 0
}

/// The analysis finds no conflict in any rule.
pub open spec fn clear_rules(ag: AnalyzedGrammar) -> bool {
    let rules = ag.grammar.rule_list();
    let follow = first_follow::firsts(ag.follow_k);
    forall|i: int|
        0 <= i < rules.len() ==> clear(
            ag,
            (#[trigger] rules[i]).body,
            first_follow::set_at(follow, rules[i].name),
        )
}

/// Where the search for a lookahead came to an end, no rule has a conflict.
pub proof fn lemma_solved(ag: AnalyzedGrammar)
    requires
        ag.wf(),
        lookahead::solved_at(ag.grammar.rule_list(), ag.k as nat),
    ensures
        clear_rules(ag),
{
    let rules = ag.grammar.rule_list();
    let fo = first_follow::firsts(ag.follow_k);
    decided::lemma_no_conflicts(ag);
    assert forall|i: int| 0 <= i < rules.len() implies clear(
        ag,
        (#[trigger] rules[i]).body,
        first_follow::set_at(fo, rules[i].name),
    ) by {
        lemma_rule_clear(ag, rules.len(), i);
    }
}

proof fn lemma_rule_clear(ag: AnalyzedGrammar, n: nat, i: int)
    requires
        0 <= i < n <= ag.grammar.rule_list().len(),
        lookahead::rules_conflicts(
            decided::tables(ag),
            ag.grammar.rule_list(),
            first_follow::firsts(ag.follow_k),
            n,
        ).len() == 0,
    ensures
        clear(
            ag,
            ag.grammar.rule_list()[i].body,
            first_follow::set_at(
                first_follow::firsts(ag.follow_k),
                ag.grammar.rule_list()[i].name,
            ),
        ),
    decreases n,
{
    if i < n - 1 {
        lemma_rule_clear(ag, (n - 1) as nat, i);
    } else {
        let r = ag.grammar.rule_list()[i];
        let tail = first_follow::set_at(first_follow::firsts(ag.follow_k), r.name);
        assert(lookahead::expr_conflicts(decided::tables(ag), r.body, tail, r).len() == 0);
    }
}

proof fn lemma_seq_clear(
    ag: AnalyzedGrammar,
    xs: Seq<ExprView>,
    tail: Set<NameSeq>,
    r: RuleView,
    n: nat,
    i: int,
)
    requires
        0 <= i < n <= xs.len(),
        lookahead::seq_conflicts(decided::tables(ag), xs, tail, r, n).len() == 0,
    ensures
        clear(ag, xs[i], rest(ag, xs, i + 1, tail)),
    decreases n,
{
    if i < n - 1 {
        lemma_seq_clear(ag, xs, tail, r, (n - 1) as nat, i);
    } else {
        let t = decided::tables(ag);
        assert(lookahead::expr_conflicts(t, xs[i], rest(ag, xs, i + 1, tail), r).len() == 0);
    }
}

proof fn lemma_alt_clear(
    ag: AnalyzedGrammar,
    xs: Seq<ExprView>,
    tail: Set<NameSeq>,
    r: RuleView,
    n: nat,
    i: int,
)
    requires
        0 <= i < n <= xs.len(),
        lookahead::alt_conflicts(decided::tables(ag), xs, tail, r, n).len() == 0,
    ensures
        clear(ag, xs[i], tail),
    decreases n,
{
    if i < n - 1 {
        lemma_alt_clear(ag, xs, tail, r, (n - 1) as nat, i);
    } else {
        let t = decided::tables(ag);
        assert(lookahead::expr_conflicts(t, xs[i], tail, r).len() == 0);
    }
}

/// The items of a sequence have no conflict if the sequence has none.
pub proof fn lemma_item_clear(
    ag: AnalyzedGrammar,
    xs: Seq<ExprView>,
    tail: Set<NameSeq>,
    i: int,
)
    requires
        0 <= i < xs.len(),
        clear(ag, ExprView::Concat(xs), tail),
    ensures
        clear(ag, xs[i], rest(ag, xs, i + 1, tail)),
{
    let e = ExprView::Concat(xs);
    let r = choose|r: RuleView|
        (#[trigger] lookahead::expr_conflicts(decided::tables(ag), e, tail, r)).len() == 0;
    lemma_seq_clear(ag, xs, tail, r, xs.len(), i);
}

/// Alternatives have no conflict if the alternation has none.
pub proof fn lemma_arm_clear(
    ag: AnalyzedGrammar,
    xs: Seq<ExprView>,
    tail: Set<NameSeq>,
    i: int,
)
    requires
        0 <= i < xs.len(),
        clear(ag, ExprView::Alt(xs), tail),
    ensures
        clear(ag, xs[i], tail),
{
    let e = ExprView::Alt(xs);
    let r = choose|r: RuleView|
        (#[trigger] lookahead::expr_conflicts(decided::tables(ag), e, tail, r)).len() == 0;
    lemma_alt_clear(ag, xs, tail, r, xs.len(), i);
}

/// What is inside an option, a loop or a label has no conflict if the whole has
/// none.
pub proof fn lemma_inner_clear(ag: AnalyzedGrammar, e: ExprView, tail: Set<NameSeq>)
    requires
        clear(ag, e, tail),
    ensures
        match e {
            ExprView::Opt(x) => clear(ag, *x, tail),
            ExprView::Label(_, x) => clear(ag, *x, tail),
            ExprView::Star(x) => clear(ag, *x, program::looped(ag, *x, tail)),
            ExprView::Plus(x) => clear(ag, *x, program::looped(ag, *x, tail)),
            _ => true,
        },
{
    let t = decided::tables(ag);
    let r = choose|r: RuleView|
        (#[trigger] lookahead::expr_conflicts(t, e, tail, r)).len() == 0;
    match e {
        ExprView::Opt(x) => {
            assert(lookahead::expr_conflicts(t, *x, tail, r).len() == 0);
        },
        ExprView::Label(_, x) => {
            assert(lookahead::expr_conflicts(t, *x, tail, r).len() == 0);
        },
        ExprView::Star(x) => {
            let inner = program::looped(ag, *x, tail);
            assert(lookahead::expr_conflicts(t, *x, inner, r).len() == 0);
        },
        ExprView::Plus(x) => {
            let inner = program::looped(ag, *x, tail);
            assert(lookahead::expr_conflicts(t, *x, inner, r).len() == 0);
        },
        _ => {},
    }
}

/// FIRST speaks of tokens that the rules speak of.
proof fn lemma_sigma(ag: AnalyzedGrammar)
    requires
        ag.wf(),
    ensures
        forall|n: Seq<char>| #[trigger]
            sigma(ag).contains(n) ==> n == EOF_MARKER@ || first_follow::rules_alphabet(
                ag.grammar.rule_list(),
            ).contains(n),
{
    let rules = ag.grammar.rule_list();
    let names = first_follow::rules_alphabet(rules);
    let k = ag.k as nat;
    let u = universe::all_seqs(names, k);
    let n2 = Map::<Seq<char>, bool>::new(|n: Seq<char>| true, |n: Seq<char>| true);
    let f2 = Map::<Seq<char>, Set<NameSeq>>::new(|n: Seq<char>| true, |n: Seq<char>| u);
    assert forall|n: Seq<char>| (#[trigger] first_follow::set_at(f2, n)).subset_of(u) by {}
    assert forall|i: int| 0 <= i < rules.len() implies first_follow::rule_closed(
        #[trigger] rules[i],
        k,
        n2,
        f2,
    ) by {
        assert forall|n: Seq<char>| first_follow::mentions(
            rules[i].body,
            n,
        ) implies #[trigger] names.contains(n) by {}
        first_follow::lemma_first_bounded(rules[i].body, n2, f2, k, names, k);
    }
    assert(first_follow::first_closed(rules, k, n2, f2));
    let f = first_follow::firsts(ag.first);
    assert forall|n: Seq<char>| #[trigger] sigma(ag).contains(n) implies n == EOF_MARKER@
        || names.contains(n) by {
        if n != EOF_MARKER@ && !names.contains(n) {
            let x = choose|x: NameSeq| follow::filed(f).contains(x) && #[trigger] x.contains(n);
            let m = choose|m: Seq<char>| #[trigger] first_follow::set_at(f, m).contains(x);
            assert(first_follow::set_at(f, m).subset_of(first_follow::set_at(f2, m)));
            assert(u.contains(x));
            let i = choose|i: int| 0 <= i < x.len() && x[i] == n;
            assert(names.contains(x[i]));
        }
    }
}

/// Names of one kind are one name.
proof fn lemma_one_name(ag: AnalyzedGrammar, a: Seq<char>, b: Seq<char>)
    requires
        ag.wf(),
        tokens_known(ag),
        program::kind_of(ag.grammar.token_list(), EOF_MARKER@) == 0,
        sigma(ag).contains(a),
        sigma(ag).contains(b),
        program::kind_of(ag.grammar.token_list(), a) == program::kind_of(
            ag.grammar.token_list(),
            b,
        ),
    ensures
        a == b,
{
    lemma_sigma(ag);
}

proof fn lemma_begins_names(ag: AnalyzedGrammar, s: NameSeq, t: NameSeq)
    requires
        ag.wf(),
        tokens_known(ag),
        program::kind_of(ag.grammar.token_list(), EOF_MARKER@) == 0,
        short(ag).contains(s),
        short(ag).contains(t),
        program::kinds_of(ag.grammar.token_list(), s).is_prefix_of(
            program::kinds_of(ag.grammar.token_list(), t),
        ),
    ensures
        s.is_prefix_of(t),
{
    let tokens = ag.grammar.token_list();
    let x = program::kinds_of(tokens, s);
    let y = program::kinds_of(tokens, t);
    assert forall|i: int| 0 <= i < s.len() implies s[i] == t[i] by {
        assert(x[i] == y.subrange(0, x.len() as int)[i]);
        assert(sigma(ag).contains(s[i]));
        assert(sigma(ag).contains(t[i]));
        lemma_one_name(ag, s[i], t[i]);
    }
    assert(s =~= t.subrange(0, s.len() as int));
}

/// Sets of short sequences that do not overlap are apart.
proof fn lemma_apart(ag: AnalyzedGrammar, f: Set<NameSeq>, g: Set<NameSeq>)
    requires
        ag.wf(),
        tokens_known(ag),
        program::kind_of(ag.grammar.token_list(), EOF_MARKER@) == 0,
        f.subset_of(short(ag)),
        g.subset_of(short(ag)),
        lookahead::overlap(f, g) == Set::<NameSeq>::empty(),
    ensures
        apart(ag.grammar.token_list(), f, g),
{
    let tokens = ag.grammar.token_list();
    assert forall|x: Seq<u16>, y: Seq<u16>|
        #![trigger looks(tokens, f).contains(x), looks(tokens, g).contains(y)]
        looks(tokens, f).contains(x) && looks(tokens, g).contains(y) implies !one_begins(x, y) by {
        let s = choose|s: NameSeq| #[trigger]
            f.contains(s) && s.len() > 0 && program::kinds_of(tokens, s) == x;
        let t = choose|t: NameSeq| #[trigger]
            g.contains(t) && t.len() > 0 && program::kinds_of(tokens, t) == y;
        if x.is_prefix_of(y) {
            lemma_begins_names(ag, s, t);
            assert(lookahead::overlap(f, g).contains(s));
        }
        if y.is_prefix_of(x) {
            lemma_begins_names(ag, t, s);
            assert(lookahead::overlap(f, g).contains(t));
        }
    }
}

/// Alternatives without a conflict are taken on different tokens.
pub proof fn lemma_arms_apart(
    ag: AnalyzedGrammar,
    xs: Seq<ExprView>,
    tail: Set<NameSeq>,
    i: int,
    j: int,
)
    requires
        ag.wf(),
        tokens_known(ag),
        program::kind_of(ag.grammar.token_list(), EOF_MARKER@) == 0,
        0 <= i < j < xs.len(),
        clear(ag, ExprView::Alt(xs), tail),
        predicted(ag, xs[i], tail).subset_of(short(ag)),
        predicted(ag, xs[j], tail).subset_of(short(ag)),
    ensures
        apart(ag.grammar.token_list(), predicted(ag, xs[i], tail), predicted(ag, xs[j], tail)),
{
    let e = ExprView::Alt(xs);
    let t = decided::tables(ag);
    let r = choose|r: RuleView|
        (#[trigger] lookahead::expr_conflicts(t, e, tail, r)).len() == 0;
    assert(lookahead::arm_conflicts(t, xs, tail, r, 0).len() == 0);
    decided::lemma_pairs(t, xs, tail, r, 0, i, j);
    assert(predicted(ag, xs[i], tail) == lookahead::predict(t, xs[i], tail));
    assert(predicted(ag, xs[j], tail) == lookahead::predict(t, xs[j], tail));
    lemma_apart(ag, predicted(ag, xs[i], tail), predicted(ag, xs[j], tail));
}

} // verus!
