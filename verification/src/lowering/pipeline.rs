//! The lowering of an analyzed grammar to a state table.
//!
//! The rules are translated to blocks, the blocks are laid out as numbered
//! states, the states are optimized, and what recovery needs is stamped on.
use vstd::prelude::*;

use crate::analysis::first_follow;
use crate::analysis::follow;
use crate::analysis::AnalyzedGrammar;
use crate::grammar::ir::{self, ClassItem, Grammar, PatternView, TokenPattern};
use crate::grammar::refs;
use crate::grammar::resolve;
use crate::lowering::closed;
use crate::lowering::kept;
use crate::lowering::language;
use crate::lowering::layout;
use crate::lowering::lexer_dfa::{self, DfaOpts};
use crate::lowering::nfa;
use crate::lowering::optimize::{self, LoweringOpts};
use crate::lowering::program::{self, Program};
use crate::lowering::recovery;
use crate::lowering::state_first::{self, Firsts};
use crate::lowering::table::{
    self, Body, BodyView, DispatchLeaf, DispatchTree, FirstSet, Instr, InstrView, LeafView,
    StateTable, StateView, Tail, TailView, TreeView,
};
use crate::lowering::validate;
use crate::names;
use crate::sorting;

verus! {

/// The body asks at run time whether the lookahead is in the FIRST set.
pub open spec fn body_asks(b: BodyView, id: u32) -> bool
    decreases b, 1nat,
{
    tail_asks(b.tail, id)
}

/// The end of a body asks for the FIRST set.
pub open spec fn tail_asks(t: TailView, id: u32) -> bool
    decreases t, 0nat,
{
    match t {
        TailView::Jump(_) => false,
        TailView::Ret => false,
        TailView::Star(f, b, _, _) => f == id || body_asks(*b, id),
        TailView::Opt(f, b, _) => f == id || body_asks(*b, id),
        TailView::Dispatch(tree, _, _, _) => tree_asks(tree, id),
    }
}

/// The leaf asks for the FIRST set.
pub open spec fn leaf_asks(l: LeafView, id: u32) -> bool
    decreases l, 0nat,
{
    match l {
        LeafView::Arm(b) => body_asks(*b, id),
        _ => false,
    }
}

/// The tree asks for the FIRST set.
pub open spec fn tree_asks(t: TreeView, id: u32) -> bool
    decreases t, 0nat,
{
    match t {
        TreeView::Leaf(l) => leaf_asks(l, id),
        TreeView::Switch(_, _, subs, default) => leaf_asks(default, id) || exists|i: int|
            0 <= i < subs.len() && tree_asks(#[trigger] subs[i], id),
    }
}

/// Some state asks for the FIRST set.
pub open spec fn any_asks(states: Seq<StateView>, id: u32) -> bool {
    exists|i: int| 0 <= i < states.len() && body_asks((#[trigger] states[i]).body, id)
}

fn asks_body(b: &Body, id: u32) -> (r: bool)
    ensures
        r == body_asks(b@, id),
    decreases b, 1nat,
{
    asks_tail(&b.tail, id)
}

fn asks_tail(t: &Tail, id: u32) -> (r: bool)
    ensures
        r == tail_asks(t@, id),
    decreases t, 0nat,
{
    match t {
        Tail::Jump(_) => false,
        Tail::Ret => false,
        Tail::Star { first, body, cont: _, head: _ } => *first == id || asks_body(body, id),
        Tail::Opt { first, body, cont: _ } => *first == id || asks_body(body, id),
        Tail::Dispatch { tree, sync: _, cont: _, insertions: _ } => asks_tree(tree, id),
    }
}

fn asks_leaf(l: &DispatchLeaf, id: u32) -> (r: bool)
    ensures
        r == leaf_asks(l@, id),
    decreases l, 0nat,
{
    match l {
        DispatchLeaf::Arm(b) => asks_body(b, id),
        _ => false,
    }
}

fn asks_tree(t: &DispatchTree, id: u32) -> (r: bool)
    ensures
        r == tree_asks(t@, id),
    decreases t, 0nat,
{
    match t {
        DispatchTree::Leaf(l) => asks_leaf(l, id),
        DispatchTree::Switch { depth: _, arms, default } => {
            assert(t@->Switch_2 == table::arm_trees(arms@));
            asks_leaf(default, id) || asks_arms(arms, id)
        },
    }
}

fn asks_arms(arms: &Vec<(u16, DispatchTree)>, id: u32) -> (r: bool)
    ensures
        r == exists|i: int|
            0 <= i < arms@.len() && tree_asks(#[trigger] table::arm_trees(arms@)[i], id),
    decreases arms, 0nat,
{
    let ghost subs = table::arm_trees(arms@);
    let mut i: usize = 0;
    while i < arms.len()
        invariant
            i <= arms@.len(),
            subs == table::arm_trees(arms@),
            forall|m: int| 0 <= m < i ==> !tree_asks(#[trigger] subs[m], id),
        decreases arms@.len() - i,
    {
        assert(subs[i as int] == arms@[i as int].1@);
        if asks_tree(&arms[i].1, id) {
            return true;
        }
        i += 1;
    }
    false
}

fn asks_any(table: &StateTable, id: u32) -> (r: bool)
    ensures
        r == any_asks(table.states@, id),
{
    let n = table.states.len();
    let mut i: usize = 0;
    while i < n
        invariant
            i <= n,
            n == table.states@.len(),
            forall|m: int| 0 <= m < i ==> !body_asks((#[trigger] table.states@[m]).body, id),
        decreases n - i,
    {
        if asks_body(&table.states.at(i).body, id) {
            return true;
        }
        i += 1;
    }
    false
}

/// The pool after it was marked: with more than one token of lookahead, the
/// sets that some state asks for are.
pub open spec fn marked(after: Seq<FirstSet>, before: Seq<FirstSet>, st: StateTable) -> bool {
    &&& after.len() == before.len()
    &&& forall|i: int|
        0 <= i < after.len() ==> (#[trigger] after[i]).id == before[i].id && table::seqs_view(
            after[i].seqs@,
        ) == table::seqs_view(before[i].seqs@) && after[i].has_references == if st.k == 1 {
            before[i].has_references
        } else {
            any_asks(st.states@, before[i].id)
        }
}

fn clone_seqs(v: &Vec<Vec<u16>>) -> (r: Vec<Vec<u16>>)
    ensures
        table::seqs_view(r@) == table::seqs_view(v@),
{
    let mut r: Vec<Vec<u16>> = Vec::new();
    let mut i: usize = 0;
    while i < v.len()
        invariant
            i <= v@.len(),
            r@.len() == i,
            forall|m: int| 0 <= m < i ==> (#[trigger] r@[m])@ == v@[m]@,
        decreases v@.len() - i,
    {
        r.push(sorting::clone_kinds(&v[i]));
        i += 1;
    }
    assert(table::seqs_view(r@) =~= table::seqs_view(v@));
    r
}

/// Mark every FIRST set that the generated code consults: one token of
/// lookahead needs none.
pub fn mark_first_set_references(table: &mut StateTable)
    ensures
        *final(table) == (StateTable { first_sets: final(table).first_sets, ..*old(table) }),
        marked(final(table).first_sets@, old(table).first_sets@, *old(table)),
{
    if table.k == 1 {
        return;
    }
    let mut out: Vec<FirstSet> = Vec::new();
    let mut i: usize = 0;
    while i < table.first_sets.len()
        invariant
            i <= table.first_sets@.len(),
            out@.len() == i,
            forall|m: int|
                0 <= m < i ==> (#[trigger] out@[m]).id == table.first_sets@[m].id
                    && table::seqs_view(out@[m].seqs@) == table::seqs_view(
                    table.first_sets@[m].seqs@,
                ) && out@[m].has_references == any_asks(
                    table.states@,
                    table.first_sets@[m].id,
                ),
        decreases table.first_sets@.len() - i,
    {
        let f = &table.first_sets[i];
        let id = f.id;
        let seqs = clone_seqs(&f.seqs);
        let has_references = asks_any(table, id);
        out.push(FirstSet { id, seqs, has_references });
        i += 1;
    }
    table.first_sets = out;
}

/// The largest number of events that one run through a body emits, where a
/// jump goes to another run and a miss is not counted.
pub open spec fn body_burst(b: BodyView) -> nat
    decreases b, 1nat,
{
    validate::instrs_events(b.instrs) + tail_burst(b.tail)
}

pub open spec fn tail_burst(t: TailView) -> nat
    decreases t, 0nat,
{
    match t {
        TailView::Jump(_) => 0,
        TailView::Ret => 0,
        TailView::Star(_, b, _, _) => body_burst(*b),
        TailView::Opt(_, b, _) => body_burst(*b),
        TailView::Dispatch(tree, _, _, _) => tree_burst(tree),
    }
}

pub open spec fn leaf_burst(l: LeafView) -> nat
    decreases l, 0nat,
{
    match l {
        LeafView::Arm(b) => body_burst(*b),
        _ => 0,
    }
}

pub open spec fn tree_burst(t: TreeView) -> nat
    decreases t, 0nat,
{
    match t {
        TreeView::Leaf(l) => leaf_burst(l),
        TreeView::Switch(_, _, subs, default) => validate::larger(
            leaf_burst(default),
            trees_burst(subs, subs.len()),
        ),
    }
}

pub open spec fn trees_burst(subs: Seq<TreeView>, n: nat) -> nat
    decreases subs, n,
{
    if n == 0 || n > subs.len() {
        0
    } else {
        validate::larger(trees_burst(subs, (n - 1) as nat), tree_burst(subs[n - 1]))
    }
}

/// The largest burst of the first `n` states.
pub open spec fn states_burst(states: Seq<StateView>, n: nat) -> nat
    decreases n,
{
    if n == 0 || n > states.len() {
        0
    } else {
        validate::larger(states_burst(states, (n - 1) as nat), body_burst(states[n - 1].body))
    }
}

/// The number, as far as a `usize` counts.
pub open spec fn as_usize(n: nat) -> int {
    if n <= usize::MAX {
        n as int
    } else {
        usize::MAX as int
    }
}

fn events_in_instrs(l: &Vec<Instr>) -> (r: usize)
    ensures
        r == as_usize(validate::instrs_events(table::instrs_view(l@))),
{
    let ghost lv = table::instrs_view(l@);
    let mut n: usize = 0;
    let mut i: usize = 0;
    assert(lv.take(0) =~= Seq::<InstrView>::empty());
    while i < l.len()
        invariant
            i <= l@.len(),
            lv == table::instrs_view(l@),
            n == as_usize(validate::instrs_events(lv.take(i as int))),
        decreases l@.len() - i,
    {
        assert(lv.take(i + 1).drop_last() =~= lv.take(i as int));
        assert(lv.take(i + 1).last() == l@[i as int]@);
        let here: usize = match &l[i] {
            Instr::PushRet(_) => 0,
            _ => 1,
        };
        n = n.saturating_add(here);
        i += 1;
    }
    assert(lv.take(i as int) =~= lv);
    n
}

fn events_in_body(b: &Body) -> (r: usize)
    ensures
        r == as_usize(body_burst(b@)),
    decreases b, 1nat,
{
    let head = events_in_instrs(&b.instrs);
    let tail = events_in_tail(&b.tail);
    head.saturating_add(tail)
}

fn events_in_tail(t: &Tail) -> (r: usize)
    ensures
        r == as_usize(tail_burst(t@)),
    decreases t, 0nat,
{
    match t {
        Tail::Jump(_) => 0,
        Tail::Ret => 0,
        Tail::Star { first: _, body, cont: _, head: _ } => events_in_body(body),
        Tail::Opt { first: _, body, cont: _ } => events_in_body(body),
        Tail::Dispatch { tree, sync: _, cont: _, insertions: _ } => max_arm_events(tree),
    }
}

fn events_in_leaf(l: &DispatchLeaf) -> (r: usize)
    ensures
        r == as_usize(leaf_burst(l@)),
    decreases l, 0nat,
{
    match l {
        DispatchLeaf::Arm(b) => events_in_body(b),
        _ => 0,
    }
}

fn max_arm_events(t: &DispatchTree) -> (r: usize)
    ensures
        r == as_usize(tree_burst(t@)),
    decreases t, 0nat,
{
    match t {
        DispatchTree::Leaf(l) => events_in_leaf(l),
        DispatchTree::Switch { depth: _, arms, default } => {
            let a = events_in_leaf(default);
            let b = max_sub_events(arms);
            if a > b {
                a
            } else {
                b
            }
        },
    }
}

fn max_sub_events(arms: &Vec<(u16, DispatchTree)>) -> (r: usize)
    ensures
        r == as_usize(trees_burst(table::arm_trees(arms@), arms@.len())),
    decreases arms, 0nat,
{
    let ghost subs = table::arm_trees(arms@);
    let mut n: usize = 0;
    let mut i: usize = 0;
    while i < arms.len()
        invariant
            i <= arms@.len(),
            subs == table::arm_trees(arms@),
            n == as_usize(trees_burst(subs, i as nat)),
        decreases arms@.len() - i,
    {
        let here = max_arm_events(&arms[i].1);
        assert(subs[i as int] == arms@[i as int].1@);
        if here > n {
            n = here;
        }
        i += 1;
    }
    n
}

/// The largest number of events that one state body can emit.
///
/// A jump counts for nothing: the state that it leads to runs later and has
/// its own count.
pub fn max_event_burst(table: &StateTable) -> (r: usize)
    ensures
        r == as_usize(states_burst(table.states@, table.states@.len())),
{
    let n = table.states.len();
    let mut most: usize = 0;
    let mut i: usize = 0;
    while i < n
        invariant
            i <= n,
            n == table.states@.len(),
            most == as_usize(states_burst(table.states@, i as nat)),
        decreases n - i,
    {
        let here = events_in_body(&table.states.at(i).body);
        if here > most {
            most = here;
        }
        i += 1;
    }
    most
}

/// Each token that is not a fragment has a pattern that the lexer can be built
/// from.
pub open spec fn tokens_ok(g: Grammar) -> bool {
    let defs = program::kind_defs(g.token_list());
    forall|i: int|
        0 <= i < defs.len() ==> language::compilable(
            resolve::resolved((#[trigger] defs[i]).pattern, g.token_map()),
        )
}

/// The entry blocks of the rules, in order.
pub open spec fn rule_roots(ag: AnalyzedGrammar) -> Seq<u32> {
    let rules = ag.grammar.rule_list();
    let entries = program::lowered_rules(ag, rules.len()).1;
    Seq::new(rules.len(), |i: int| entries[rules[i].name].0)
}

/// State ids of 32 bits are enough.
pub open spec fn slots_suffice(ag: AnalyzedGrammar) -> bool {
    let blocks = program::lowered_rules(ag, ag.grammar.rule_list().len()).0.blocks;
    let order = layout::order_from(blocks, rule_roots(ag));
    layout::slots_upto(blocks, order, order.len()) < u32::MAX
}

/// The grammar can be lowered: every rule that is referred to exists, the
/// lexer can be built, and 32 bits are enough for every id.
pub open spec fn lowerable(ag: AnalyzedGrammar) -> bool {
    &&& closed::rules_defined(ag.grammar.rule_list())
    &&& tokens_ok(ag.grammar)
    &&& closed::ids_suffice(ag)
    &&& slots_suffice(ag)
}

/// How many states the program of a grammar needs.
pub proof fn lemma_slots(prog: Program, ag: AnalyzedGrammar)
    requires
        program::is_program(prog, ag),
    ensures
        layout::program_slots(prog) == ({
            let blocks = program::lowered_rules(ag, ag.grammar.rule_list().len()).0.blocks;
            let order = layout::order_from(blocks, rule_roots(ag));
            layout::slots_upto(blocks, order, order.len())
        }),
{
    let rules = ag.grammar.rule_list();
    let order = names::list_view(prog.rule_order@);
    assert(order.len() == rules.len());
    assert forall|i: int| 0 <= i < rules.len() implies order[i] == rules[i].name by {}
    assert(layout::roots(prog) =~= rule_roots(ag));
}

proof fn lemma_tokens_compilable(prog: Program, ag: AnalyzedGrammar)
    requires
        program::is_program(prog, ag),
        tokens_ok(ag.grammar),
    ensures
        nfa::tokens_compilable(prog.tokens@),
{
    let defs = program::kind_defs(ag.grammar.token_list());
    assert forall|i: int| 0 <= i < prog.tokens@.len() implies language::compilable(
        (#[trigger] prog.tokens@[i]).pattern@,
    ) by {
        assert(program::token_lowered(prog.tokens@[i], defs[i], i, ag.grammar));
    }
}

fn can_compile(p: &TokenPattern) -> (r: bool)
    ensures
        r == language::compilable(p@),
    decreases p,
{
    match p {
        TokenPattern::Ref(_) => false,
        TokenPattern::NegLook { chars: _, strings: _ } => false,
        TokenPattern::Concat(xs) => {
            assert(p@->Concat_0 == ir::patterns_view(xs@));
            can_compile_all(xs)
        },
        TokenPattern::Alt(xs) => {
            assert(p@->Alt_0 == ir::patterns_view(xs@));
            can_compile_all(xs)
        },
        TokenPattern::Opt(x) => can_compile(x),
        TokenPattern::Star(x) => can_repeat(x) || can_compile(x),
        TokenPattern::Plus(x) => can_repeat(x) || can_compile(x),
        _ => true,
    }
}

fn can_compile_all(xs: &Vec<TokenPattern>) -> (r: bool)
    ensures
        r == forall|i: int|
            0 <= i < xs@.len() ==> language::compilable(#[trigger] ir::patterns_view(xs@)[i]),
    decreases xs,
{
    let ghost xv = ir::patterns_view(xs@);
    let mut i: usize = 0;
    while i < xs.len()
        invariant
            i <= xs@.len(),
            xv == ir::patterns_view(xs@),
            forall|m: int| 0 <= m < i ==> language::compilable(#[trigger] xv[m]),
        decreases xs@.len() - i,
    {
        assert(xv[i as int] == xs@[i as int]@);
        if !can_compile(&xs[i]) {
            return false;
        }
        i += 1;
    }
    true
}

fn can_repeat(p: &TokenPattern) -> (r: bool)
    ensures
        r == language::repeatable(p@),
{
    match p {
        TokenPattern::NegLook { chars, strings } => {
            let mut i: usize = 0;
            while i < chars.items.len()
                invariant
                    p@ == PatternView::NegLook(chars@, names::list_view(strings@)),
                    i <= chars.items@.len(),
                    forall|m: int| 0 <= m < i ==> (#[trigger] chars.items@[m]) is Char,
                decreases chars.items@.len() - i,
            {
                match chars.items[i] {
                    ClassItem::Char(_) => {},
                    ClassItem::Range(_, _) => {
                        assert(!(chars@.items[i as int] is Char));
                        return false;
                    },
                }
                i += 1;
            }
            true
        },
        _ => false,
    }
}

fn tokens_can_compile(prog: &Program) -> (r: bool)
    ensures
        r == nfa::tokens_compilable(prog.tokens@),
{
    let mut i: usize = 0;
    while i < prog.tokens.len()
        invariant
            i <= prog.tokens@.len(),
            forall|m: int|
                0 <= m < i ==> language::compilable((#[trigger] prog.tokens@[m]).pattern@),
        decreases prog.tokens@.len() - i,
    {
        if !can_compile(&prog.tokens[i].pattern) {
            return false;
        }
        i += 1;
    }
    true
}

fn refs_exist(l: &Vec<String>, rules: &Vec<String>) -> (r: bool)
    ensures
        r == forall|n: Seq<char>| #[trigger]
            names::list_view(l@).contains(n) ==> names::list_view(rules@).contains(n),
{
    let ghost lv = names::list_view(l@);
    let mut i: usize = 0;
    while i < l.len()
        invariant
            i <= l@.len(),
            lv == names::list_view(l@),
            forall|m: int| 0 <= m < i ==> names::list_view(rules@).contains(#[trigger] lv[m]),
        decreases l@.len() - i,
    {
        if !ir::contains_name(rules, l[i].as_str()) {
            assert(lv.contains(lv[i as int]));
            return false;
        }
        i += 1;
    }
    proof {
        assert forall|n: Seq<char>| #[trigger] lv.contains(n) implies names::list_view(
            rules@,
        ).contains(n) by {
            let m = choose|m: int| 0 <= m < lv.len() && lv[m] == n;
            assert(names::list_view(rules@).contains(lv[m]));
        }
    }
    true
}

/// True iff every rule that is referred to exists.
fn rules_are_defined(g: &Grammar, order: &Vec<String>) -> (r: bool)
    requires
        names::list_view(order@) == Seq::new(
            g.rule_list().len(),
            |i: int| g.rule_list()[i].name,
        ),
    ensures
        r == closed::rules_defined(g.rule_list()),
{
    let rules = g.rule_values();
    let ghost rv = g.rule_list();
    let ghost ov = names::list_view(order@);
    let ghost known = first_follow::rule_names(rv);
    proof {
        assert forall|n: Seq<char>| #[trigger] known.contains(n) <==> ov.contains(n) by {
            if known.contains(n) {
                let i = choose|i: int| 0 <= i < rv.len() && (#[trigger] rv[i]).name == n;
                assert(ov[i] == n);
            }
            if ov.contains(n) {
                let i = choose|i: int| 0 <= i < ov.len() && ov[i] == n;
                assert(rv[i].name == n);
            }
        }
    }
    let mut i: usize = 0;
    while i < rules.len()
        invariant
            i <= rules@.len(),
            rv == g.rule_list(),
            ov == names::list_view(order@),
            known == first_follow::rule_names(rv),
            forall|n: Seq<char>| #[trigger] known.contains(n) <==> ov.contains(n),
            rules@.len() == rv.len(),
            forall|m: int| 0 <= m < rules@.len() ==> (#[trigger] rules@[m])@ == rv[m],
            forall|m: int| 0 <= m < i ==> closed::refs_in((#[trigger] rv[m]).body, known),
        decreases rules@.len() - i,
    {
        let mut tok: Vec<String> = Vec::new();
        let mut called: Vec<String> = Vec::new();
        refs::collect_expr_refs(&rules[i].body, &mut tok, &mut called);
        proof {
            assert(names::list_view(called@) =~= follow::rule_refs(rv[i as int].body)) by {
                assert(names::list_view(Seq::<String>::empty()) =~= Seq::<Seq<char>>::empty());
            }
        }
        if !refs_exist(&called, order) {
            proof {
                let lv = names::list_view(called@);
                let n = choose|n: Seq<char>| #[trigger] lv.contains(n) && !ov.contains(n);
                assert(follow::rule_refs(rv[i as int].body).contains(n));
                assert(!closed::refs_in(rv[i as int].body, known));
            }
            return false;
        }
        assert(closed::refs_in(rv[i as int].body, known)) by {
            assert forall|n: Seq<char>| #[trigger]
                follow::rule_refs(rv[i as int].body).contains(n) implies known.contains(n) by {
                assert(names::list_view(called@).contains(n));
            }
        }
        i += 1;
    }
    true
}

/// True iff the grammar can be lowered.
pub fn is_lowerable(ag: &AnalyzedGrammar) -> (r: bool)
    requires
        ag.wf(),
    ensures
        r == lowerable(*ag),
{
    let prog = program::build(ag);
    proof {
        lemma_slots(prog, *ag);
    }
    if !rules_are_defined(&ag.grammar, &prog.rule_order) {
        return false;
    }
    if prog.blocks.len() > u32::MAX as usize || prog.first_sets.len() > u32::MAX as usize {
        proof {
            let st = program::lowered_rules(*ag, ag.grammar.rule_list().len()).0;
            assert(st.blocks.len() == prog.blocks@.len());
            assert(st.firsts.len() == prog.first_sets@.len());
        }
        return false;
    }
    proof {
        let st = program::lowered_rules(*ag, ag.grammar.rule_list().len()).0;
        assert(st.blocks.len() == prog.blocks@.len());
        assert(st.firsts.len() == prog.first_sets@.len());
        closed::law_program_is_closed(prog, *ag);
    }
    let slots = layout::count_states(&prog);
    if slots >= u32::MAX as u64 {
        return false;
    }
    let ok = tokens_can_compile(&prog);
    proof {
        let defs = program::kind_defs(ag.grammar.token_list());
        if ok {
            assert forall|i: int| 0 <= i < defs.len() implies language::compilable(
                resolve::resolved((#[trigger] defs[i]).pattern, ag.grammar.token_map()),
            ) by {
                assert(program::token_lowered(prog.tokens@[i], defs[i], i, ag.grammar));
                assert(language::compilable(prog.tokens@[i].pattern@));
            }
        } else if tokens_ok(ag.grammar) {
            lemma_tokens_compilable(prog, *ag);
        }
    }
    ok
}

/// The table after the passes that follow the layout.
pub open spec fn finished(r: StateTable, laid: StateTable, opts: LoweringOpts) -> bool {
    let last = optimize::rounds(
        laid.states@,
        optimize::entry_set(laid.entry_states@),
        opts,
        usize::MAX as nat,
    );
    exists|mid: StateTable, f: Firsts|
        {
            &&& mid == (StateTable {
                states: mid.states,
                entry_states: mid.entry_states,
                ..laid
            })
            &&& mid.states@ == optimize::compacted(last)
            &&& layout::entries_view(mid.entry_states@) == optimize::entries_renumbered(
                last,
                layout::entries_view(laid.entry_states@),
            )
            &&& #[trigger] state_first::is_first(mid, f)
            &&& r == (StateTable { states: r.states, first_sets: r.first_sets, ..mid })
            &&& r.states@ == recovery::stamped(mid, f)
            &&& marked(r.first_sets@, laid.first_sets@, r)
        }
}

/// The table is what the grammar is lowered to.
pub open spec fn is_lowered(
    r: StateTable,
    ag: AnalyzedGrammar,
    opts: LoweringOpts,
    dopts: DfaOpts,
) -> bool {
    exists|prog: Program, laid: StateTable|
        program::is_program(prog, ag) && #[trigger] layout::is_layout(laid, prog, ag, dopts)
            && finished(r, laid, opts)
}

/// Stamping keeps what the rules of the runtime look at.
proof fn lemma_stamped_body(st: StateTable, f: Firsts, rule: Seq<char>, b: BodyView)
    ensures
        validate::body_events(recovery::body_stamped(st, f, rule, b)) == validate::body_events(b),
        validate::no_peek_after_expect(recovery::body_stamped(st, f, rule, b))
            == validate::no_peek_after_expect(b),
    decreases b, 1nat,
{
    lemma_stamped_tail(st, f, rule, b.tail);
}

proof fn lemma_stamped_tail(st: StateTable, f: Firsts, rule: Seq<char>, t: TailView)
    ensures
        validate::tail_events(recovery::tail_stamped(st, f, rule, t)) == validate::tail_events(t),
        validate::tail_no_peek(recovery::tail_stamped(st, f, rule, t)) == validate::tail_no_peek(
            t,
        ),
        validate::reads_ahead(recovery::tail_stamped(st, f, rule, t)) == validate::reads_ahead(t),
    decreases t, 0nat,
{
    match t {
        TailView::Star(_, b, _, _) => lemma_stamped_body(st, f, rule, *b),
        TailView::Opt(_, b, _) => lemma_stamped_body(st, f, rule, *b),
        TailView::Dispatch(tree, _, _, _) => lemma_stamped_tree(st, f, rule, tree),
        _ => {},
    }
}

proof fn lemma_stamped_leaf(st: StateTable, f: Firsts, rule: Seq<char>, l: LeafView)
    ensures
        validate::leaf_events(recovery::leaf_stamped(st, f, rule, l)) == validate::leaf_events(l),
        validate::leaf_no_peek(recovery::leaf_stamped(st, f, rule, l)) == validate::leaf_no_peek(
            l,
        ),
    decreases l, 0nat,
{
    if let LeafView::Arm(b) = l {
        lemma_stamped_body(st, f, rule, *b);
    }
}

proof fn lemma_stamped_tree(st: StateTable, f: Firsts, rule: Seq<char>, t: TreeView)
    ensures
        validate::tree_events(recovery::tree_stamped(st, f, rule, t)) == validate::tree_events(t),
        validate::tree_no_peek(recovery::tree_stamped(st, f, rule, t)) == validate::tree_no_peek(
            t,
        ),
    decreases t, 0nat,
{
    match t {
        TreeView::Leaf(l) => lemma_stamped_leaf(st, f, rule, l),
        TreeView::Switch(_, _, subs, default) => {
            let next = recovery::trees_stamped(st, f, rule, subs);
            lemma_stamped_leaf(st, f, rule, default);
            lemma_stamped_trees(st, f, rule, subs, subs.len());
            assert forall|i: int| 0 <= i < subs.len() implies validate::tree_no_peek(
                #[trigger] next[i],
            ) == validate::tree_no_peek(subs[i]) by {
                lemma_stamped_tree(st, f, rule, subs[i]);
            }
            let r = recovery::tree_stamped(st, f, rule, t);
            assert(r->Switch_2 == next);
            if validate::tree_no_peek(t) {
                assert forall|i: int| 0 <= i < next.len() implies validate::tree_no_peek(
                    #[trigger] next[i],
                ) by {
                    assert(validate::tree_no_peek(subs[i]));
                }
            }
            if validate::tree_no_peek(r) {
                assert forall|i: int| 0 <= i < subs.len() implies validate::tree_no_peek(
                    #[trigger] subs[i],
                ) by {
                    assert(validate::tree_no_peek(next[i]));
                }
            }
        },
    }
}

proof fn lemma_stamped_trees(
    st: StateTable,
    f: Firsts,
    rule: Seq<char>,
    subs: Seq<TreeView>,
    n: nat,
)
    requires
        n <= subs.len(),
    ensures
        validate::trees_events(recovery::trees_stamped(st, f, rule, subs), n)
            == validate::trees_events(subs, n),
    decreases subs, n,
{
    if n > 0 {
        lemma_stamped_trees(st, f, rule, subs, (n - 1) as nat);
        lemma_stamped_tree(st, f, rule, subs[n - 1]);
    }
}

/// Lower an analyzed grammar with the given passes turned on.
///
/// Every state of the table emits at most one event on each path and reads no
/// lookahead after it took a token, and the states are numbered from one
/// without a gap.
pub fn lower_with_opts(ag: &AnalyzedGrammar, opts: LoweringOpts, dopts: DfaOpts) -> (r: StateTable)
    requires
        ag.wf(),
        lowerable(*ag),
    ensures
        is_lowered(r, *ag, opts, dopts),
        r.states.wf(),
        validate::all_valid(r.states@),
        forall|i: int| 0 <= i < r.states@.len() ==> (#[trigger] r.states@[i]).id == i + 1,
{
    let prog = program::build(ag);
    let ghost pv = prog;
    proof {
        closed::law_program_is_closed(prog, *ag);
        lemma_slots(prog, *ag);
        lemma_tokens_compilable(prog, *ag);
    }
    let mut table = layout::layout(prog, ag, dopts);
    let ghost laid = table;
    let ghost plan = layout::plan_of(pv);
    proof {
        closed::law_layout_is_valid(plan, plan.order.len());
        layout::lemma_state_ids(plan, plan.order.len());
    }
    let ghost ev = optimize::entry_set(laid.entry_states@);
    let ghost last = optimize::rounds(laid.states@, ev, opts, usize::MAX as nat);
    optimize::optimize(&mut table, opts);
    let ghost mid = table;
    proof {
        kept::law_rounds_keep_valid(laid.states@, ev, opts, usize::MAX as nat);
        kept::law_compacting_keeps_valid(last);
        assert(pv.rule_sync.wf());
    }
    let firsts = state_first::compute(&table);
    recovery::stamp(&mut table, &firsts);
    let ghost stamped = table;
    mark_first_set_references(&mut table);
    proof {
        let f = firsts@;
        assert(state_first::is_first(mid, f));
        assert(finished(table, laid, opts));
        assert(layout::is_layout(laid, pv, *ag, dopts));
        assert forall|i: int| 0 <= i < table.states@.len() implies validate::valid_body(
            (#[trigger] table.states@[i]).body,
        ) && table.states@[i].id == i + 1 by {
            let s = mid.states@[i];
            assert(s.id == i + 1);
            assert(validate::valid_body(s.body));
            lemma_stamped_body(mid, f, s.rule, s.body);
        }
    }
    table
}

/// Lower an analyzed grammar to a state table, with every pass turned on.
pub fn lower(ag: &AnalyzedGrammar) -> (r: StateTable)
    requires
        ag.wf(),
        lowerable(*ag),
    ensures
        r.states.wf(),
        validate::all_valid(r.states@),
        forall|i: int| 0 <= i < r.states@.len() ==> (#[trigger] r.states@[i]).id == i + 1,
        is_lowered(
            r,
            *ag,
            LoweringOpts {
                inline_jumps: true,
                fold_trampolines: true,
                inline_branch_bodies: true,
                eliminate_dead: true,
            },
            DfaOpts { minimize: true },
        ),
{
    lower_with_opts(ag, LoweringOpts::default(), DfaOpts::default())
}

/// Lower an analyzed grammar, if it can be lowered.
pub fn try_lower(ag: &AnalyzedGrammar) -> (r: Option<StateTable>)
    requires
        ag.wf(),
    ensures
        r is Some <==> lowerable(*ag),
        r matches Some(t) ==> t.states.wf() && validate::all_valid(t.states@) && is_lowered(
            t,
            *ag,
            LoweringOpts {
                inline_jumps: true,
                fold_trampolines: true,
                inline_branch_bodies: true,
                eliminate_dead: true,
            },
            DfaOpts { minimize: true },
        ),
{
    if is_lowerable(ag) {
        Some(lower(ag))
    } else {
        None
    }
}

/// The lexer automata of a lowered grammar are well formed, and the lookahead
/// is that of the analysis.
pub proof fn lemma_lowered(r: StateTable, ag: AnalyzedGrammar, opts: LoweringOpts, dopts: DfaOpts)
    requires
        is_lowered(r, ag, opts, dopts),
    ensures
        r.k == ag.k,
        forall|i: int|
            0 <= i < r.modes@.len() ==> lexer_dfa::well_formed((#[trigger] r.modes@[i]).dfa@),
        forall|i: int|
            0 <= i < r.modes@.len() ==> (#[trigger] r.modes@[i]).id == i as u32
                && layout::mode_lexes(r.modes@[i], r.tokens@, dopts.minimize),
{
    let (prog, laid): (Program, StateTable) = choose|prog: Program, laid: StateTable|
        program::is_program(prog, ag) && #[trigger] layout::is_layout(laid, prog, ag, dopts)
            && finished(r, laid, opts);
    assert(r.modes == laid.modes);
    assert(r.tokens == laid.tokens);
    assert forall|i: int| 0 <= i < r.modes@.len() implies (#[trigger] r.modes@[i]).id == i as u32
        && layout::mode_lexes(r.modes@[i], r.tokens@, dopts.minimize) by {
        assert(layout::mode_lexes(laid.modes@[i], prog.tokens@, dopts.minimize));
    }
}

} // verus!
