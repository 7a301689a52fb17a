//! First lowering phase: rule bodies to symbolic blocks.
//!
//! The blocks of a [`Program`] refer to one another by [`BlockId`] and to rules
//! by name. FIRST and SYNC sets are interned, so that two sites with the same
//! set share one entry.
use vstd::prelude::*;

use crate::analysis::first_follow;
use crate::analysis::first_set::{self, FirstSet as NameFirst, NameSeq};
use crate::analysis::follow_k;
use crate::analysis::{AnalyzedGrammar, EOF_MARKER};
use crate::grammar::ir::{self, Expr, ExprView, Grammar, ModeAction, ModeActionView, RuleView, TokenDef, TokenView};
use crate::grammar::resolve;
use crate::lowering::table::{
    self, FirstSet, FirstSetId, ModeActionInfo, SyncSet, SyncSetId, TokenInfo,
};
use crate::name_map::NameMap;
use crate::names::{self, NameSet, Rank};
use crate::runtime::events::TOKEN_EOF;
use crate::sorting;
use crate::text;

verus! {

/// Index into [`Program::blocks`].
#[derive(Clone, Copy, Debug, PartialEq, Eq, Structural)]
pub struct BlockId(pub u32);

/// Where control goes.
#[derive(Debug)]
pub enum Target {
    /// Call by rule name, resolved via [`Program::rule_entry`].
    Rule(String),
    /// Direct reference to a block.
    Block(BlockId),
}

/// One step of a block.
#[derive(Debug)]
pub enum Op {
    /// Emit an `Enter` event.
    Enter {
        /// Rule-kind id.
        kind: u16,
    },
    /// Emit an `Exit` event.
    Exit {
        /// Rule-kind id.
        kind: u16,
    },
    /// Consume a token; on mismatch, report an error and recover to `sync`.
    Expect {
        /// Required token kind.
        kind: u16,
        /// Token name, for the message.
        token_name: String,
        /// SYNC set to recover to.
        sync: SyncSetId,
        /// Label of this position.
        label: Option<String>,
    },
    /// Run another rule or block.
    Call {
        /// Callee.
        target: Target,
    },
    /// `?`: run `body` zero or one times.
    Opt {
        /// FIRST set that the body opens with.
        first: FirstSetId,
        /// Body.
        body: Target,
    },
    /// `*`: run `body` while the lookahead matches.
    Star {
        /// FIRST set that the body opens with.
        first: FirstSetId,
        /// Body of one round.
        body: Target,
    },
    /// Pick one arm by the lookahead, or recover via `sync`.
    Dispatch {
        /// FIRST set and body of each arm.
        arms: Vec<(FirstSetId, Target)>,
        /// True if any arm is nullable.
        has_eps: bool,
        /// SYNC set to recover to.
        sync: SyncSetId,
    },
}

/// A sequence of steps.
#[derive(Debug)]
pub struct Block {
    /// What the label of each step starts with.
    pub label_prefix: String,
    /// The rule that the block belongs to.
    pub rule: String,
    /// Steps in order.
    pub ops: Vec<Op>,
    /// The label of each step.
    pub op_labels: Vec<String>,
}

/// Every block, the entry blocks and the interned pools.
#[derive(Debug)]
pub struct Program {
    /// Rule bodies and their parts.
    pub blocks: Vec<Block>,
    /// The entry block of each rule.
    pub rule_entry: NameMap<BlockId>,
    /// The SYNC set of each rule.
    pub rule_sync: NameMap<SyncSetId>,
    /// Rules in declaration order.
    pub rule_order: Vec<String>,
    /// Rules that are not fragments.
    pub public_rule_names: NameSet,
    /// Token kinds, fragments left out.
    pub tokens: Vec<TokenInfo>,
    /// Names of the rules that are not fragments; a rule's kind is its index.
    pub rules: Vec<String>,
    /// Interned FIRST sets.
    pub first_sets: Vec<FirstSet>,
    /// Interned SYNC sets.
    pub sync_sets: Vec<SyncSet>,
    /// Lexer mode names by id; the first is `default`.
    pub mode_names: Vec<String>,
}

/// What a [`Target`] says.
pub ghost enum TargetView {
    Rule(Seq<char>),
    Block(u32),
}

/// What an [`Op`] says.
pub ghost enum OpView {
    Enter(u16),
    Exit(u16),
    Expect(u16, Seq<char>, u32, Option<Seq<char>>),
    Call(TargetView),
    Opt(u32, TargetView),
    Star(u32, TargetView),
    Dispatch(Seq<(u32, TargetView)>, bool, u32),
}

/// A step and its label.
pub type Step = (OpView, Seq<char>);

/// What a [`Block`] says.
pub ghost struct BlockView {
    pub prefix: Seq<char>,
    pub rule: Seq<char>,
    pub steps: Seq<Step>,
}

impl Target {
    /// What the target says.
    pub open spec fn view(self) -> TargetView {
        match self {
            Target::Rule(n) => TargetView::Rule(n@),
            Target::Block(b) => TargetView::Block(b.0),
        }
    }
}

/// What the arms say.
pub open spec fn arms_view(arms: Seq<(FirstSetId, Target)>) -> Seq<(u32, TargetView)> {
    Seq::new(arms.len(), |i: int| (arms[i].0, arms[i].1@))
}

impl Op {
    /// What the step says.
    pub open spec fn view(self) -> OpView {
        match self {
            Op::Enter { kind } => OpView::Enter(kind),
            Op::Exit { kind } => OpView::Exit(kind),
            Op::Expect { kind, token_name, sync, label } => OpView::Expect(
                kind,
                token_name@,
                sync,
                match label {
                    Some(l) => Some(l@),
                    None => None,
                },
            ),
            Op::Call { target } => OpView::Call(target@),
            Op::Opt { first, body } => OpView::Opt(first, body@),
            Op::Star { first, body } => OpView::Star(first, body@),
            Op::Dispatch { arms, has_eps, sync } => OpView::Dispatch(
                arms_view(arms@),
                has_eps,
                sync,
            ),
        }
    }
}

impl Block {
    /// Every step has a label.
    pub open spec fn wf(self) -> bool {
        self.ops@.len() == self.op_labels@.len()
    }

    /// What the block says.
    pub open spec fn view(self) -> BlockView {
        BlockView {
            prefix: self.label_prefix@,
            rule: self.rule@,
            steps: Seq::new(self.ops@.len(), |i: int| (self.ops@[i]@, self.op_labels@[i]@)),
        }
    }

    /// A block without steps.
    fn empty(label_prefix: &str, rule: &str) -> (r: Block)
        ensures
            r.wf(),
            r@ == empty_block(label_prefix@, rule@),
    {
        let r = Block {
            label_prefix: label_prefix.to_owned(),
            rule: rule.to_owned(),
            ops: Vec::new(),
            op_labels: Vec::new(),
        };
        assert(r@.steps =~= Seq::<Step>::empty());
        r
    }

    /// Appends a step.
    fn push(&mut self, op: Op, label: String)
        requires
            old(self).wf(),
        ensures
            final(self).wf(),
            final(self)@ == with_steps(old(self)@, seq![(op@, label@)]),
    {
        let ghost before = self@;
        let ghost step = (op@, label@);
        self.ops.push(op);
        self.op_labels.push(label);
        assert(self@.steps =~= before.steps + seq![step]);
    }
}

/// A block without steps.
pub open spec fn empty_block(prefix: Seq<char>, rule: Seq<char>) -> BlockView {
    BlockView { prefix, rule, steps: Seq::empty() }
}

/// The block with more steps at its end.
pub open spec fn with_steps(b: BlockView, steps: Seq<Step>) -> BlockView {
    BlockView { prefix: b.prefix, rule: b.rule, steps: b.steps + steps }
}

/// What the blocks say.
pub open spec fn blocks_view(blocks: Seq<Block>) -> Seq<BlockView> {
    Seq::new(blocks.len(), |i: int| blocks[i]@)
}

/// The blocks and the pools as far as they have been built.
pub ghost struct Built {
    pub blocks: Seq<BlockView>,
    pub firsts: Seq<Seq<Seq<u16>>>,
    pub syncs: Seq<Seq<u16>>,
}

/// What the steps of a rule have in common: the grammar, the rule's SYNC set
/// and its name.
pub ghost struct Within {
    pub ag: AnalyzedGrammar,
    pub sync: u32,
    pub rule: Seq<char>,
}

/// The position of the first `x` in the list, or its length if there is none.
pub open spec fn place<A>(l: Seq<A>, x: A) -> int
    decreases l.len(),
{
    if l.len() == 0 {
        0
    } else {
        let before = place(l.drop_last(), x);
        if before < l.len() - 1 {
            before
        } else if l.last() == x {
            l.len() - 1
        } else {
            l.len() as int
        }
    }
}

/// The list with `x` at its end, unless it has `x` already.
pub open spec fn joined<A>(l: Seq<A>, x: A) -> Seq<A> {
    if place(l, x) < l.len() {
        l
    } else {
        l.push(x)
    }
}

/// The first place holds `x`, and no earlier one does.
pub proof fn lemma_place<A>(l: Seq<A>, x: A)
    ensures
        0 <= place(l, x) <= l.len(),
        place(l, x) < l.len() ==> l[place(l, x)] == x,
        forall|i: int| 0 <= i < place(l, x) ==> #[trigger] l[i] != x,
        place(l, x) < l.len() <==> l.contains(x),
    decreases l.len(),
{
    if l.len() > 0 {
        let p = l.drop_last();
        lemma_place(p, x);
        assert forall|i: int| 0 <= i < place(l, x) implies #[trigger] l[i] != x by {
            if i < p.len() {
                assert(p[i] == l[i]);
            }
        }
        if l.contains(x) {
            let i = choose|i: int| 0 <= i < l.len() && l[i] == x;
            if i < p.len() {
                assert(p[i] == x);
            }
        }
    }
}

proof fn lemma_place_is<A>(l: Seq<A>, x: A, i: int)
    requires
        0 <= i <= l.len(),
        i < l.len() ==> l[i] == x,
        forall|m: int| 0 <= m < i ==> #[trigger] l[m] != x,
    ensures
        place(l, x) == i,
{
    lemma_place(l, x);
    if place(l, x) < i {
        assert(l[place(l, x)] != x);
    }
}

/// The names of the tokens that are not fragments, in order.
pub open spec fn kind_names(tokens: Seq<TokenView>) -> Seq<Seq<char>>
    decreases tokens.len(),
{
    if tokens.len() == 0 {
        Seq::empty()
    } else if tokens.last().is_fragment {
        kind_names(tokens.drop_last())
    } else {
        kind_names(tokens.drop_last()).push(tokens.last().name)
    }
}

/// The kind of a token: its place among the tokens that are not fragments,
/// counted from one, or zero if it has none.
pub open spec fn kind_of(tokens: Seq<TokenView>, name: Seq<char>) -> u16 {
    let p = place(kind_names(tokens), name);
    if p < kind_names(tokens).len() {
        (p + 1) as u16
    } else {
        0
    }
}

/// The kinds of a sequence of token names.
pub open spec fn kinds_of(tokens: Seq<TokenView>, s: NameSeq) -> Seq<u16> {
    Seq::new(s.len(), |i: int| kind_of(tokens, s[i]))
}

/// The kinds of each sequence that is not empty.
pub open spec fn kind_seqs(tokens: Seq<TokenView>, l: Seq<NameSeq>) -> Seq<Seq<u16>>
    decreases l.len(),
{
    if l.len() == 0 {
        Seq::empty()
    } else if l.last().len() == 0 {
        kind_seqs(tokens, l.drop_last())
    } else {
        kind_seqs(tokens, l.drop_last()).push(kinds_of(tokens, l.last()))
    }
}

/// What is interned for a FIRST set: the kinds of its sequences, ε left out.
pub open spec fn first_row(tokens: Seq<TokenView>, s: Set<NameSeq>) -> Seq<Seq<u16>> {
    sorting::seq_set(kind_seqs(tokens, first_set::listed(s)))
}

/// FIRST(k) of an expression of the grammar.
pub open spec fn first_in(ag: AnalyzedGrammar, e: ExprView) -> Set<NameSeq> {
    first_follow::first_expr(e, ag.nullable@, first_follow::firsts(ag.first), ag.k as nat)
}

/// What can come behind a round of a loop over the expression, where `tail`
/// comes after the loop: more rounds, then `tail`.
pub open spec fn looped(ag: AnalyzedGrammar, x: ExprView, tail: Set<NameSeq>) -> Set<NameSeq> {
    follow_k::loop_tail(x, tail, ag.nullable@, first_follow::firsts(ag.first), ag.k as nat)
}

/// The state with the FIRST set interned.
pub open spec fn with_first(st: Built, ag: AnalyzedGrammar, s: Set<NameSeq>) -> Built {
    Built { firsts: joined(st.firsts, first_row(ag.grammar.token_list(), s)), ..st }
}

/// The id that the FIRST set has or gets.
pub open spec fn first_id(st: Built, ag: AnalyzedGrammar, s: Set<NameSeq>) -> u32 {
    place(st.firsts, first_row(ag.grammar.token_list(), s)) as u32
}

/// The step that takes a token.
pub open spec fn expect_op(cx: Within, name: Seq<char>, label: Option<Seq<char>>) -> OpView {
    OpView::Expect(kind_of(cx.ag.grammar.token_list(), name), name, cx.sync, label)
}

/// Some arm can match nothing.
pub open spec fn any_eps(ag: AnalyzedGrammar, xs: Seq<ExprView>) -> bool {
    exists|i: int| 0 <= i < xs.len() && first_in(ag, #[trigger] xs[i]).contains(Seq::empty())
}

/// The steps of an expression, where `tail` can follow it, and the state with
/// the blocks and sets that they refer to.
pub open spec fn emit(
    e: ExprView,
    tail: Set<NameSeq>,
    sym: Seq<char>,
    cx: Within,
    st: Built,
) -> (Seq<Step>, Built)
    decreases e, 0nat,
{
    match e {
        ExprView::Empty => (Seq::empty(), st),
        ExprView::Token(n) => (seq![(expect_op(cx, n, None), sym + ":expect:"@ + n)], st),
        ExprView::Rule(n) => (
            seq![(OpView::Call(TargetView::Rule(n)), sym + ":call:"@ + n)],
            st,
        ),
        ExprView::Concat(xs) => emit_items(xs, xs.len(), tail, sym, cx, st),
        ExprView::Alt(xs) => {
            let (arms, after) = emit_arms(xs, xs.len(), tail, sym, cx, st);
            (
                seq![
                    (
                        OpView::Dispatch(arms, any_eps(cx.ag, xs), cx.sync),
                        sym + ":dispatch"@,
                    ),
                ],
                after,
            )
        },
        ExprView::Opt(x) => {
            let first = first_in(cx.ag, *x);
            let st1 = with_first(st, cx.ag, first);
            let body = TargetView::Block(st1.blocks.len() as u32);
            (
                seq![(OpView::Opt(first_id(st, cx.ag, first), body), sym + ":opt"@)],
                emit_sub(*x, tail, sym + ":opt-body"@, cx, st1),
            )
        },
        ExprView::Star(x) => {
            let first = first_in(cx.ag, *x);
            let st1 = with_first(st, cx.ag, first);
            let body = TargetView::Block(st1.blocks.len() as u32);
            let inner = looped(cx.ag, *x, tail);
            (
                seq![(OpView::Star(first_id(st, cx.ag, first), body), sym + ":star"@)],
                emit_sub(*x, inner, sym + ":star-body"@, cx, st1),
            )
        },
        ExprView::Plus(x) => {
            let first = first_in(cx.ag, *x);
            let st1 = with_first(st, cx.ag, first);
            let body = TargetView::Block(st1.blocks.len() as u32);
            let inner = looped(cx.ag, *x, tail);
            (
                seq![
                    (OpView::Call(body), sym + ":plus-first"@),
                    (OpView::Star(first_id(st, cx.ag, first), body), sym + ":plus-star"@),
                ],
                emit_sub(*x, inner, sym + ":plus-body"@, cx, st1),
            )
        },
        ExprView::Label(name, x) => match *x {
            ExprView::Token(n) => (
                seq![
                    (
                        expect_op(cx, n, Some(name)),
                        sym + ":expect:"@ + n + "@"@ + name,
                    ),
                ],
                st,
            ),
            _ => emit(*x, tail, sym, cx, st),
        },
    }
}

/// The state with a block for the expression at its end; the blocks that it
/// refers to come behind it.
pub open spec fn emit_sub(
    e: ExprView,
    tail: Set<NameSeq>,
    label: Seq<char>,
    cx: Within,
    st: Built,
) -> Built
    decreases e, 1nat,
{
    let block = empty_block(label, cx.rule);
    let reserved = Built { blocks: st.blocks.push(block), ..st };
    let (steps, after) = emit(e, tail, label, cx, reserved);
    Built {
        blocks: after.blocks.update(st.blocks.len() as int, with_steps(block, steps)),
        ..after
    }
}

/// The steps of the first `n` items of a sequence.
pub open spec fn emit_items(
    xs: Seq<ExprView>,
    n: nat,
    tail: Set<NameSeq>,
    sym: Seq<char>,
    cx: Within,
    st: Built,
) -> (Seq<Step>, Built)
    decreases xs, n,
{
    if n == 0 || n > xs.len() {
        (Seq::empty(), st)
    } else {
        let (before, mid) = emit_items(xs, (n - 1) as nat, tail, sym, cx, st);
        let rest = follow_k::rest_then(
            xs,
            n as int,
            tail,
            cx.ag.nullable@,
            first_follow::firsts(cx.ag.first),
            cx.ag.k as nat,
        );
        let (here, after) = emit(xs[n - 1], rest, sym, cx, mid);
        (before + here, after)
    }
}

/// The arms of the first `n` alternatives. One that matches nothing but ε has
/// no arm.
pub open spec fn emit_arms(
    xs: Seq<ExprView>,
    n: nat,
    tail: Set<NameSeq>,
    sym: Seq<char>,
    cx: Within,
    st: Built,
) -> (Seq<(u32, TargetView)>, Built)
    decreases xs, n,
{
    if n == 0 || n > xs.len() {
        (Seq::empty(), st)
    } else {
        let (before, mid) = emit_arms(xs, (n - 1) as nat, tail, sym, cx, st);
        let first = first_in(cx.ag, xs[n - 1]);
        if first.subset_of(first_follow::only_eps()) {
            (before, mid)
        } else {
            let predict = first_set::concat_k_of(first, tail, cx.ag.k as nat).remove(
                Seq::empty(),
            );
            let st1 = with_first(mid, cx.ag, predict);
            let body = TargetView::Block(st1.blocks.len() as u32);
            (
                before.push((first_id(mid, cx.ag, predict), body)),
                emit_sub(
                    xs[n - 1],
                    tail,
                    sym + ":alt"@ + text::decimal((n - 1) as nat),
                    cx,
                    st1,
                ),
            )
        }
    }
}

/// The rows of a pool of FIRST sets.
pub open spec fn first_rows(pool: Seq<FirstSet>) -> Seq<Seq<Seq<u16>>> {
    Seq::new(pool.len(), |i: int| table::seqs_view(pool[i].seqs@))
}

/// The rows of a pool of SYNC sets.
pub open spec fn sync_rows(pool: Seq<SyncSet>) -> Seq<Seq<u16>> {
    Seq::new(pool.len(), |i: int| pool[i].kinds@)
}

/// Every FIRST set carries its position and is not marked yet.
pub open spec fn firsts_numbered(pool: Seq<FirstSet>) -> bool {
    forall|i: int|
        0 <= i < pool.len() ==> (#[trigger] pool[i]).id == i as u32 && !pool[i].has_references
}

/// Every SYNC set carries its position.
pub open spec fn syncs_numbered(pool: Seq<SyncSet>) -> bool {
    forall|i: int| 0 <= i < pool.len() ==> (#[trigger] pool[i]).id == i as u32
}

/// Every block has a label for each step.
pub open spec fn blocks_wf(blocks: Seq<Block>) -> bool {
    forall|i: int| 0 <= i < blocks.len() ==> (#[trigger] blocks[i]).wf()
}

/// The blocks and pools under construction.
struct Builder {
    blocks: Vec<Block>,
    first_sets: Vec<FirstSet>,
    sync_sets: Vec<SyncSet>,
}

/// What the steps of a rule have in common.
struct Rule<'a> {
    ag: &'a AnalyzedGrammar,
    kinds: &'a Vec<String>,
    sync: SyncSetId,
    name: &'a str,
}

impl<'a> Rule<'a> {
    spec fn view(self) -> Within {
        Within { ag: *self.ag, sync: self.sync, rule: self.name@ }
    }

    spec fn wf(self) -> bool {
        &&& self.ag.nullable.wf()
        &&& self.ag.first.wf()
        &&& names::list_view(self.kinds@) == kind_names(self.ag.grammar.token_list())
    }

    fn first(&self, e: &Expr) -> (r: NameFirst)
        requires
            self.wf(),
        ensures
            r.wf(),
            r@ == first_in(*self.ag, e@),
    {
        first_follow::first_of(e, &self.ag.nullable, &self.ag.first, self.ag.k)
    }
}

/// The place of a name in a list.
pub(crate) fn find_name(l: &Vec<String>, name: &str) -> (r: Option<usize>)
    ensures
        match r {
            Some(i) => i < l@.len() && i == place(names::list_view(l@), name@),
            None => place(names::list_view(l@), name@) == l@.len(),
        },
{
    let ghost lv = names::list_view(l@);
    let mut i: usize = 0;
    while i < l.len()
        invariant
            i <= l@.len(),
            lv == names::list_view(l@),
            forall|m: int| 0 <= m < i ==> #[trigger] lv[m] != name@,
        decreases l@.len() - i,
    {
        assert(lv[i as int] == l@[i as int]@);
        if names::rank_str(l[i].as_str(), name) == Rank::Same {
            proof {
                lemma_place_is(lv, name@, i as int);
            }
            return Some(i);
        }
        i += 1;
    }
    proof {
        lemma_place_is(lv, name@, i as int);
    }
    None
}

/// The kind that a name has in a list of kinds.
fn kind_in(kinds: &Vec<String>, name: &str) -> (r: u16)
    ensures
        r == ({
            let p = place(names::list_view(kinds@), name@);
            if p < kinds@.len() {
                (p + 1) as u16
            } else {
                0
            }
        }),
{
    assert(kinds.len() <= usize::MAX);
    match find_name(kinds, name) {
        Some(i) => #[verifier::truncate] ((i + 1) as u16),
        None => 0,
    }
}

/// The names of the tokens that are not fragments, in order.
fn collect_kinds(g: &Grammar) -> (r: Vec<String>)
    ensures
        names::list_view(r@) == kind_names(g.token_list()),
{
    let tokens = g.token_values();
    let ghost tv = g.token_list();
    let mut r: Vec<String> = Vec::new();
    let mut i: usize = 0;
    assert(tv.take(0) =~= Seq::<TokenView>::empty());
    assert(names::list_view(r@) =~= kind_names(tv.take(0)));
    while i < tokens.len()
        invariant
            i <= tokens@.len(),
            tv == g.token_list(),
            tokens@.len() == tv.len(),
            forall|m: int| 0 <= m < tokens@.len() ==> (#[trigger] tokens@[m])@ == tv[m],
            names::list_view(r@) == kind_names(tv.take(i as int)),
        decreases tokens@.len() - i,
    {
        proof {
            assert(tv.take(i + 1).drop_last() =~= tv.take(i as int));
            assert(tv.take(i + 1).last() == tokens@[i as int]@);
        }
        if !tokens[i].is_fragment {
            let ghost before = r@;
            r.push(tokens[i].name.clone());
            assert(names::list_view(r@) =~= names::list_view(before).push(tokens@[i as int]@.name));
        }
        i += 1;
    }
    assert(tv.take(i as int) =~= tv);
    r
}

/// The kind id of a token by name. Fragments have none, so the id is the
/// place among the other tokens, counted from one; zero if there is no such
/// token.
pub fn token_kind(ag: &AnalyzedGrammar, name: &str) -> (r: u16)
    ensures
        r == kind_of(ag.grammar.token_list(), name@),
{
    let kinds = collect_kinds(&ag.grammar);
    kind_in(&kinds, name)
}

impl Builder {
    spec fn view(self) -> Built {
        Built {
            blocks: blocks_view(self.blocks@),
            firsts: first_rows(self.first_sets@),
            syncs: sync_rows(self.sync_sets@),
        }
    }

    spec fn wf(self) -> bool {
        &&& blocks_wf(self.blocks@)
        &&& firsts_numbered(self.first_sets@)
        &&& syncs_numbered(self.sync_sets@)
    }

    /// Interns a FIRST set.
    fn intern_first(&mut self, seqs: &Vec<Vec<u16>>) -> (id: FirstSetId)
        requires
            old(self).wf(),
        ensures
            final(self).wf(),
            final(self)@ == (Built {
                firsts: joined(
                    old(self)@.firsts,
                    sorting::seq_set(sorting::lists_view(seqs@)),
                ),
                ..old(self)@
            }),
            id == place(
                old(self)@.firsts,
                sorting::seq_set(sorting::lists_view(seqs@)),
            ) as u32,
    {
        let sorted = sorting::sort_seqs(seqs);
        let ghost row = sorting::seq_set(sorting::lists_view(seqs@));
        let ghost rows = self@.firsts;
        let mut i: usize = 0;
        while i < self.first_sets.len()
            invariant
                i <= self.first_sets@.len(),
                self.wf(),
                self@ == old(self)@,
                rows == self@.firsts,
                row == sorting::seq_set(sorting::lists_view(seqs@)),
                row == sorting::lists_view(sorted@),
                forall|m: int| 0 <= m < i ==> #[trigger] rows[m] != row,
            decreases self.first_sets@.len() - i,
        {
            assert(rows[i as int] == table::seqs_view(self.first_sets@[i as int].seqs@));
            if sorting::same_seqs(&self.first_sets[i].seqs, &sorted) {
                proof {
                    lemma_place_is(rows, row, i as int);
                    assert(self@.firsts =~= joined(old(self)@.firsts, row));
                }
                return #[verifier::truncate] (i as u32);
            }
            i += 1;
        }
        proof {
            lemma_place_is(rows, row, i as int);
        }
        let id = #[verifier::truncate] (self.first_sets.len() as u32);
        self.first_sets.push(FirstSet { id, seqs: sorted, has_references: false });
        assert(self@.firsts =~= rows.push(row));
        id
    }

    /// Interns a SYNC set.
    fn intern_sync(&mut self, kinds: &Vec<u16>) -> (id: SyncSetId)
        requires
            old(self).wf(),
        ensures
            final(self).wf(),
            final(self)@ == (Built {
                syncs: joined(old(self)@.syncs, sorting::kind_set(kinds@)),
                ..old(self)@
            }),
            id == place(old(self)@.syncs, sorting::kind_set(kinds@)) as u32,
    {
        let sorted = sorting::sort_kinds(kinds);
        let ghost row = sorting::kind_set(kinds@);
        let ghost rows = self@.syncs;
        let mut i: usize = 0;
        while i < self.sync_sets.len()
            invariant
                i <= self.sync_sets@.len(),
                self.wf(),
                self@ == old(self)@,
                rows == self@.syncs,
                row == sorting::kind_set(kinds@),
                row == sorted@,
                forall|m: int| 0 <= m < i ==> #[trigger] rows[m] != row,
            decreases self.sync_sets@.len() - i,
        {
            assert(rows[i as int] == self.sync_sets@[i as int].kinds@);
            if sorting::rank_seq(&self.sync_sets[i].kinds, &sorted) == Rank::Same {
                proof {
                    lemma_place_is(rows, row, i as int);
                    assert(self@.syncs =~= joined(old(self)@.syncs, row));
                }
                return #[verifier::truncate] (i as u32);
            }
            i += 1;
        }
        proof {
            lemma_place_is(rows, row, i as int);
        }
        let id = #[verifier::truncate] (self.sync_sets.len() as u32);
        self.sync_sets.push(SyncSet { id, kinds: sorted });
        assert(self@.syncs =~= rows.push(row));
        id
    }

    /// Interns a FIRST set given by names: kinds in place of names, ε left out.
    fn first_ids(&mut self, cx: &Rule, first: &NameFirst) -> (id: FirstSetId)
        requires
            old(self).wf(),
            cx.wf(),
            first.wf(),
        ensures
            final(self).wf(),
            final(self)@ == with_first(old(self)@, *cx.ag, first@),
            id == first_id(old(self)@, *cx.ag, first@),
    {
        let ghost tokens = cx.ag.grammar.token_list();
        let ghost all = first.list();
        let mut seqs: Vec<Vec<u16>> = Vec::new();
        let mut i: usize = 0;
        assert(all.take(0) =~= Seq::<NameSeq>::empty());
        assert(sorting::lists_view(seqs@) =~= kind_seqs(tokens, all.take(0)));
        let n = first.len();
        while i < n
            invariant
                i <= n,
                n == all.len(),
                all == first.list(),
                cx.wf(),
                tokens == cx.ag.grammar.token_list(),
                sorting::lists_view(seqs@) == kind_seqs(tokens, all.take(i as int)),
            decreases n - i,
        {
            let s = first.get(i);
            let ghost sv = all[i as int];
            proof {
                assert(all.take(i + 1).drop_last() =~= all.take(i as int));
                assert(all.take(i + 1).last() == sv);
                assert(sv.len() == s@.len());
            }
            if s.len() > 0 {
                let kinds = kinds_in(cx, s);
                let ghost before = seqs@;
                seqs.push(kinds);
                assert(sorting::lists_view(seqs@) =~= sorting::lists_view(before).push(
                    kinds_of(tokens, sv),
                ));
            }
            i += 1;
        }
        proof {
            assert(all.take(i as int) =~= all);
            first_set::lemma_listed(*first);
        }
        self.intern_first(&seqs)
    }

    /// Builds a block for a part of a rule and returns its id.
    fn build_sub(&mut self, cx: &Rule, label: &str, e: &Expr, tail: &NameFirst) -> (id: BlockId)
        requires
            old(self).wf(),
            cx.wf(),
            tail.wf(),
        ensures
            final(self).wf(),
            final(self)@ == emit_sub(e@, tail@, label@, cx@, old(self)@),
            id.0 == old(self)@.blocks.len() as u32,
        decreases e, 1nat,
    {
        let ghost before = self@;
        let at = self.blocks.len();
        let id = BlockId(#[verifier::truncate] (at as u32));
        self.blocks.push(Block::empty(label, cx.name));
        let mut block = Block::empty(label, cx.name);
        proof {
            assert(self@.blocks =~= before.blocks.push(empty_block(label@, cx.name@)));
        }
        let ghost reserved = self@;
        self.emit_expr(cx, e, &mut block, tail, label);
        let ghost after = self@;
        proof {
            lemma_emit_grows(e@, tail@, label@, cx@, reserved);
        }
        self.blocks.set(at, block);
        proof {
            assert(self@.blocks =~= after.blocks.update(at as int, block@));
        }
        id
    }

    /// Appends the steps of an expression to a block.
    fn emit_expr(&mut self, cx: &Rule, e: &Expr, cur: &mut Block, tail: &NameFirst, sym: &str)
        requires
            old(self).wf(),
            old(cur).wf(),
            cx.wf(),
            tail.wf(),
        ensures
            final(self).wf(),
            final(cur).wf(),
            final(self)@ == emit(e@, tail@, sym@, cx@, old(self)@).1,
            final(cur)@ == with_steps(
                old(cur)@,
                emit(e@, tail@, sym@, cx@, old(self)@).0,
            ),
        decreases e, 0nat,
    {
        let ghost st0 = self@;
        let ghost cur0 = cur@;
        match e {
            Expr::Empty => {
                assert(cur@.steps =~= with_steps(cur0, Seq::empty()).steps);
            },
            Expr::Token(name) => {
                let mut label = sym.to_owned();
                label.append(":expect:");
                label.append(name.as_str());
                cur.push(
                    Op::Expect {
                        kind: kind_in(cx.kinds, name.as_str()),
                        token_name: name.clone(),
                        sync: cx.sync,
                        label: None,
                    },
                    label,
                );
            },
            Expr::Rule(name) => {
                let mut label = sym.to_owned();
                label.append(":call:");
                label.append(name.as_str());
                cur.push(Op::Call { target: Target::Rule(name.clone()) }, label);
                assert(self@ == emit(e@, tail@, sym@, cx@, st0).1);
            },
            Expr::Concat(xs) => {
                assert(e@->Concat_0 == ir::exprs_view(xs@));
                self.emit_items(cx, xs, cur, tail, sym);
                assert(self@ == emit(e@, tail@, sym@, cx@, st0).1);
            },
            Expr::Alt(xs) => {
                assert(e@->Alt_0 == ir::exprs_view(xs@));
                let (arms, has_eps) = self.emit_arms(cx, xs, tail, sym);
                let mut label = sym.to_owned();
                label.append(":dispatch");
                cur.push(Op::Dispatch { arms, has_eps, sync: cx.sync }, label);
                assert(self@ == emit(e@, tail@, sym@, cx@, st0).1);
            },
            Expr::Opt(x) => {
                let first = cx.first(x);
                let fid = self.first_ids(cx, &first);
                let mut sub_label = sym.to_owned();
                sub_label.append(":opt-body");
                let sub = self.build_sub(cx, sub_label.as_str(), x, tail);
                let mut label = sym.to_owned();
                label.append(":opt");
                cur.push(Op::Opt { first: fid, body: Target::Block(sub) }, label);
                assert(self@ == emit(e@, tail@, sym@, cx@, st0).1);
            },
            Expr::Star(x) => {
                let first = cx.first(x);
                let fid = self.first_ids(cx, &first);
                let rounds = first_set::star_k(&first, cx.ag.k);
                let inner = first_set::concat_k(&rounds, tail, cx.ag.k);
                let mut sub_label = sym.to_owned();
                sub_label.append(":star-body");
                let sub = self.build_sub(cx, sub_label.as_str(), x, &inner);
                let mut label = sym.to_owned();
                label.append(":star");
                cur.push(Op::Star { first: fid, body: Target::Block(sub) }, label);
            },
            Expr::Plus(x) => {
                let first = cx.first(x);
                let fid = self.first_ids(cx, &first);
                let rounds = first_set::star_k(&first, cx.ag.k);
                let inner = first_set::concat_k(&rounds, tail, cx.ag.k);
                let mut sub_label = sym.to_owned();
                sub_label.append(":plus-body");
                let sub = self.build_sub(cx, sub_label.as_str(), x, &inner);
                let mut call_label = sym.to_owned();
                call_label.append(":plus-first");
                cur.push(Op::Call { target: Target::Block(sub) }, call_label);
                let ghost mid = cur@;
                let mut star_label = sym.to_owned();
                star_label.append(":plus-star");
                cur.push(Op::Star { first: fid, body: Target::Block(sub) }, star_label);
                proof {
                    let steps = emit(e@, tail@, sym@, cx@, st0).0;
                    assert(steps =~= seq![steps[0]] + seq![steps[1]]);
                    assert(cur@.steps =~= cur0.steps + steps);
                }
            },
            Expr::Label(name, body) => {
                match &**body {
                    Expr::Token(tok) => {
                        let mut label = sym.to_owned();
                        label.append(":expect:");
                        label.append(tok.as_str());
                        label.append("@");
                        label.append(name.as_str());
                        cur.push(
                            Op::Expect {
                                kind: kind_in(cx.kinds, tok.as_str()),
                                token_name: tok.clone(),
                                sync: cx.sync,
                                label: Some(name.clone()),
                            },
                            label,
                        );
                    },
                    _ => {
                        self.emit_expr(cx, body, cur, tail, sym);
                        assert(self@ == emit(e@, tail@, sym@, cx@, st0).1);
                    },
                }
            },
        }
    }

    /// Appends the steps of the items of a sequence.
    fn emit_items(&mut self, cx: &Rule, xs: &Vec<Expr>, cur: &mut Block, tail: &NameFirst, sym: &str)
        requires
            old(self).wf(),
            old(cur).wf(),
            cx.wf(),
            tail.wf(),
        ensures
            final(self).wf(),
            final(cur).wf(),
            final(self)@ == emit_items(
                ir::exprs_view(xs@),
                xs@.len(),
                tail@,
                sym@,
                cx@,
                old(self)@,
            ).1,
            final(cur)@ == with_steps(
                old(cur)@,
                emit_items(ir::exprs_view(xs@), xs@.len(), tail@, sym@, cx@, old(self)@).0,
            ),
        decreases xs, 0nat,
    {
        let ghost st0 = self@;
        let ghost cur0 = cur@;
        let ghost xv = ir::exprs_view(xs@);
        let ghost nulls = cx.ag.nullable@;
        let ghost fv = first_follow::firsts(cx.ag.first);
        let rests = rests_of(cx, xs, tail);
        let mut i: usize = 0;
        assert(cur@.steps =~= cur0.steps + Seq::<Step>::empty());
        while i < xs.len()
            invariant
                i <= xs@.len(),
                self.wf(),
                cur.wf(),
                cx.wf(),
                xv == ir::exprs_view(xs@),
                nulls == cx.ag.nullable@,
                fv == first_follow::firsts(cx.ag.first),
                rests@.len() == xs@.len() + 1,
                forall|m: int|
                    0 <= m < rests@.len() ==> (#[trigger] rests@[m]).wf() && rests@[m]@
                        == follow_k::rest_then(
                        xv,
                        xs@.len() - m,
                        tail@,
                        nulls,
                        fv,
                        cx.ag.k as nat,
                    ),
                self@ == emit_items(xv, i as nat, tail@, sym@, cx@, st0).1,
                cur@ == with_steps(cur0, emit_items(xv, i as nat, tail@, sym@, cx@, st0).0),
            decreases xs@.len() - i,
        {
            let rest = &rests[xs.len() - 1 - i];
            let ghost steps = emit_items(xv, i as nat, tail@, sym@, cx@, st0).0;
            self.emit_expr(cx, &xs[i], cur, rest, sym);
            proof {
                assert(xv[i as int] == xs@[i as int]@);
                let all = emit_items(xv, (i + 1) as nat, tail@, sym@, cx@, st0).0;
                assert(cur@.steps =~= cur0.steps + all);
            }
            i += 1;
        }
    }

    /// Builds the arms of an alternation, and tells whether one is nullable.
    fn emit_arms(&mut self, cx: &Rule, xs: &Vec<Expr>, tail: &NameFirst, sym: &str) -> (r: (
        Vec<(FirstSetId, Target)>,
        bool,
    ))
        requires
            old(self).wf(),
            cx.wf(),
            tail.wf(),
        ensures
            final(self).wf(),
            final(self)@ == emit_arms(
                ir::exprs_view(xs@),
                xs@.len(),
                tail@,
                sym@,
                cx@,
                old(self)@,
            ).1,
            arms_view(r.0@) == emit_arms(
                ir::exprs_view(xs@),
                xs@.len(),
                tail@,
                sym@,
                cx@,
                old(self)@,
            ).0,
            r.1 == any_eps(*cx.ag, ir::exprs_view(xs@)),
        decreases xs, 0nat,
    {
        let ghost st0 = self@;
        let ghost xv = ir::exprs_view(xs@);
        let mut arms: Vec<(FirstSetId, Target)> = Vec::new();
        let mut has_eps = false;
        let mut i: usize = 0;
        assert(arms_view(arms@) =~= Seq::<(u32, TargetView)>::empty());
        while i < xs.len()
            invariant
                i <= xs@.len(),
                self.wf(),
                cx.wf(),
                tail.wf(),
                xv == ir::exprs_view(xs@),
                self@ == emit_arms(xv, i as nat, tail@, sym@, cx@, st0).1,
                arms_view(arms@) == emit_arms(xv, i as nat, tail@, sym@, cx@, st0).0,
                has_eps == exists|m: int|
                    0 <= m < i && first_in(*cx.ag, #[trigger] xv[m]).contains(Seq::empty()),
            decreases xs@.len() - i,
        {
            let first = cx.first(&xs[i]);
            let ghost fx = first_in(*cx.ag, xv[i as int]);
            assert(xv[i as int] == xs@[i as int]@);
            let (non_eps, eps) = first_set::split_nullable(&first);
            assert(eps == fx.contains(Seq::empty()));
            has_eps = has_eps || eps;
            let only = non_eps.is_empty();
            proof {
                assert(only == fx.subset_of(first_follow::only_eps())) by {
                    if only {
                        assert forall|s: NameSeq| fx.contains(s) implies first_follow::only_eps().contains(
                            s,
                        ) by {
                            if s != Seq::<Seq<char>>::empty() {
                                assert(non_eps@.contains(s));
                            }
                        }
                    } else if fx.subset_of(first_follow::only_eps()) {
                        assert(non_eps@ =~= Set::<NameSeq>::empty());
                    }
                }
            }
            if !only {
                let ghost before = arms@;
                let predict = first_set::concat_k(&first, tail, cx.ag.k);
                let (predict, _) = first_set::split_nullable(&predict);
                let fid = self.first_ids(cx, &predict);
                let mut sub_label = sym.to_owned();
                sub_label.append(":alt");
                text::push_decimal(&mut sub_label, i as u128);
                let sub = self.build_sub(cx, sub_label.as_str(), &xs[i], tail);
                arms.push((fid, Target::Block(sub)));
                assert(arms_view(arms@) =~= arms_view(before).push(
                    (fid, TargetView::Block(sub.0)),
                ));
            }
            i += 1;
        }
        (arms, has_eps)
    }
}

/// The kinds of a sequence of names.
fn kinds_in(cx: &Rule, s: &Vec<String>) -> (r: Vec<u16>)
    requires
        cx.wf(),
    ensures
        r@ == kinds_of(cx.ag.grammar.token_list(), names::list_view(s@)),
{
    let ghost want = kinds_of(cx.ag.grammar.token_list(), names::list_view(s@));
    let mut r: Vec<u16> = Vec::new();
    let mut j: usize = 0;
    while j < s.len()
        invariant
            j <= s@.len(),
            cx.wf(),
            want == kinds_of(cx.ag.grammar.token_list(), names::list_view(s@)),
            r@ == want.take(j as int),
        decreases s@.len() - j,
    {
        r.push(kind_in(cx.kinds, s[j].as_str()));
        assert(want.take(j + 1) =~= want.take(j as int).push(want[j as int]));
        j += 1;
    }
    assert(want.take(j as int) =~= want);
    r
}

/// What follows each item of a sequence, the last item first; behind that,
/// what opens the whole sequence.
fn rests_of(cx: &Rule, xs: &Vec<Expr>, tail: &NameFirst) -> (r: Vec<NameFirst>)
    requires
        cx.wf(),
        tail.wf(),
    ensures
        r@.len() == xs@.len() + 1,
        forall|m: int|
            0 <= m < r@.len() ==> (#[trigger] r@[m]).wf() && r@[m]@ == follow_k::rest_then(
                ir::exprs_view(xs@),
                xs@.len() - m,
                tail@,
                cx.ag.nullable@,
                first_follow::firsts(cx.ag.first),
                cx.ag.k as nat,
            ),
{
    let ghost xv = ir::exprs_view(xs@);
    let ghost nulls = cx.ag.nullable@;
    let ghost fv = first_follow::firsts(cx.ag.first);
    let mut r: Vec<NameFirst> = Vec::new();
    r.push(tail.clone());
    let mut n: usize = 0;
    while n < xs.len()
        invariant
            n <= xs@.len(),
            cx.wf(),
            xv == ir::exprs_view(xs@),
            nulls == cx.ag.nullable@,
            fv == first_follow::firsts(cx.ag.first),
            r@.len() == n + 1,
            forall|m: int|
                0 <= m < r@.len() ==> (#[trigger] r@[m]).wf() && r@[m]@ == follow_k::rest_then(
                    xv,
                    xs@.len() - m,
                    tail@,
                    nulls,
                    fv,
                    cx.ag.k as nat,
                ),
        decreases xs@.len() - n,
    {
        let at = xs.len() - 1 - n;
        let fx = cx.first(&xs[at]);
        let next = first_set::concat_k(&fx, &r[n], cx.ag.k);
        assert(xv[at as int] == xs@[at as int]@);
        r.push(next);
        n += 1;
    }
    r
}

/// Emitting adds blocks behind those that are there and leaves those as they
/// are.
proof fn lemma_emit_grows(
    e: ExprView,
    tail: Set<NameSeq>,
    sym: Seq<char>,
    cx: Within,
    st: Built,
)
    ensures
        emit(e, tail, sym, cx, st).1.blocks.len() >= st.blocks.len(),
        forall|i: int|
            0 <= i < st.blocks.len() ==> #[trigger] emit(e, tail, sym, cx, st).1.blocks[i]
                == st.blocks[i],
    decreases e, 0nat,
{
    match e {
        ExprView::Concat(xs) => {
            lemma_items_grow(xs, xs.len(), tail, sym, cx, st);
        },
        ExprView::Alt(xs) => {
            lemma_arms_grow(xs, xs.len(), tail, sym, cx, st);
        },
        ExprView::Opt(x) => {
            let st1 = with_first(st, cx.ag, first_in(cx.ag, *x));
            lemma_sub_grows(*x, tail, sym + ":opt-body"@, cx, st1);
        },
        ExprView::Star(x) => {
            let first = first_in(cx.ag, *x);
            let st1 = with_first(st, cx.ag, first);
            let inner = looped(cx.ag, *x, tail);
            lemma_sub_grows(*x, inner, sym + ":star-body"@, cx, st1);
        },
        ExprView::Plus(x) => {
            let first = first_in(cx.ag, *x);
            let st1 = with_first(st, cx.ag, first);
            let inner = looped(cx.ag, *x, tail);
            lemma_sub_grows(*x, inner, sym + ":plus-body"@, cx, st1);
        },
        ExprView::Label(_, x) => {
            lemma_emit_grows(*x, tail, sym, cx, st);
        },
        _ => {},
    }
}

proof fn lemma_sub_grows(
    e: ExprView,
    tail: Set<NameSeq>,
    label: Seq<char>,
    cx: Within,
    st: Built,
)
    ensures
        emit_sub(e, tail, label, cx, st).blocks.len() > st.blocks.len(),
        forall|i: int|
            0 <= i < st.blocks.len() ==> #[trigger] emit_sub(e, tail, label, cx, st).blocks[i]
                == st.blocks[i],
    decreases e, 1nat,
{
    let block = empty_block(label, cx.rule);
    let reserved = Built { blocks: st.blocks.push(block), ..st };
    lemma_emit_grows(e, tail, label, cx, reserved);
    assert forall|i: int| 0 <= i < st.blocks.len() implies #[trigger] emit_sub(
        e,
        tail,
        label,
        cx,
        st,
    ).blocks[i] == st.blocks[i] by {
        assert(emit(e, tail, label, cx, reserved).1.blocks[i] == reserved.blocks[i]);
    }
}

proof fn lemma_items_grow(
    xs: Seq<ExprView>,
    n: nat,
    tail: Set<NameSeq>,
    sym: Seq<char>,
    cx: Within,
    st: Built,
)
    ensures
        emit_items(xs, n, tail, sym, cx, st).1.blocks.len() >= st.blocks.len(),
        forall|i: int|
            0 <= i < st.blocks.len() ==> #[trigger] emit_items(
                xs,
                n,
                tail,
                sym,
                cx,
                st,
            ).1.blocks[i] == st.blocks[i],
    decreases xs, n,
{
    if 0 < n <= xs.len() {
        lemma_items_grow(xs, (n - 1) as nat, tail, sym, cx, st);
        let mid = emit_items(xs, (n - 1) as nat, tail, sym, cx, st).1;
        let rest = follow_k::rest_then(
            xs,
            n as int,
            tail,
            cx.ag.nullable@,
            first_follow::firsts(cx.ag.first),
            cx.ag.k as nat,
        );
        lemma_emit_grows(xs[n - 1], rest, sym, cx, mid);
        assert forall|i: int| 0 <= i < st.blocks.len() implies #[trigger] emit_items(
            xs,
            n,
            tail,
            sym,
            cx,
            st,
        ).1.blocks[i] == st.blocks[i] by {
            assert(mid.blocks[i] == st.blocks[i]);
            assert(emit(xs[n - 1], rest, sym, cx, mid).1.blocks[i] == mid.blocks[i]);
        }
    }
}

proof fn lemma_arms_grow(
    xs: Seq<ExprView>,
    n: nat,
    tail: Set<NameSeq>,
    sym: Seq<char>,
    cx: Within,
    st: Built,
)
    ensures
        emit_arms(xs, n, tail, sym, cx, st).1.blocks.len() >= st.blocks.len(),
        forall|i: int|
            0 <= i < st.blocks.len() ==> #[trigger] emit_arms(
                xs,
                n,
                tail,
                sym,
                cx,
                st,
            ).1.blocks[i] == st.blocks[i],
    decreases xs, n,
{
    if 0 < n <= xs.len() {
        lemma_arms_grow(xs, (n - 1) as nat, tail, sym, cx, st);
        let mid = emit_arms(xs, (n - 1) as nat, tail, sym, cx, st).1;
        let first = first_in(cx.ag, xs[n - 1]);
        if !first.subset_of(first_follow::only_eps()) {
            let predict = first_set::concat_k_of(first, tail, cx.ag.k as nat).remove(
                Seq::empty(),
            );
            let st1 = with_first(mid, cx.ag, predict);
            let label = sym + ":alt"@ + text::decimal((n - 1) as nat);
            lemma_sub_grows(xs[n - 1], tail, label, cx, st1);
            assert forall|i: int| 0 <= i < st.blocks.len() implies #[trigger] emit_arms(
                xs,
                n,
                tail,
                sym,
                cx,
                st,
            ).1.blocks[i] == st.blocks[i] by {
                assert(mid.blocks[i] == st.blocks[i]);
                assert(emit_sub(xs[n - 1], tail, label, cx, st1).blocks[i] == st1.blocks[i]);
            }
        }
    }
}

/// The names of the rules that are not fragments, in order.
pub open spec fn public_names(rules: Seq<RuleView>) -> Seq<Seq<char>>
    decreases rules.len(),
{
    if rules.len() == 0 {
        Seq::empty()
    } else if rules.last().is_fragment {
        public_names(rules.drop_last())
    } else {
        public_names(rules.drop_last()).push(rules.last().name)
    }
}

/// The kind of a rule: its place among the rules that are not fragments, or
/// zero if it has none.
pub open spec fn rule_kind(rules: Seq<Seq<char>>, name: Seq<char>) -> u16 {
    let p = place(rules, name);
    if p < rules.len() {
        p as u16
    } else {
        0
    }
}

/// Names of the rules that are not fragments, in declaration order.
pub fn collect_rules(g: &Grammar) -> (r: Vec<String>)
    ensures
        names::list_view(r@) == public_names(g.rule_list()),
{
    let rules = g.rule_values();
    let ghost rv = g.rule_list();
    let mut r: Vec<String> = Vec::new();
    let mut i: usize = 0;
    assert(rv.take(0) =~= Seq::<RuleView>::empty());
    assert(names::list_view(r@) =~= public_names(rv.take(0)));
    while i < rules.len()
        invariant
            i <= rules@.len(),
            rv == g.rule_list(),
            rules@.len() == rv.len(),
            forall|m: int| 0 <= m < rules@.len() ==> (#[trigger] rules@[m])@ == rv[m],
            names::list_view(r@) == public_names(rv.take(i as int)),
        decreases rules@.len() - i,
    {
        proof {
            assert(rv.take(i + 1).drop_last() =~= rv.take(i as int));
            assert(rv.take(i + 1).last() == rules@[i as int]@);
        }
        if !rules[i].is_fragment {
            let ghost before = r@;
            r.push(rules[i].name.clone());
            assert(names::list_view(r@) =~= names::list_view(before).push(rules@[i as int]@.name));
        }
        i += 1;
    }
    assert(rv.take(i as int) =~= rv);
    r
}

/// Numeric id of a rule: its position in `rules`, zero if it is not there.
pub fn rule_kind_id(rules: &Vec<String>, name: &str) -> (r: u16)
    ensures
        r == rule_kind(names::list_view(rules@), name@),
{
    match find_name(rules, name) {
        Some(i) => #[verifier::truncate] (i as u16),
        None => 0,
    }
}

/// The names that the pushes among the actions go to, added to the list.
pub open spec fn pushed_modes(
    known: Seq<Seq<char>>,
    actions: Seq<ModeActionView>,
) -> Seq<Seq<char>>
    decreases actions.len(),
{
    if actions.len() == 0 {
        known
    } else {
        let before = pushed_modes(known, actions.drop_last());
        match actions.last() {
            ModeActionView::Push(n) => joined(before, n),
            ModeActionView::Pop => before,
        }
    }
}

/// The list with each of the names added that it does not have.
pub open spec fn joined_all(known: Seq<Seq<char>>, more: Seq<Seq<char>>) -> Seq<Seq<char>>
    decreases more.len(),
{
    if more.len() == 0 {
        known
    } else {
        joined(joined_all(known, more.drop_last()), more.last())
    }
}

/// The lexer modes by id: `default`, then the others in the order in which
/// the tokens first name them, be it as their own or as one to push.
pub open spec fn mode_list(tokens: Seq<TokenView>) -> Seq<Seq<char>>
    decreases tokens.len(),
{
    if tokens.len() == 0 {
        seq!["default"@]
    } else {
        let before = mode_list(tokens.drop_last());
        pushed_modes(
            joined_all(before, tokens.last().modes),
            tokens.last().mode_actions,
        )
    }
}

/// Adds a name to the list, unless it is there.
pub(crate) fn join_name(l: &mut Vec<String>, name: &str)
    ensures
        names::list_view(final(l)@) == joined(names::list_view(old(l)@), name@),
{
    let ghost before = names::list_view(l@);
    match find_name(l, name) {
        Some(_) => {},
        None => {
            l.push(name.to_owned());
            assert(names::list_view(l@) =~= before.push(name@));
        },
    }
}

/// Every lexer mode, in the order of their ids.
pub fn collect_mode_ids(g: &Grammar) -> (r: Vec<String>)
    ensures
        names::list_view(r@) == mode_list(g.token_list()),
{
    let tokens = g.token_values();
    let ghost tv = g.token_list();
    let mut r: Vec<String> = Vec::new();
    r.push("default".to_owned());
    let mut i: usize = 0;
    assert(tv.take(0) =~= Seq::<TokenView>::empty());
    assert(names::list_view(r@) =~= seq!["default"@]);
    while i < tokens.len()
        invariant
            i <= tokens@.len(),
            tv == g.token_list(),
            tokens@.len() == tv.len(),
            forall|m: int| 0 <= m < tokens@.len() ==> (#[trigger] tokens@[m])@ == tv[m],
            names::list_view(r@) == mode_list(tv.take(i as int)),
        decreases tokens@.len() - i,
    {
        let t = tokens[i];
        let ghost before = names::list_view(r@);
        let ghost modes = names::list_view(t.modes@);
        let ghost actions = ir::actions_view(t.mode_actions@);
        proof {
            assert(tv.take(i + 1).drop_last() =~= tv.take(i as int));
            assert(tv.take(i + 1).last() == tokens@[i as int]@);
            assert(modes.take(0) =~= Seq::<Seq<char>>::empty());
        }
        let mut j: usize = 0;
        while j < t.modes.len()
            invariant
                j <= t.modes@.len(),
                modes == names::list_view(t.modes@),
                names::list_view(r@) == joined_all(before, modes.take(j as int)),
            decreases t.modes@.len() - j,
        {
            assert(modes.take(j + 1).drop_last() =~= modes.take(j as int));
            join_name(&mut r, t.modes[j].as_str());
            j += 1;
        }
        assert(modes.take(j as int) =~= modes);
        let ghost mid = names::list_view(r@);
        assert(actions.take(0) =~= Seq::<ModeActionView>::empty());
        let mut n: usize = 0;
        while n < t.mode_actions.len()
            invariant
                n <= t.mode_actions@.len(),
                actions == ir::actions_view(t.mode_actions@),
                names::list_view(r@) == pushed_modes(mid, actions.take(n as int)),
            decreases t.mode_actions@.len() - n,
        {
            assert(actions.take(n + 1).drop_last() =~= actions.take(n as int));
            assert(actions.take(n + 1).last() == t.mode_actions@[n as int]@);
            if let ModeAction::Push(name) = &t.mode_actions[n] {
                join_name(&mut r, name.as_str());
            }
            n += 1;
        }
        assert(actions.take(n as int) =~= actions);
        i += 1;
    }
    assert(tv.take(i as int) =~= tv);
    r
}

/// The kinds of the names that are not the end-of-input marker.
pub open spec fn sync_names(tokens: Seq<TokenView>, l: Seq<Seq<char>>) -> Seq<u16>
    decreases l.len(),
{
    if l.len() == 0 {
        Seq::empty()
    } else if l.last() == EOF_MARKER@ {
        sync_names(tokens, l.drop_last())
    } else {
        sync_names(tokens, l.drop_last()).push(kind_of(tokens, l.last()))
    }
}

/// The names in FOLLOW of a rule, in order.
pub open spec fn follow_list(ag: AnalyzedGrammar, rule: Seq<char>) -> Seq<Seq<char>> {
    if ag.follow@.contains_key(rule) {
        ag.follow@[rule].list()
    } else {
        Seq::empty()
    }
}

/// The kinds that a rule recovers to: those in its FOLLOW, then the end of
/// input.
pub open spec fn sync_of(ag: AnalyzedGrammar, rule: Seq<char>) -> Seq<u16> {
    sync_names(ag.grammar.token_list(), follow_list(ag, rule)).push(TOKEN_EOF)
}

/// SYNC set for a rule: every token in its FOLLOW, in order of name, then the
/// end of input.
pub fn compute_sync(ag: &AnalyzedGrammar, rule_name: &str) -> (r: Vec<u16>)
    requires
        ag.follow.wf(),
    ensures
        r@ == sync_of(*ag, rule_name@),
{
    let kinds = collect_kinds(&ag.grammar);
    let ghost tokens = ag.grammar.token_list();
    let ghost l = follow_list(*ag, rule_name@);
    let mut r: Vec<u16> = Vec::new();
    match ag.follow.get(rule_name) {
        Some(follow) => {
            let n = follow.len();
            let mut i: usize = 0;
            assert(l.take(0) =~= Seq::<Seq<char>>::empty());
            while i < n
                invariant
                    i <= n,
                    n == l.len(),
                    l == follow.list(),
                    tokens == ag.grammar.token_list(),
                    names::list_view(kinds@) == kind_names(tokens),
                    r@ == sync_names(tokens, l.take(i as int)),
                decreases n - i,
            {
                let name = follow.get(i);
                assert(l.take(i + 1).drop_last() =~= l.take(i as int));
                assert(l.take(i + 1).last() == name@);
                if names::rank_str(name.as_str(), EOF_MARKER) != Rank::Same {
                    r.push(kind_in(&kinds, name.as_str()));
                }
                i += 1;
            }
            assert(l.take(i as int) =~= l);
        },
        None => {},
    }
    r.push(TOKEN_EOF);
    r
}

/// The id of a lexer mode.
pub open spec fn mode_id(modes: Seq<Seq<char>>, name: Seq<char>) -> u32 {
    let p = place(modes, name);
    if p < modes.len() {
        p as u32
    } else {
        0
    }
}

/// A mode action with the mode taken by its id.
pub open spec fn action_info(modes: Seq<Seq<char>>, a: ModeActionView) -> ModeActionInfo {
    match a {
        ModeActionView::Push(n) => ModeActionInfo::Push(mode_id(modes, n)),
        ModeActionView::Pop => ModeActionInfo::Pop,
    }
}

/// What lowering makes of a token: its place among the kinds is `i`.
pub open spec fn token_lowered(t: TokenInfo, def: TokenView, i: int, g: Grammar) -> bool {
    let modes = mode_list(g.token_list());
    &&& t.name@ == def.name
    &&& t.display_name@ == def.name
    &&& t.pattern@ == resolve::resolved(def.pattern, g.token_map())
    &&& t.skip == def.skip
    &&& t.kind == (i + 1) as u16
    &&& t.mode_ids@ == Seq::new(def.modes.len(), |m: int| mode_id(modes, def.modes[m]))
    &&& t.mode_actions@ == Seq::new(
        def.mode_actions.len(),
        |m: int| action_info(modes, def.mode_actions[m]),
    )
}

/// The tokens that are not fragments, in order.
pub open spec fn kind_defs(tokens: Seq<TokenView>) -> Seq<TokenView>
    decreases tokens.len(),
{
    if tokens.len() == 0 {
        tokens
    } else if tokens.last().is_fragment {
        kind_defs(tokens.drop_last())
    } else {
        kind_defs(tokens.drop_last()).push(tokens.last())
    }
}

/// The tokens are those of the grammar that are not fragments.
pub open spec fn tokens_lowered(l: Seq<TokenInfo>, defs: Seq<TokenView>, g: Grammar) -> bool {
    &&& l.len() == defs.len()
    &&& forall|i: int| 0 <= i < l.len() ==> token_lowered(#[trigger] l[i], defs[i], i, g)
}

fn mode_id_of(modes: &Vec<String>, name: &str) -> (r: u32)
    ensures
        r == mode_id(names::list_view(modes@), name@),
{
    match find_name(modes, name) {
        Some(i) => #[verifier::truncate] (i as u32),
        None => 0,
    }
}

fn lower_token(g: &Grammar, modes: &Vec<String>, t: &TokenDef, at: usize) -> (r: TokenInfo)
    requires
        names::list_view(modes@) == mode_list(g.token_list()),
        at < usize::MAX,
    ensures
        token_lowered(r, t@, at as int, *g),
{
    let ghost mv = names::list_view(modes@);
    let ghost ids = Seq::new(t@.modes.len(), |m: int| mode_id(mv, t@.modes[m]));
    let ghost acts = Seq::new(
        t@.mode_actions.len(),
        |m: int| action_info(mv, t@.mode_actions[m]),
    );
    let mut mode_ids: Vec<u32> = Vec::new();
    let mut i: usize = 0;
    while i < t.modes.len()
        invariant
            i <= t.modes@.len(),
            mv == names::list_view(modes@),
            ids == Seq::new(t@.modes.len(), |m: int| mode_id(mv, t@.modes[m])),
            mode_ids@ == ids.take(i as int),
        decreases t.modes@.len() - i,
    {
        mode_ids.push(mode_id_of(modes, t.modes[i].as_str()));
        assert(ids.take(i + 1) =~= ids.take(i as int).push(ids[i as int]));
        i += 1;
    }
    assert(ids.take(i as int) =~= ids);
    let mut mode_actions: Vec<ModeActionInfo> = Vec::new();
    let mut j: usize = 0;
    while j < t.mode_actions.len()
        invariant
            j <= t.mode_actions@.len(),
            mv == names::list_view(modes@),
            acts == Seq::new(
                t@.mode_actions.len(),
                |m: int| action_info(mv, t@.mode_actions[m]),
            ),
            mode_actions@ == acts.take(j as int),
        decreases t.mode_actions@.len() - j,
    {
        assert(t@.mode_actions[j as int] == t.mode_actions@[j as int]@);
        let a = match &t.mode_actions[j] {
            ModeAction::Push(name) => ModeActionInfo::Push(mode_id_of(modes, name.as_str())),
            ModeAction::Pop => ModeActionInfo::Pop,
        };
        mode_actions.push(a);
        assert(acts.take(j + 1) =~= acts.take(j as int).push(acts[j as int]));
        j += 1;
    }
    assert(acts.take(j as int) =~= acts);
    TokenInfo {
        name: t.name.clone(),
        display_name: t.name.clone(),
        pattern: resolve::resolve_pattern(&t.pattern, g),
        skip: t.skip,
        kind: #[verifier::truncate] ((at + 1) as u16),
        mode_ids,
        mode_actions,
    }
}

fn lower_tokens(g: &Grammar, modes: &Vec<String>) -> (r: Vec<TokenInfo>)
    requires
        names::list_view(modes@) == mode_list(g.token_list()),
    ensures
        tokens_lowered(r@, kind_defs(g.token_list()), *g),
{
    let tokens = g.token_values();
    let ghost tv = g.token_list();
    let mut r: Vec<TokenInfo> = Vec::new();
    let mut i: usize = 0;
    assert(tv.take(0) =~= Seq::<TokenView>::empty());
    while i < tokens.len()
        invariant
            i <= tokens@.len(),
            tv == g.token_list(),
            names::list_view(modes@) == mode_list(tv),
            tokens@.len() == tv.len(),
            forall|m: int| 0 <= m < tokens@.len() ==> (#[trigger] tokens@[m])@ == tv[m],
            r@.len() <= i,
            tokens_lowered(r@, kind_defs(tv.take(i as int)), *g),
        decreases tokens@.len() - i,
    {
        proof {
            assert(tv.take(i + 1).drop_last() =~= tv.take(i as int));
            assert(tv.take(i + 1).last() == tokens@[i as int]@);
        }
        if !tokens[i].is_fragment {
            let at = r.len();
            let t = lower_token(g, modes, tokens[i], at);
            let ghost before = r@;
            let ghost defs = kind_defs(tv.take(i as int));
            r.push(t);
            assert forall|m: int| 0 <= m < r@.len() implies token_lowered(
                #[trigger] r@[m],
                defs.push(tv[i as int])[m],
                m,
                *g,
            ) by {
                if m < before.len() {
                    assert(token_lowered(before[m], defs[m], m, *g));
                }
            }
        }
        i += 1;
    }
    assert(tv.take(i as int) =~= tv);
    r
}

/// What the first `n` rules are lowered to: the blocks and pools, the entry
/// block of each rule by name, and the SYNC set of each rule by name.
pub open spec fn lowered_rules(ag: AnalyzedGrammar, n: nat) -> (
    Built,
    Map<Seq<char>, BlockId>,
    Map<Seq<char>, SyncSetId>,
)
    decreases n,
{
    let rules = ag.grammar.rule_list();
    if n == 0 || n > rules.len() {
        (
            Built { blocks: Seq::empty(), firsts: Seq::empty(), syncs: Seq::empty() },
            Map::empty(),
            Map::empty(),
        )
    } else {
        let (st, entries, syncs) = lowered_rules(ag, (n - 1) as nat);
        let rule = rules[n - 1];
        let row = sorting::kind_set(sync_of(ag, rule.name));
        let sync = place(st.syncs, row) as u32;
        let st1 = Built { syncs: joined(st.syncs, row), ..st };
        (
            lowered_rule(ag, rule, sync, st1),
            entries.insert(rule.name, BlockId(st.blocks.len() as u32)),
            syncs.insert(rule.name, sync),
        )
    }
}

/// The state with the block of a rule at its end, the blocks of its parts
/// behind it.
pub open spec fn lowered_rule(ag: AnalyzedGrammar, rule: RuleView, sync: u32, st: Built) -> Built {
    let cx = Within { ag, sync, rule: rule.name };
    let block = empty_block(rule.name, rule.name);
    let reserved = Built { blocks: st.blocks.push(block), ..st };
    let tail = first_follow::set_at(first_follow::firsts(ag.follow_k), rule.name);
    let (body, after) = emit(rule.body, tail, rule.name, cx, reserved);
    let kind = rule_kind(public_names(ag.grammar.rule_list()), rule.name);
    let steps = if rule.is_fragment {
        body
    } else {
        seq![(OpView::Enter(kind), rule.name + ":enter"@)] + body + seq![
            (OpView::Exit(kind), rule.name + ":exit"@),
        ]
    };
    Built {
        blocks: after.blocks.update(st.blocks.len() as int, with_steps(block, steps)),
        ..after
    }
}

/// The program is what the grammar is lowered to.
pub open spec fn is_program(prog: Program, ag: AnalyzedGrammar) -> bool {
    let rules = ag.grammar.rule_list();
    let (st, entries, syncs) = lowered_rules(ag, rules.len());
    &&& blocks_wf(prog.blocks@)
    &&& blocks_view(prog.blocks@) == st.blocks
    &&& first_rows(prog.first_sets@) == st.firsts
    &&& firsts_numbered(prog.first_sets@)
    &&& sync_rows(prog.sync_sets@) == st.syncs
    &&& syncs_numbered(prog.sync_sets@)
    &&& prog.rule_entry.wf()
    &&& prog.rule_entry@ == entries
    &&& prog.rule_sync.wf()
    &&& prog.rule_sync@ == syncs
    &&& names::list_view(prog.rule_order@) == Seq::new(rules.len(), |i: int| rules[i].name)
    &&& prog.public_rule_names.wf()
    &&& prog.public_rule_names@ == public_names(rules).to_set()
    &&& names::list_view(prog.rules@) == public_names(rules)
    &&& tokens_lowered(prog.tokens@, kind_defs(ag.grammar.token_list()), ag.grammar)
    &&& names::list_view(prog.mode_names@) == mode_list(ag.grammar.token_list())
}

/// Lower every rule of the grammar to a [`Program`]. Rules that are not
/// fragments are wrapped in `Enter` and `Exit`.
pub fn build(ag: &AnalyzedGrammar) -> (r: Program)
    requires
        ag.wf(),
    ensures
        is_program(r, *ag),
{
    let g = &ag.grammar;
    let rules = collect_rules(g);
    let mode_names = collect_mode_ids(g);
    let tokens = lower_tokens(g, &mode_names);
    let kinds = collect_kinds(g);
    let mut b = Builder { blocks: Vec::new(), first_sets: Vec::new(), sync_sets: Vec::new() };
    let mut rule_entry: NameMap<BlockId> = NameMap::new();
    let mut rule_sync: NameMap<SyncSetId> = NameMap::new();
    let mut rule_order: Vec<String> = Vec::new();
    let defs = g.rule_values();
    let ghost rv = g.rule_list();
    let ghost order = Seq::new(rv.len(), |i: int| rv[i].name);
    let mut i: usize = 0;
    proof {
        assert(b@.blocks =~= Seq::<BlockView>::empty());
        assert(b@.firsts =~= Seq::<Seq<Seq<u16>>>::empty());
        assert(b@.syncs =~= Seq::<Seq<u16>>::empty());
        assert(names::list_view(rule_order@) =~= order.take(0));
    }
    while i < defs.len()
        invariant
            i <= defs@.len(),
            ag.wf(),
            rv == ag.grammar.rule_list(),
            defs@.len() == rv.len(),
            forall|m: int| 0 <= m < defs@.len() ==> (#[trigger] defs@[m])@ == rv[m],
            order == Seq::new(rv.len(), |m: int| rv[m].name),
            names::list_view(rules@) == public_names(rv),
            names::list_view(kinds@) == kind_names(ag.grammar.token_list()),
            b.wf(),
            rule_entry.wf(),
            rule_sync.wf(),
            b@ == lowered_rules(*ag, i as nat).0,
            rule_entry@ == lowered_rules(*ag, i as nat).1,
            rule_sync@ == lowered_rules(*ag, i as nat).2,
            names::list_view(rule_order@) == order.take(i as int),
        decreases defs@.len() - i,
    {
        let rule = defs[i];
        let name = rule.name.as_str();
        let ghost r0 = rv[i as int];
        assert(rule@ == r0);
        let ghost st0 = b@;
        let sync = compute_sync(ag, name);
        let sid = b.intern_sync(&sync);
        let ghost st1 = b@;
        let at = b.blocks.len();
        let bid = BlockId(#[verifier::truncate] (at as u32));
        b.blocks.push(Block::empty(name, name));
        proof {
            assert(b@.blocks =~= st1.blocks.push(empty_block(name@, name@)));
        }
        rule_entry.put(name, bid);
        rule_sync.put(name, sid);
        let ghost order0 = rule_order@;
        rule_order.push(rule.name.clone());
        assert(names::list_view(rule_order@) =~= names::list_view(order0).push(r0.name));
        assert(order.take(i + 1) =~= order.take(i as int).push(order[i as int]));
        let tail = match ag.follow_k.get(name) {
            Some(t) => t.clone(),
            None => NameFirst::new(),
        };
        let ghost tv = first_follow::set_at(first_follow::firsts(ag.follow_k), name@);
        assert(tail@ == tv);
        let cx = Rule { ag, kinds: &kinds, sync: sid, name };
        let mut block = Block::empty(name, name);
        let ghost reserved = b@;
        let kind = rule_kind_id(&rules, name);
        if !rule.is_fragment {
            let mut label = name.to_owned();
            label.append(":enter");
            block.push(Op::Enter { kind }, label);
        }
        let ghost mid = block@;
        b.emit_expr(&cx, &rule.body, &mut block, &tail, name);
        let ghost after = b@;
        if !rule.is_fragment {
            let mut label = name.to_owned();
            label.append(":exit");
            block.push(Op::Exit { kind }, label);
        }
        proof {
            lemma_emit_grows(rule.body@, tv, name@, cx@, reserved);
            let body = emit(rule.body@, tv, name@, cx@, reserved).0;
            let steps = if r0.is_fragment {
                body
            } else {
                seq![(OpView::Enter(kind), r0.name + ":enter"@)] + body + seq![
                    (OpView::Exit(kind), r0.name + ":exit"@),
                ]
            };
            assert(block@.steps =~= with_steps(empty_block(name@, name@), steps).steps);
        }
        b.blocks.set(at, block);
        proof {
            assert(b@.blocks =~= after.blocks.update(at as int, block@));
            assert(b@ == lowered_rule(*ag, r0, sid, st1));
        }
        i += 1;
    }
    assert(order.take(i as int) =~= order);
    let mut public_rule_names = NameSet::new();
    let mut j: usize = 0;
    let ghost pv = public_names(rv);
    assert(pv.take(0).to_set() =~= Set::<Seq<char>>::empty());
    while j < rules.len()
        invariant
            j <= rules@.len(),
            pv == names::list_view(rules@),
            public_rule_names.wf(),
            public_rule_names@ == pv.take(j as int).to_set(),
        decreases rules@.len() - j,
    {
        public_rule_names.insert(rules[j].as_str());
        proof {
            assert(pv.take(j + 1) =~= pv.take(j as int).push(pv[j as int]));
            first_set::lemma_push_set(pv.take(j as int), pv[j as int]);
        }
        j += 1;
    }
    assert(pv.take(j as int) =~= pv);
    Program {
        blocks: b.blocks,
        rule_entry,
        rule_sync,
        rule_order,
        public_rule_names,
        tokens,
        rules,
        first_sets: b.first_sets,
        sync_sets: b.sync_sets,
        mode_names,
    }
}

} // verus!
