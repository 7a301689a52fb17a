//! The tables that lowering produces.
use vstd::prelude::*;

use crate::grammar::ir::TokenPattern;
use crate::lowering::lexer_dfa::DfaState;
use crate::lowering::recovery::{self, Insertion, InsertionView};
use crate::name_map::NameMap;
use crate::names::{self, Rank};
use crate::sorting;

verus! {

/// A mode-stack action with the mode resolved to its id.
#[derive(Clone, Copy, Debug, PartialEq, Eq, Structural)]
pub enum ModeActionInfo {
    /// Push the mode onto the lexer mode stack.
    Push(u32),
    /// Pop the topmost mode off the lexer mode stack.
    Pop,
}

/// One token kind of the generated lexer.
#[derive(Debug)]
pub struct TokenInfo {
    /// Grammar-declared name.
    pub name: String,
    /// Text shown for this token in error messages.
    pub display_name: String,
    /// Pattern with every reference resolved.
    pub pattern: TokenPattern,
    /// Matched but dropped from the structural event stream.
    pub skip: bool,
    /// Kind id; 0 is the end of input.
    pub kind: u16,
    /// Lexer modes in which the token is live.
    pub mode_ids: Vec<u32>,
    /// Mode-stack actions that fire on a match.
    pub mode_actions: Vec<ModeActionInfo>,
}

/// Numeric id of a parser state.
pub type StateId = u32;

/// Id into [`StateTable::first_sets`].
pub type FirstSetId = u32;

/// Id into [`StateTable::sync_sets`].
pub type SyncSetId = u32;

/// A single lookahead sequence: `k` or fewer token-kind ids.
pub type LookaheadSeq = Vec<u16>;

/// State id that means "the parser has terminated". Distinct from any real
/// state.
pub const TERMINATED: StateId = 0xFFFF_FFFF;

/// The views of a list of lookahead sequences.
pub open spec fn seqs_view(seqs: Seq<LookaheadSeq>) -> Seq<Seq<u16>> {
    sorting::lists_view(seqs)
}

/// An interned FIRST set: every lookahead sequence that can open the dispatch
/// site that owns this id, in ascending order and each once.
#[derive(Debug)]
pub struct FirstSet {
    /// Pool index of this entry.
    pub id: FirstSetId,
    /// The lookahead sequences that make up this FIRST set.
    pub seqs: Vec<LookaheadSeq>,
    /// True if the generated code consults this FIRST set at run time: some
    /// repetition or option refers to it and more than one token of lookahead
    /// is needed.
    pub has_references: bool,
}

/// An interned SYNC set: token kinds that recovery can stop at.
#[derive(Debug)]
pub struct SyncSet {
    /// Pool index of this entry.
    pub id: SyncSetId,
    /// Token-kind ids the parser will recover to.
    pub kinds: Vec<u16>,
}

/// One step of a state body that does not decide where to go next.
#[derive(Debug, PartialEq, Eq)]
pub enum Instr {
    /// Emit an `Enter` event for this rule-kind id.
    Enter(u16),
    /// Emit an `Exit` event for this rule-kind id.
    Exit(u16),
    /// Consume a token of `kind`; on mismatch, raise an error and recover to
    /// the given SYNC set.
    Expect {
        /// Required token-kind id.
        kind: u16,
        /// Token name, for the diagnostic message.
        token_name: String,
        /// SYNC set to recover to on mismatch.
        sync: SyncSetId,
        /// 1-based id of the label of this position, if it has one.
        label: Option<u16>,
    },
    /// Push a return state.
    PushRet(StateId),
}

/// The end of a state body: where to go next.
#[derive(Debug, PartialEq, Eq)]
pub enum Tail {
    /// Go to another state.
    Jump(StateId),
    /// Go to the state on top of the return stack.
    Ret,
    /// If the lookahead is in `first`, push `head` and run `body`; otherwise
    /// go to `cont`, or return if there is none.
    Star {
        /// FIRST set that the body opens with.
        first: FirstSetId,
        /// One round.
        body: Box<Body>,
        /// Where to go when the loop ends.
        cont: Option<StateId>,
        /// Where a round returns to.
        head: StateId,
    },
    /// If the lookahead is in `first`, push `cont`, if there is one, and run
    /// `body`; otherwise go to `cont`, or return if there is none.
    Opt {
        /// FIRST set that the body opens with.
        first: FirstSetId,
        /// What to run when it is taken.
        body: Box<Body>,
        /// Where to go afterwards.
        cont: Option<StateId>,
    },
    /// Pick one arm by the lookahead, or recover via `sync` on a miss.
    Dispatch {
        /// Decision tree over the lookahead.
        tree: DispatchTree,
        /// SYNC set to recover to on an unexpected token.
        sync: SyncSetId,
        /// Where to go after the arm.
        cont: Option<StateId>,
        /// What to do on a miss whose token an arm could take after its first.
        insertions: Vec<Insertion>,
    },
}

/// What a state does: some steps, then one end.
#[derive(Debug, PartialEq, Eq)]
pub struct Body {
    /// Steps in order.
    pub instrs: Vec<Instr>,
    /// Where to go next.
    pub tail: Tail,
}

/// Action at a leaf of a [`DispatchTree`].
#[derive(Debug, PartialEq, Eq)]
pub enum DispatchLeaf {
    /// Take this arm.
    Arm(Box<Body>),
    /// No arm matched, but the dispatch is nullable: go on behind it.
    Fallthrough,
    /// No arm matched: report an unexpected token and recover.
    Error,
}

/// A decision tree over up to `k` lookahead tokens.
#[derive(Debug, PartialEq, Eq)]
pub enum DispatchTree {
    /// A final action.
    Leaf(DispatchLeaf),
    /// Inspect the lookahead at `depth` and branch.
    Switch {
        /// Which lookahead slot to inspect.
        depth: u8,
        /// Sub-tree for each matched kind, in ascending order of kind.
        arms: Vec<(u16, DispatchTree)>,
        /// Action when no arm matches at this depth.
        default: DispatchLeaf,
    },
}

/// What an [`Instr`] says.
pub ghost enum InstrView {
    Enter(u16),
    Exit(u16),
    Expect(u16, Seq<char>, u32, Option<u16>),
    PushRet(u32),
}

/// What a [`Tail`] says.
pub ghost enum TailView {
    Jump(u32),
    Ret,
    /// FIRST set, body, continuation, loop head.
    Star(u32, Box<BodyView>, Option<u32>, u32),
    /// FIRST set, body, continuation.
    Opt(u32, Box<BodyView>, Option<u32>),
    /// Tree, SYNC set, continuation, insertions.
    Dispatch(TreeView, u32, Option<u32>, Seq<InsertionView>),
}

/// What a [`Body`] says.
pub ghost struct BodyView {
    pub instrs: Seq<InstrView>,
    pub tail: TailView,
}

/// What a [`DispatchLeaf`] says.
pub ghost enum LeafView {
    Arm(Box<BodyView>),
    Fallthrough,
    Error,
}

/// What a [`DispatchTree`] says.
pub ghost enum TreeView {
    Leaf(LeafView),
    /// Depth, kinds, the sub-tree of each kind, default.
    Switch(u8, Seq<u16>, Seq<TreeView>, LeafView),
}

impl Instr {
    /// What the step says.
    pub open spec fn view(self) -> InstrView {
        match self {
            Instr::Enter(k) => InstrView::Enter(k),
            Instr::Exit(k) => InstrView::Exit(k),
            Instr::Expect { kind, token_name, sync, label } => InstrView::Expect(
                kind,
                token_name@,
                sync,
                label,
            ),
            Instr::PushRet(s) => InstrView::PushRet(s),
        }
    }
}

/// What the steps say.
pub open spec fn instrs_view(v: Seq<Instr>) -> Seq<InstrView> {
    Seq::new(v.len(), |i: int| v[i]@)
}

impl Tail {
    /// What the end says.
    pub open spec fn view(self) -> TailView
        decreases self,
    {
        match self {
            Tail::Jump(s) => TailView::Jump(s),
            Tail::Ret => TailView::Ret,
            Tail::Star { first, body, cont, head } => TailView::Star(
                first,
                Box::new((*body).view()),
                cont,
                head,
            ),
            Tail::Opt { first, body, cont } => TailView::Opt(
                first,
                Box::new((*body).view()),
                cont,
            ),
            Tail::Dispatch { tree, sync, cont, insertions } => TailView::Dispatch(
                tree.view(),
                sync,
                cont,
                recovery::insertions_view(insertions@),
            ),
        }
    }
}

impl Body {
    /// What the body says.
    pub open spec fn view(self) -> BodyView
        decreases self,
    {
        BodyView { instrs: instrs_view(self.instrs@), tail: self.tail.view() }
    }
}

impl DispatchLeaf {
    /// What the leaf says.
    pub open spec fn view(self) -> LeafView
        decreases self,
    {
        match self {
            DispatchLeaf::Arm(b) => LeafView::Arm(Box::new((*b).view())),
            DispatchLeaf::Fallthrough => LeafView::Fallthrough,
            DispatchLeaf::Error => LeafView::Error,
        }
    }
}

/// The kinds of the arms.
pub open spec fn arm_kinds(arms: Seq<(u16, DispatchTree)>) -> Seq<u16> {
    Seq::new(arms.len(), |i: int| arms[i].0)
}

/// The sub-trees of the arms.
pub open spec fn arm_trees(arms: Seq<(u16, DispatchTree)>) -> Seq<TreeView>
    decreases arms,
{
    Seq::new(
        arms.len(),
        |i: int|
            if 0 <= i < arms.len() {
                arms[i].1.view()
            } else {
                TreeView::Leaf(LeafView::Error)
            },
    )
}

impl DispatchTree {
    /// What the tree says.
    pub open spec fn view(self) -> TreeView
        decreases self,
    {
        match self {
            DispatchTree::Leaf(l) => TreeView::Leaf(l.view()),
            DispatchTree::Switch { depth, arms, default } => TreeView::Switch(
                depth,
                arm_kinds(arms@),
                arm_trees(arms@),
                default.view(),
            ),
        }
    }
}

impl Clone for Instr {
    fn clone(&self) -> (r: Self)
        ensures
            r@ == self@,
    {
        match self {
            Instr::Enter(k) => Instr::Enter(*k),
            Instr::Exit(k) => Instr::Exit(*k),
            Instr::Expect { kind, token_name, sync, label } => Instr::Expect {
                kind: *kind,
                token_name: token_name.clone(),
                sync: *sync,
                label: *label,
            },
            Instr::PushRet(s) => Instr::PushRet(*s),
        }
    }
}

/// Copies of the steps.
pub(crate) fn clone_instrs(v: &Vec<Instr>) -> (r: Vec<Instr>)
    ensures
        instrs_view(r@) == instrs_view(v@),
{
    let mut r: Vec<Instr> = Vec::new();
    let mut i: usize = 0;
    while i < v.len()
        invariant
            i <= v@.len(),
            r@.len() == i,
            forall|k: int| 0 <= k < i ==> (#[trigger] r@[k])@ == v@[k]@,
        decreases v@.len() - i,
    {
        r.push(v[i].clone());
        i += 1;
    }
    assert(instrs_view(r@) =~= instrs_view(v@));
    r
}

fn clone_body(b: &Body) -> (r: Body)
    ensures
        r@ == b@,
    decreases b,
{
    Body { instrs: clone_instrs(&b.instrs), tail: clone_tail(&b.tail) }
}

fn clone_tail(t: &Tail) -> (r: Tail)
    ensures
        r@ == t@,
    decreases t,
{
    match t {
        Tail::Jump(s) => Tail::Jump(*s),
        Tail::Ret => Tail::Ret,
        Tail::Star { first, body, cont, head } => Tail::Star {
            first: *first,
            body: Box::new(clone_body(body)),
            cont: *cont,
            head: *head,
        },
        Tail::Opt { first, body, cont } => Tail::Opt {
            first: *first,
            body: Box::new(clone_body(body)),
            cont: *cont,
        },
        Tail::Dispatch { tree, sync, cont, insertions } => Tail::Dispatch {
            tree: clone_tree(tree),
            sync: *sync,
            cont: *cont,
            insertions: recovery::clone_insertions(insertions),
        },
    }
}

fn clone_leaf(l: &DispatchLeaf) -> (r: DispatchLeaf)
    ensures
        r@ == l@,
    decreases l,
{
    match l {
        DispatchLeaf::Arm(b) => DispatchLeaf::Arm(Box::new(clone_body(b))),
        DispatchLeaf::Fallthrough => DispatchLeaf::Fallthrough,
        DispatchLeaf::Error => DispatchLeaf::Error,
    }
}

fn clone_tree(t: &DispatchTree) -> (r: DispatchTree)
    ensures
        r@ == t@,
    decreases t,
{
    match t {
        DispatchTree::Leaf(l) => DispatchTree::Leaf(clone_leaf(l)),
        DispatchTree::Switch { depth, arms, default } => DispatchTree::Switch {
            depth: *depth,
            arms: clone_arms(arms),
            default: clone_leaf(default),
        },
    }
}

fn clone_arms(arms: &Vec<(u16, DispatchTree)>) -> (r: Vec<(u16, DispatchTree)>)
    ensures
        arm_kinds(r@) == arm_kinds(arms@),
        arm_trees(r@) == arm_trees(arms@),
    decreases arms,
{
    let mut r: Vec<(u16, DispatchTree)> = Vec::new();
    let mut i: usize = 0;
    while i < arms.len()
        invariant
            i <= arms@.len(),
            r@.len() == i,
            forall|k: int|
                0 <= k < i ==> (#[trigger] r@[k]).0 == arms@[k].0 && r@[k].1@ == arms@[k].1@,
        decreases arms@.len() - i,
    {
        r.push((arms[i].0, clone_tree(&arms[i].1)));
        i += 1;
    }
    assert(arm_kinds(r@) =~= arm_kinds(arms@));
    assert(arm_trees(r@) =~= arm_trees(arms@));
    r
}

impl Clone for Body {
    fn clone(&self) -> (r: Self)
        ensures
            r@ == self@,
    {
        clone_body(self)
    }
}

impl Clone for Tail {
    fn clone(&self) -> (r: Self)
        ensures
            r@ == self@,
    {
        clone_tail(self)
    }
}

impl Clone for DispatchLeaf {
    fn clone(&self) -> (r: Self)
        ensures
            r@ == self@,
    {
        clone_leaf(self)
    }
}

impl Clone for DispatchTree {
    fn clone(&self) -> (r: Self)
        ensures
            r@ == self@,
    {
        clone_tree(self)
    }
}

fn same_text(a: &str, b: &str) -> (r: bool)
    ensures
        r == (a@ == b@),
{
    proof {
        names::lemma_str_irreflexive(a@);
    }
    names::rank_str(a, b) == Rank::Same
}

fn same_instr(a: &Instr, b: &Instr) -> (r: bool)
    ensures
        r == (a@ == b@),
{
    match (a, b) {
        (Instr::Enter(x), Instr::Enter(y)) => *x == *y,
        (Instr::Exit(x), Instr::Exit(y)) => *x == *y,
        (
            Instr::Expect { kind: k1, token_name: n1, sync: s1, label: l1 },
            Instr::Expect { kind: k2, token_name: n2, sync: s2, label: l2 },
        ) => *k1 == *k2 && same_text(n1.as_str(), n2.as_str()) && *s1 == *s2 && same_label(l1, l2),
        (Instr::PushRet(x), Instr::PushRet(y)) => *x == *y,
        _ => false,
    }
}

fn same_label(a: &Option<u16>, b: &Option<u16>) -> (r: bool)
    ensures
        r == (*a == *b),
{
    match (a, b) {
        (Some(x), Some(y)) => *x == *y,
        (None, None) => true,
        _ => false,
    }
}

fn same_cont(a: &Option<StateId>, b: &Option<StateId>) -> (r: bool)
    ensures
        r == (*a == *b),
{
    match (a, b) {
        (Some(x), Some(y)) => *x == *y,
        (None, None) => true,
        _ => false,
    }
}

fn same_instrs(a: &Vec<Instr>, b: &Vec<Instr>) -> (r: bool)
    ensures
        r == (instrs_view(a@) == instrs_view(b@)),
{
    let ghost av = instrs_view(a@);
    let ghost bv = instrs_view(b@);
    if a.len() != b.len() {
        assert(av.len() != bv.len());
        return false;
    }
    let mut i: usize = 0;
    while i < a.len()
        invariant
            i <= a@.len(),
            a@.len() == b@.len(),
            av == instrs_view(a@),
            bv == instrs_view(b@),
            forall|k: int| 0 <= k < i ==> #[trigger] av[k] == bv[k],
        decreases a@.len() - i,
    {
        let same = same_instr(&a[i], &b[i]);
        assert(same == (av[i as int] == bv[i as int]));
        if !same {
            return false;
        }
        i += 1;
    }
    assert(av =~= bv);
    true
}

/// True iff the two bodies say the same.
pub fn same_body(a: &Body, b: &Body) -> (r: bool)
    ensures
        r == (a@ == b@),
    decreases a,
{
    same_instrs(&a.instrs, &b.instrs) && same_tail(&a.tail, &b.tail)
}

fn same_tail(a: &Tail, b: &Tail) -> (r: bool)
    ensures
        r == (a@ == b@),
    decreases a,
{
    match (a, b) {
        (Tail::Jump(x), Tail::Jump(y)) => *x == *y,
        (Tail::Ret, Tail::Ret) => true,
        (
            Tail::Star { first: f1, body: b1, cont: c1, head: h1 },
            Tail::Star { first: f2, body: b2, cont: c2, head: h2 },
        ) => *f1 == *f2 && same_cont(c1, c2) && *h1 == *h2 && same_body(b1, b2),
        (
            Tail::Opt { first: f1, body: b1, cont: c1 },
            Tail::Opt { first: f2, body: b2, cont: c2 },
        ) => *f1 == *f2 && same_cont(c1, c2) && same_body(b1, b2),
        (
            Tail::Dispatch { tree: t1, sync: s1, cont: c1, insertions: i1 },
            Tail::Dispatch { tree: t2, sync: s2, cont: c2, insertions: i2 },
        ) => *s1 == *s2 && same_cont(c1, c2) && recovery::same_insertions(i1, i2) && same_tree(
            t1,
            t2,
        ),
        _ => false,
    }
}

fn same_leaf(a: &DispatchLeaf, b: &DispatchLeaf) -> (r: bool)
    ensures
        r == (a@ == b@),
    decreases a,
{
    match (a, b) {
        (DispatchLeaf::Arm(x), DispatchLeaf::Arm(y)) => same_body(x, y),
        (DispatchLeaf::Fallthrough, DispatchLeaf::Fallthrough) => true,
        (DispatchLeaf::Error, DispatchLeaf::Error) => true,
        _ => false,
    }
}

fn same_tree(a: &DispatchTree, b: &DispatchTree) -> (r: bool)
    ensures
        r == (a@ == b@),
    decreases a,
{
    match (a, b) {
        (DispatchTree::Leaf(x), DispatchTree::Leaf(y)) => same_leaf(x, y),
        (
            DispatchTree::Switch { depth: d1, arms: a1, default: l1 },
            DispatchTree::Switch { depth: d2, arms: a2, default: l2 },
        ) => *d1 == *d2 && same_leaf(l1, l2) && same_arms(a1, a2),
        _ => false,
    }
}

fn same_arms(a: &Vec<(u16, DispatchTree)>, b: &Vec<(u16, DispatchTree)>) -> (r: bool)
    ensures
        r == (arm_kinds(a@) == arm_kinds(b@) && arm_trees(a@) == arm_trees(b@)),
    decreases a,
{
    let ghost ak = arm_kinds(a@);
    let ghost bk = arm_kinds(b@);
    let ghost at = arm_trees(a@);
    let ghost bt = arm_trees(b@);
    if a.len() != b.len() {
        assert(ak.len() != bk.len());
        return false;
    }
    let mut i: usize = 0;
    while i < a.len()
        invariant
            i <= a@.len(),
            a@.len() == b@.len(),
            ak == arm_kinds(a@),
            bk == arm_kinds(b@),
            at == arm_trees(a@),
            bt == arm_trees(b@),
            forall|k: int| 0 <= k < i ==> #[trigger] ak[k] == bk[k],
            forall|k: int| 0 <= k < i ==> #[trigger] at[k] == bt[k],
        decreases a@.len() - i,
    {
        if a[i].0 != b[i].0 {
            assert(ak[i as int] != bk[i as int]);
            return false;
        }
        let same = same_tree(&a[i].1, &b[i].1);
        assert(same == (at[i as int] == bt[i as int]));
        if !same {
            return false;
        }
        i += 1;
    }
    assert(ak =~= bk);
    assert(at =~= bt);
    true
}

/// The body that only goes to a state.
pub open spec fn jump_body(s: u32) -> BodyView {
    BodyView { instrs: Seq::empty(), tail: TailView::Jump(s) }
}

impl Body {
    /// The body that only goes to `s`.
    pub fn jump(s: StateId) -> (r: Body)
        ensures
            r@ == jump_body(s),
    {
        let r = Body { instrs: Vec::new(), tail: Tail::Jump(s) };
        assert(instrs_view(r.instrs@) =~= Seq::<InstrView>::empty());
        r
    }

    /// The state that the body goes to, if it does nothing else.
    pub fn jump_target(&self) -> (r: Option<StateId>)
        ensures
            match r {
                Some(s) => self@ == jump_body(s),
                None => forall|s: u32| self@ != jump_body(s),
            },
    {
        if self.instrs.len() == 0 {
            if let Tail::Jump(s) = self.tail {
                assert(instrs_view(self.instrs@) =~= Seq::<InstrView>::empty());
                return Some(s);
            }
        }
        proof {
            assert forall|s: u32| self@ != jump_body(s) by {
                if self@ == jump_body(s) {
                    assert(self@.instrs.len() == 0);
                }
            }
        }
        None
    }

    /// True iff the body does nothing but go to a state: it stands for that
    /// state and was not inlined.
    pub fn is_state(&self) -> (r: bool)
        ensures
            r <==> exists|s: u32| self@ == jump_body(s),
    {
        self.jump_target().is_some()
    }

    /// The state the body stands for, if it was not inlined.
    pub fn state(&self) -> (r: Option<StateId>)
        ensures
            match r {
                Some(s) => self@ == jump_body(s),
                None => forall|s: u32| self@ != jump_body(s),
            },
    {
        self.jump_target()
    }
}

/// A numbered state.
#[derive(Debug)]
pub struct State {
    /// The state's id.
    pub id: StateId,
    /// Human-readable tag (e.g. `expr:alt0:call:atom`).
    pub label: String,
    /// The rule that the state belongs to.
    pub rule: String,
    /// What the state does.
    pub body: Body,
}

/// What a [`State`] says.
pub ghost struct StateView {
    pub id: u32,
    pub label: Seq<char>,
    pub rule: Seq<char>,
    pub body: BodyView,
}

impl State {
    /// What the state says.
    pub open spec fn view(self) -> StateView {
        StateView {
            id: self.id,
            label: self.label@,
            rule: self.rule@,
            body: self.body@,
        }
    }
}

impl Clone for State {
    fn clone(&self) -> (r: Self)
        ensures
            r@ == self@,
    {
        State {
            id: self.id,
            label: self.label.clone(),
            rule: self.rule.clone(),
            body: self.body.clone(),
        }
    }
}

/// The states are in strictly ascending order of id.
pub open spec fn ascending(states: Seq<StateView>) -> bool {
    forall|i: int, j: int|
        0 <= i < j < states.len() ==> (#[trigger] states[i]).id < (#[trigger] states[j]).id
}

/// What the states say.
pub open spec fn states_view(v: Seq<State>) -> Seq<StateView> {
    Seq::new(v.len(), |i: int| v[i]@)
}

/// Some state has the id.
pub open spec fn has_state(states: Seq<StateView>, id: u32) -> bool {
    exists|i: int| 0 <= i < states.len() && (#[trigger] states[i]).id == id
}

/// The body of the state with the id, if there is one.
pub open spec fn body_of(states: Seq<StateView>, id: u32) -> Option<BodyView>
    decreases states.len(),
{
    if states.len() == 0 {
        None
    } else if states.last().id == id {
        Some(states.last().body)
    } else {
        body_of(states.drop_last(), id)
    }
}

/// Parser states by id, in ascending order.
#[derive(Debug)]
pub struct StateMap {
    states: Vec<State>,
}

impl StateMap {
    /// The states in ascending order of id.
    pub closed spec fn view(self) -> Seq<StateView> {
        states_view(self.states@)
    }

    /// The states are in strictly ascending order of id.
    pub open spec fn wf(self) -> bool {
        ascending(self@)
    }

    /// No states.
    pub fn new() -> (r: Self)
        ensures
            r.wf(),
            r@ == Seq::<StateView>::empty(),
    {
        let r = StateMap { states: Vec::new() };
        assert(r@ =~= Seq::<StateView>::empty());
        r
    }

    /// The number of states.
    pub fn len(&self) -> (n: usize)
        ensures
            n == self@.len(),
    {
        self.states.len()
    }

    /// True iff there is no state.
    pub fn is_empty(&self) -> (r: bool)
        ensures
            r == (self@.len() == 0),
    {
        self.states.len() == 0
    }

    /// The state at position `i` of the order.
    pub fn at(&self, i: usize) -> (r: &State)
        requires
            i < self@.len(),
        ensures
            r@ == self@[i as int],
    {
        &self.states[i]
    }

    /// The states in ascending order of id.
    pub fn values(&self) -> (r: &Vec<State>)
        ensures
            states_view(r@) == self@,
    {
        &self.states
    }

    /// The state with the id.
    pub fn get(&self, id: &StateId) -> (r: Option<&State>)
        requires
            self.wf(),
        ensures
            r is Some <==> has_state(self@, *id),
            match r {
                Some(s) => s.id == *id && body_of(self@, *id) == Some(s@.body) && self@.contains(
                    s@,
                ),
                None => body_of(self@, *id) is None,
            },
    {
        let mut i: usize = 0;
        while i < self.states.len()
            invariant
                i <= self.states@.len(),
                self.wf(),
                forall|k: int| 0 <= k < i ==> (#[trigger] self@[k]).id != *id,
            decreases self.states@.len() - i,
        {
            assert(self@[i as int] == self.states@[i as int]@);
            if self.states[i].id == *id {
                proof {
                    lemma_body_at(self@, i as int);
                }
                return Some(&self.states[i]);
            }
            i += 1;
        }
        proof {
            lemma_no_body(self@, *id);
        }
        None
    }

    /// True iff some state has the id.
    pub fn contains_key(&self, id: &StateId) -> (r: bool)
        requires
            self.wf(),
        ensures
            r == has_state(self@, *id),
    {
        self.get(id).is_some()
    }

    /// Puts the state under its id, in the place of an earlier one if there is
    /// one.
    pub fn insert(&mut self, id: StateId, state: State)
        requires
            old(self).wf(),
            state.id == id,
        ensures
            final(self).wf(),
            has_state(final(self)@, id),
            body_of(final(self)@, id) == Some(state@.body),
            forall|n: u32| n != id ==> #[trigger] has_state(final(self)@, n) == has_state(
                old(self)@,
                n,
            ),
            old(self)@.len() == 0 || old(self)@.last().id < id ==> final(self)@ == old(self)@.push(
                state@,
            ),
    {
        let ghost before = self@;
        let mut at: usize = 0;
        while at < self.states.len() && self.states[at].id < id
            invariant
                at <= self.states@.len(),
                self@ == before,
                self.wf(),
                forall|k: int| 0 <= k < at ==> (#[trigger] before[k]).id < id,
            decreases self.states@.len() - at,
        {
            assert(before[at as int] == self.states@[at as int]@);
            at += 1;
        }
        let ghost sv = state@;
        if at < self.states.len() && self.states[at].id == id {
            assert(before[at as int] == self.states@[at as int]@);
            self.states.set(at, state);
            proof {
                assert(self@ =~= before.update(at as int, sv));
                assert(before.last().id >= id) by {
                    if at < before.len() - 1 {
                        assert(before[at as int].id < before[before.len() - 1].id);
                    }
                }
                lemma_body_at(self@, at as int);
                assert forall|n: u32| n != id implies #[trigger] has_state(self@, n) == has_state(
                    before,
                    n,
                ) by {
                    if has_state(self@, n) {
                        let i = choose|i: int|
                            0 <= i < self@.len() && (#[trigger] self@[i]).id == n;
                        assert(before[i].id == n);
                    }
                    if has_state(before, n) {
                        let i = choose|i: int|
                            0 <= i < before.len() && (#[trigger] before[i]).id == n;
                        assert(self@[i].id == n);
                    }
                }
            }
        } else {
            proof {
                if at < before.len() {
                    assert(before[at as int] == self.states@[at as int]@);
                }
                assert forall|k: int| at <= k < before.len() implies id < (
                #[trigger] before[k]).id by {
                    if at < k {
                        assert(before[at as int].id < before[k].id);
                    }
                }
            }
            self.states.insert(at, state);
            proof {
                let after = self@;
                assert(after =~= before.insert(at as int, sv));
                assert forall|i: int, j: int| 0 <= i < j < after.len() implies (
                #[trigger] after[i]).id < (#[trigger] after[j]).id by {
                    let a = if i < at {
                        i
                    } else {
                        i - 1
                    };
                    let b = if j < at {
                        j
                    } else {
                        j - 1
                    };
                    if i != at && j != at {
                        assert(before[a].id < before[b].id);
                    } else if i == at {
                        assert(id < before[b].id);
                    } else {
                        assert(before[a].id < id);
                    }
                }
                assert(after[at as int].id == id);
                lemma_body_at(after, at as int);
                assert forall|n: u32| n != id implies #[trigger] has_state(after, n) == has_state(
                    before,
                    n,
                ) by {
                    if has_state(after, n) {
                        let i = choose|i: int| 0 <= i < after.len() && (#[trigger] after[i]).id == n;
                        if i < at {
                            assert(before[i].id == n);
                        } else {
                            assert(before[i - 1].id == n);
                        }
                    }
                    if has_state(before, n) {
                        let i = choose|i: int|
                            0 <= i < before.len() && (#[trigger] before[i]).id == n;
                        if i < at {
                            assert(after[i].id == n);
                        } else {
                            assert(after[i + 1].id == n);
                        }
                    }
                }
                if before.len() == 0 || before.last().id < id {
                    if at < before.len() {
                        assert(id < before[before.len() - 1].id);
                    }
                    assert(after =~= before.push(sv));
                }
            }
        }
    }

    /// The states with the bodies replaced.
    pub(crate) fn from_states(states: Vec<State>) -> (r: Self)
        ensures
            r@ == states_view(states@),
    {
        StateMap { states }
    }
}

/// In ascending states, the body under an id is that of the one state with it.
pub proof fn lemma_body_at(states: Seq<StateView>, i: int)
    requires
        ascending(states),
        0 <= i < states.len(),
    ensures
        body_of(states, states[i].id) == Some(states[i].body),
        has_state(states, states[i].id),
        states.contains(states[i]),
    decreases states.len(),
{
    if i < states.len() - 1 {
        assert(states[i].id < states[states.len() - 1].id);
        assert(states.drop_last()[i] == states[i]);
        assert forall|a: int, b: int| 0 <= a < b < states.drop_last().len() implies (
        #[trigger] states.drop_last()[a]).id < (#[trigger] states.drop_last()[b]).id by {
            assert(states[a].id < states[b].id);
        }
        lemma_body_at(states.drop_last(), i);
    }
}

/// Without a state there is no body.
pub proof fn lemma_no_body(states: Seq<StateView>, id: u32)
    requires
        forall|k: int| 0 <= k < states.len() ==> (#[trigger] states[k]).id != id,
    ensures
        body_of(states, id) is None,
    decreases states.len(),
{
    if states.len() > 0 {
        assert(states[states.len() - 1].id != id);
        assert forall|k: int| 0 <= k < states.drop_last().len() implies (
        #[trigger] states.drop_last()[k]).id != id by {
            assert(states[k].id != id);
        }
        lemma_no_body(states.drop_last(), id);
    }
}

/// One lexer mode.
#[derive(Debug)]
pub struct ModeInfo {
    /// The mode's id.
    pub id: u32,
    /// The mode's name.
    pub name: String,
    /// The lexer automaton of the tokens that are live in the mode.
    pub dfa: Vec<DfaState>,
}

/// Everything a backend needs to emit a parser.
#[derive(Debug)]
pub struct StateTable {
    /// Grammar name, used by backends to pick file/package names.
    pub grammar_name: String,
    /// Non-fragment token metadata, indexed by `kind - 1`.
    pub tokens: Vec<TokenInfo>,
    /// Names of the non-fragment rules in declaration order. A rule's kind id
    /// is its index here.
    pub rule_kinds: Vec<String>,
    /// Names of the labels. A label's id is its index here plus one.
    pub labels: Vec<String>,
    /// Interned FIRST sets.
    pub first_sets: Vec<FirstSet>,
    /// Interned SYNC sets.
    pub sync_sets: Vec<SyncSet>,
    /// The SYNC set of each rule.
    pub rule_sync: NameMap<SyncSetId>,
    /// Every parser state.
    pub states: StateMap,
    /// Public entry points: rule name and start state of each non-fragment
    /// rule.
    pub entry_states: Vec<(String, StateId)>,
    /// Lookahead required to disambiguate every alternative.
    pub k: usize,
    /// The lexer modes, the default mode first.
    pub modes: Vec<ModeInfo>,
}

impl StateTable {
    /// The lexer automaton of the default mode.
    pub fn lexer_dfa(&self) -> (r: &Vec<DfaState>)
        requires
            self.modes@.len() > 0,
        ensures
            *r == self.modes@[0].dfa,
    {
        &self.modes[0].dfa
    }
}

/// No dispatch in the body has more arms than can be counted.
pub open spec fn body_narrow(b: BodyView) -> bool
    decreases b, 1nat,
{
    tail_narrow(b.tail)
}

/// No dispatch in the end of a body has more arms than can be counted.
pub open spec fn tail_narrow(t: TailView) -> bool
    decreases t, 0nat,
{
    match t {
        TailView::Star(_, b, _, _) => body_narrow(*b),
        TailView::Opt(_, b, _) => body_narrow(*b),
        TailView::Dispatch(tree, _, _, _) => tree_narrow(tree),
        _ => true,
    }
}

/// No dispatch in the leaf has more arms than can be counted.
pub open spec fn leaf_narrow(l: LeafView) -> bool
    decreases l, 0nat,
{
    match l {
        LeafView::Arm(b) => body_narrow(*b),
        _ => true,
    }
}

/// No dispatch in the tree has more arms than can be counted.
pub open spec fn tree_narrow(t: TreeView) -> bool
    decreases t, 0nat,
{
    match t {
        TreeView::Leaf(l) => leaf_narrow(l),
        TreeView::Switch(_, _, subs, default) => {
            &&& subs.len() <= usize::MAX
            &&& leaf_narrow(default)
            &&& forall|i: int| 0 <= i < subs.len() ==> tree_narrow(#[trigger] subs[i])
        },
    }
}

proof fn lemma_body_narrow(b: Body)
    ensures
        body_narrow(b@),
    decreases b,
{
    lemma_tail_narrow(b.tail);
}

proof fn lemma_tail_narrow(t: Tail)
    ensures
        tail_narrow(t@),
    decreases t,
{
    match t {
        Tail::Star { body, .. } => lemma_body_narrow(*body),
        Tail::Opt { body, .. } => lemma_body_narrow(*body),
        Tail::Dispatch { tree, .. } => lemma_tree_narrow(tree),
        _ => {},
    }
}

proof fn lemma_leaf_narrow(l: DispatchLeaf)
    ensures
        leaf_narrow(l@),
    decreases l,
{
    if let DispatchLeaf::Arm(b) = l {
        lemma_body_narrow(*b);
    }
}

proof fn lemma_tree_narrow(t: DispatchTree)
    ensures
        tree_narrow(t@),
    decreases t,
{
    match t {
        DispatchTree::Leaf(l) => lemma_leaf_narrow(l),
        DispatchTree::Switch { depth, arms, default } => {
            lemma_leaf_narrow(default);
            let subs = arm_trees(arms@);
            assert(arms@.len() == arms.len());
            assert forall|i: int| 0 <= i < subs.len() implies tree_narrow(#[trigger] subs[i]) by {
                assert(subs[i] == arms@[i].1@);
                lemma_tree_narrow(arms@[i].1);
            }
        },
    }
}

/// No dispatch of a table has more arms than can be counted.
pub proof fn lemma_states_narrow(m: StateMap)
    ensures
        forall|i: int| 0 <= i < m@.len() ==> body_narrow((#[trigger] m@[i]).body),
{
    assert forall|i: int| 0 <= i < m@.len() implies body_narrow((#[trigger] m@[i]).body) by {
        lemma_body_narrow(m.states@[i].body);
    }
}

} // verus!
