//! The pull parser: a state table run over a lexer.
//!
//! Each turn of the parser fills a slot of the lookahead, or takes one step
//! of recovery, or runs one state body. A turn gives at most one event.
use vstd::prelude::*;

use crate::lowering::recovery::{self, Insertion, InsertionView, PostFirst};
use crate::lowering::table::{
    self, Body, BodyView, DispatchLeaf, DispatchTree, Instr, InstrView, LeafView, ModeActionInfo,
    ModeInfo,
    StateTable, Tail, TailView, TreeView,
};
use crate::names;
use crate::runtime::events::{self, Error, ErrorView, Event, EventView, Token, TokenView, TOKEN_EOF};
use crate::runtime::laws;
use crate::runtime::lexer::{
    self, LexSource, LexerBackend, Pull, RawToken, ScanView, Scanner, StreamView, StreamingLexer,
    TableMatcher,
};
use crate::sorting;
use crate::span::{Pos, Span};
use crate::text;

verus! {

/// The state of a parse that is over. No state of a table has this number.
pub const TERMINATED: u32 = 0;

/// An event of the run-time: kinds and labels are numbers.
pub type RawEvent = Event<u16, u16, u16>;

/// How a parser treats skip tokens.
pub trait ParserConfig {
    /// Skip tokens are among the events.
    spec fn emits() -> bool;

    /// Are skip tokens among the events?
    fn emit_skips() -> (r: bool)
        ensures
            r == Self::emits(),
    ;
}

/// Skip tokens are among the events.
#[derive(Clone, Copy, Debug)]
pub struct EmitSkips;

impl ParserConfig for EmitSkips {
    open spec fn emits() -> bool {
        true
    }

    fn emit_skips() -> (r: bool) {
        true
    }
}

/// Skip tokens are dropped.
#[derive(Clone, Copy, Debug)]
pub struct DropSkips;

impl ParserConfig for DropSkips {
    open spec fn emits() -> bool {
        false
    }

    fn emit_skips() -> (r: bool) {
        false
    }
}

/// One slot of the return stack: where to go on, and how many lexer modes
/// there were when it was pushed.
#[derive(Clone, Copy, Debug, PartialEq, Eq, Structural)]
struct RetFrame {
    state: u32,
    mode_depth: usize,
}

/// Recovery under way.
#[derive(Debug)]
struct Recovery {
    /// Kinds to stop at.
    sync: Vec<u16>,
    /// The kind that was missing: if recovery stops at it, it is taken.
    expected: Option<u16>,
}

/// What a [`Cursor`] holds.
pub ghost struct CursorView {
    pub lex: ScanView,
    /// The filled slots of the lookahead.
    pub look: Seq<TokenView<u16, u16>>,
    /// End of the last token, or start of the last rule if that came later.
    pub prev_end: Pos,
    pub state: u32,
    /// Return stack: state and number of modes of each frame.
    pub ret: Seq<(u32, nat)>,
    /// Kinds to stop at, and the kind that was missing.
    pub recovery: Option<(Seq<u16>, Option<u16>)>,
}

spec fn frames_view(v: Seq<RetFrame>) -> Seq<(u32, nat)> {
    Seq::new(v.len(), |i: int| (v[i].state, v[i].mode_depth as nat))
}

spec fn recovery_view(r: Option<Recovery>) -> Option<(Seq<u16>, Option<u16>)> {
    match r {
        Some(x) => Some((x.sync@, x.expected)),
        None => None,
    }
}

/// The kind in a slot of the lookahead; none if the slot is not filled.
pub open spec fn look_kind(c: CursorView, i: int) -> Option<u16> {
    if 0 <= i < c.look.len() {
        c.look[i].kind
    } else {
        None
    }
}

/// Where the parser is: at the next token.
pub open spec fn here(c: CursorView) -> Span {
    if c.look.len() > 0 {
        c.look[0].span
    } else {
        Span { start: c.prev_end, end: c.prev_end }
    }
}

/// An error at the next token.
pub open spec fn error_event(c: CursorView, msg: Seq<char>) -> EventView<u16, u16, u16> {
    EventView::Error(ErrorView { message: msg, span: here(c) })
}

/// Without the next token.
pub open spec fn taken(c: CursorView) -> CursorView {
    CursorView { look: c.look.skip(1), prev_end: c.look[0].span.end, ..c }
}

/// At the state.
pub open spec fn at_state(c: CursorView, s: u32) -> CursorView {
    CursorView { state: s, ..c }
}

/// With a return state more.
pub open spec fn pushed(c: CursorView, s: u32) -> CursorView {
    CursorView { ret: c.ret.push((s, c.lex.modes.len())), ..c }
}

/// At the return state on top, without it.
pub open spec fn returned(c: CursorView) -> CursorView {
    if c.ret.len() > 0 {
        CursorView { state: c.ret.last().0, ret: c.ret.drop_last(), ..c }
    } else {
        at_state(c, TERMINATED)
    }
}

/// In recovery. Modes that the rule pushed are dropped.
pub open spec fn armed(c: CursorView, sync: Seq<u16>, expected: Option<u16>) -> CursorView {
    let depth: nat = if c.ret.len() > 0 {
        c.ret.last().1
    } else {
        1
    };
    CursorView {
        lex: ScanView { modes: lexer::cut(c.lex.modes, depth), ..c.lex },
        recovery: Some((sync, expected)),
        ..c
    }
}

/// The lookahead begins with the sequence.
pub open spec fn begins(c: CursorView, s: Seq<u16>) -> bool {
    forall|j: int| 0 <= j < s.len() ==> look_kind(c, j) == Some(#[trigger] s[j])
}

/// The lookahead begins with one of the sequences.
pub open spec fn in_first(c: CursorView, seqs: Seq<Seq<u16>>) -> bool {
    exists|i: int| 0 <= i < seqs.len() && #[trigger] begins(c, seqs[i])
}

/// Taking a token of the kind, or raising an error and recovering.
pub open spec fn expected_step(
    c: CursorView,
    kind: u16,
    sync: Seq<u16>,
    msg: Seq<char>,
    label: Option<u16>,
) -> (CursorView, EventView<u16, u16, u16>) {
    if look_kind(c, 0) == Some(kind) {
        (taken(c), EventView::Token(TokenView { label, ..c.look[0] }))
    } else {
        (armed(c, sync, Some(kind)), error_event(c, msg))
    }
}

/// What generated code works on: lookahead, return stack, recovery.
pub struct Cursor<L: LexSource> {
    lex: L,
    look: Vec<RawToken>,
    prev_end: Pos,
    state: u32,
    ret_stack: Vec<RetFrame>,
    recovery: Option<Recovery>,
}

impl<L: LexSource> Cursor<L> {
    /// What the cursor holds.
    pub closed spec fn view(self) -> CursorView {
        CursorView {
            lex: self.lex.scan(),
            look: events::tokens_view(self.look@),
            prev_end: self.prev_end,
            state: self.state,
            ret: frames_view(self.ret_stack@),
            recovery: recovery_view(self.recovery),
        }
    }

    /// What the lexer lexes, and whether all of the text is there.
    pub closed spec fn fixed(self) -> (Vec<ModeInfo>, bool) {
        self.lex.fixed()
    }

    /// The lexer can be asked.
    pub closed spec fn wf(self) -> bool {
        self.lex.ready()
    }

    /// Current state id.
    pub fn state(&self) -> (r: u32)
        ensures
            r == self@.state,
    {
        self.state
    }

    /// Go to a state.
    pub fn set_state(&mut self, s: u32)
        requires
            old(self).wf(),
        ensures
            final(self).wf(),
            final(self).fixed() == old(self).fixed(),
            final(self)@ == at_state(old(self)@, s),
    {
        self.state = s;
    }

    /// Push a return state.
    pub fn push_ret(&mut self, s: u32)
        requires
            old(self).wf(),
        ensures
            final(self).wf(),
            final(self).fixed() == old(self).fixed(),
            final(self)@ == pushed(old(self)@, s),
    {
        let mode_depth = self.lex.depth();
        self.ret_stack.push(RetFrame { state: s, mode_depth });
        assert(self@.ret =~= pushed(old(self)@, s).ret);
    }

    /// Pop the return state on top; [`TERMINATED`] if there is none.
    pub fn ret(&mut self) -> (r: u32)
        requires
            old(self).wf(),
        ensures
            final(self).wf(),
            final(self).fixed() == old(self).fixed(),
            r == returned(old(self)@).state,
            final(self)@ == (CursorView { ret: returned(old(self)@).ret, ..old(self)@ }),
    {
        match self.ret_stack.pop() {
            Some(f) => {
                assert(self@.ret =~= old(self)@.ret.drop_last());
                f.state
            },
            None => TERMINATED,
        }
    }

    /// The number of filled slots of the lookahead.
    fn filled(&self) -> (n: usize)
        ensures
            n == self@.look.len(),
    {
        self.look.len()
    }

    /// The `i`-th token of the lookahead.
    pub fn look(&self, i: usize) -> (r: &RawToken)
        requires
            i < self@.look.len(),
        ensures
            r@ == self@.look[i as int],
    {
        &self.look[i]
    }

    /// The kind in a slot of the lookahead.
    fn kind_at(&self, i: usize) -> (r: Option<u16>)
        ensures
            r == look_kind(self@, i as int),
    {
        if i < self.look.len() {
            self.look[i].kind
        } else {
            None
        }
    }

    /// Does the lookahead begin with any of the sequences?
    pub fn matches_first(&self, set: &Vec<Vec<u16>>) -> (r: bool)
        ensures
            r == in_first(self@, table::seqs_view(set@)),
    {
        let ghost seqs = table::seqs_view(set@);
        let mut i: usize = 0;
        while i < set.len()
            invariant
                i <= set@.len(),
                seqs == table::seqs_view(set@),
                forall|m: int| 0 <= m < i ==> !#[trigger] begins(self@, seqs[m]),
            decreases set@.len() - i,
        {
            let s = &set[i];
            assert(seqs[i as int] == s@);
            let mut j: usize = 0;
            while j < s.len() && self.kind_at(j) == Some(s[j])
                invariant
                    j <= s@.len(),
                    forall|m: int| 0 <= m < j ==> look_kind(self@, m) == Some(#[trigger] s@[m]),
                decreases s@.len() - j,
            {
                j += 1;
            }
            if j == s.len() {
                assert(begins(self@, seqs[i as int]));
                return true;
            }
            assert(!begins(self@, seqs[i as int])) by {
                assert(look_kind(self@, j as int) != Some(s@[j as int]));
            }
            i += 1;
        }
        false
    }

    /// Where the parser is.
    fn place(&self) -> (r: Span)
        ensures
            r == here(self@),
    {
        if self.look.len() > 0 {
            assert(self@.look[0] == self.look@[0]@);
            self.look[0].span
        } else {
            Span::point(self.prev_end)
        }
    }

    /// Build an `Enter` event at the next token.
    pub fn enter(&mut self, rule: u16) -> (e: RawEvent)
        requires
            old(self).wf(),
        ensures
            final(self).wf(),
            final(self).fixed() == old(self).fixed(),
            final(self)@ == (CursorView { prev_end: here(old(self)@).start, ..old(self)@ }),
            e@ == EventView::<u16, u16, u16>::Enter(rule, here(old(self)@).start),
    {
        let pos = self.place().start;
        self.prev_end = pos;
        Event::Enter { rule, pos }
    }

    /// Build an `Exit` event at the end of what was last taken.
    pub fn exit(&self, rule: u16) -> (e: RawEvent)
        ensures
            e@ == EventView::<u16, u16, u16>::Exit(rule, self@.prev_end),
    {
        Event::Exit { rule, pos: self.prev_end }
    }

    /// Build an error event at the next token.
    pub fn error_here(&self, msg: String) -> (e: RawEvent)
        ensures
            e@ == error_event(self@, msg@),
    {
        Event::Error(Error::new(msg).at(self.place()))
    }

    /// Take the next token.
    fn take_token(&mut self) -> (t: RawToken)
        requires
            old(self).wf(),
            old(self)@.look.len() > 0,
        ensures
            final(self).wf(),
            final(self).fixed() == old(self).fixed(),
            final(self)@ == taken(old(self)@),
            t@ == old(self)@.look[0],
    {
        let ghost before = self.look@;
        let t = self.look.remove(0);
        self.prev_end = t.span.end;
        assert(t == before[0]);
        assert(self@.look =~= old(self)@.look.skip(1));
        t
    }

    /// Take the next token as an event.
    pub fn consume(&mut self) -> (e: RawEvent)
        requires
            old(self).wf(),
            old(self)@.look.len() > 0,
        ensures
            final(self).wf(),
            final(self).fixed() == old(self).fixed(),
            final(self)@ == taken(old(self)@),
            e@ == EventView::<u16, u16, u16>::Token(old(self)@.look[0]),
    {
        Event::Token(self.take_token())
    }

    /// Start recovery to one of the kinds.
    fn arm_recovery(&mut self, sync: &Vec<u16>, expected: Option<u16>)
        requires
            old(self).wf(),
        ensures
            final(self).wf(),
            final(self).fixed() == old(self).fixed(),
            final(self)@ == armed(old(self)@, sync@, expected),
    {
        let n = self.ret_stack.len();
        let depth: usize = if n > 0 {
            assert(self@.ret.last() == (
                self.ret_stack@[n - 1].state,
                self.ret_stack@[n - 1].mode_depth as nat,
            ));
            self.ret_stack[n - 1].mode_depth
        } else {
            1
        };
        self.recovery = Some(Recovery { sync: sorting::clone_kinds(sync), expected });
        self.lex.cut_modes(depth);
    }

    /// Start recovery to one of the kinds, with none that is missing.
    pub fn recover_to(&mut self, sync: &Vec<u16>)
        requires
            old(self).wf(),
        ensures
            final(self).wf(),
            final(self).fixed() == old(self).fixed(),
            final(self)@ == armed(old(self)@, sync@, None),
    {
        self.arm_recovery(sync, None);
    }

    /// Take a token of the kind; on a miss, raise an error and start recovery.
    pub fn expect(&mut self, kind: u16, sync: &Vec<u16>, expected_msg: String) -> (e: RawEvent)
        requires
            old(self).wf(),
        ensures
            final(self).wf(),
            final(self).fixed() == old(self).fixed(),
            (final(self)@, e@) == expected_step(old(self)@, kind, sync@, expected_msg@, None),
    {
        self.expect_labeled(kind, sync, expected_msg, None)
    }

    /// [`Cursor::expect`], with a label for the token that is taken.
    pub fn expect_labeled(
        &mut self,
        kind: u16,
        sync: &Vec<u16>,
        expected_msg: String,
        label: Option<u16>,
    ) -> (e: RawEvent)
        requires
            old(self).wf(),
        ensures
            final(self).wf(),
            final(self).fixed() == old(self).fixed(),
            (final(self)@, e@) == expected_step(old(self)@, kind, sync@, expected_msg@, label),
    {
        if self.kind_at(0) == Some(kind) {
            let t = self.take_token();
            return Event::Token(Token { kind: t.kind, span: t.span, text: t.text, label });
        }
        let e = self.error_here(expected_msg);
        self.arm_recovery(sync, Some(kind));
        e
    }
}

/// The kinds of a SYNC set.
pub open spec fn sync_kinds(st: StateTable, id: u32) -> Seq<u16> {
    if id < st.sync_sets@.len() {
        st.sync_sets@[id as int].kinds@
    } else {
        Seq::empty()
    }
}

/// The sequences of a FIRST set.
pub open spec fn first_seqs(st: StateTable, id: u32) -> Seq<Seq<u16>> {
    if id < st.first_sets@.len() {
        table::seqs_view(st.first_sets@[id as int].seqs@)
    } else {
        Seq::empty()
    }
}

/// The display name of a token kind.
pub open spec fn shown_kind(st: StateTable, kind: u16) -> Seq<char> {
    if kind == TOKEN_EOF {
        "EOF"@
    } else if kind as int - 1 < st.tokens@.len() {
        st.tokens@[kind as int - 1].display_name@
    } else {
        "?"@
    }
}

/// What is said when one of several tokens is missing.
pub open spec fn expected_text(st: StateTable, kinds: Seq<u16>) -> Seq<char> {
    "expected "@ + text::joined(
        Seq::new(kinds.len(), |i: int| shown_kind(st, kinds[i])),
        " | "@,
    )
}

/// One step of a body: the cursor afterwards, and the event.
pub open spec fn instr_step(st: StateTable, c: CursorView, i: InstrView) -> (
    CursorView,
    Option<EventView<u16, u16, u16>>,
) {
    match i {
        InstrView::Enter(k) => (
            CursorView { prev_end: here(c).start, ..c },
            Some(EventView::Enter(k, here(c).start)),
        ),
        InstrView::Exit(k) => (c, Some(EventView::Exit(k, c.prev_end))),
        InstrView::Expect(kind, name, sync, label) => {
            let (d, e) = expected_step(
                c,
                kind,
                sync_kinds(st, sync),
                "expected "@ + name,
                label,
            );
            (d, Some(e))
        },
        InstrView::PushRet(s) => (pushed(c, s), None),
    }
}

/// The first `n` steps of a body.
pub open spec fn instrs_step(st: StateTable, c: CursorView, l: Seq<InstrView>, n: nat) -> (
    CursorView,
    Option<EventView<u16, u16, u16>>,
)
    decreases n,
{
    if n == 0 || n > l.len() {
        (c, None)
    } else {
        let (d, e) = instrs_step(st, c, l, (n - 1) as nat);
        let (f, g) = instr_step(st, d, l[n - 1]);
        (f, later(e, g))
    }
}

/// The later of two events.
pub open spec fn later(
    a: Option<EventView<u16, u16, u16>>,
    b: Option<EventView<u16, u16, u16>>,
) -> Option<EventView<u16, u16, u16>> {
    if b is Some {
        b
    } else {
        a
    }
}

/// Going on at the continuation, or returning if there is none.
pub open spec fn go_on(c: CursorView, cont: Option<u32>) -> CursorView {
    match cont {
        Some(s) => at_state(c, s),
        None => returned(c),
    }
}

/// With the continuation pushed, if there is one.
pub open spec fn calling(c: CursorView, cont: Option<u32>) -> CursorView {
    match cont {
        Some(s) => pushed(c, s),
        None => c,
    }
}

/// Going on behind a token that is taken as inserted.
pub open spec fn inserted(c: CursorView, p: PostFirst) -> CursorView {
    match p {
        PostFirst::Jump(s) => at_state(c, s),
        PostFirst::PushRetAndJump { push, jump } => at_state(pushed(c, push), jump),
        PostFirst::Ret => returned(c),
    }
}

/// The first of the insertions that is for the kind; their number if none is.
pub open spec fn insertion_for(l: Seq<InsertionView>, kind: Option<u16>) -> int
    decreases l.len(),
{
    if l.len() == 0 {
        0
    } else if kind is Some && l[0].kinds_to_match.contains(kind->0) {
        0
    } else {
        1 + insertion_for(l.skip(1), kind)
    }
}

/// An unexpected token at a dispatch.
pub open spec fn missed(
    st: StateTable,
    c: CursorView,
    sync: u32,
    cont: Option<u32>,
    l: Seq<InsertionView>,
) -> (CursorView, Option<EventView<u16, u16, u16>>) {
    let i = insertion_for(l, look_kind(c, 0));
    if i < l.len() {
        (
            inserted(c, l[i].post_first),
            Some(error_event(c, expected_text(st, l[i].candidate_kinds))),
        )
    } else {
        (
            armed(go_on(c, cont), sync_kinds(st, sync), None),
            Some(error_event(c, "unexpected token"@)),
        )
    }
}

/// A body: the cursor afterwards, and the event.
pub open spec fn body_step(st: StateTable, c: CursorView, b: BodyView) -> (
    CursorView,
    Option<EventView<u16, u16, u16>>,
)
    decreases b, 1nat,
{
    let (d, e) = instrs_step(st, c, b.instrs, b.instrs.len());
    let (f, g) = tail_step(st, d, b.tail);
    (f, later(e, g))
}

/// The end of a body.
pub open spec fn tail_step(st: StateTable, c: CursorView, t: TailView) -> (
    CursorView,
    Option<EventView<u16, u16, u16>>,
)
    decreases t, 0nat,
{
    match t {
        TailView::Jump(s) => (at_state(c, s), None),
        TailView::Ret => (returned(c), None),
        TailView::Star(first, x, cont, head) => if in_first(c, first_seqs(st, first)) {
            body_step(st, pushed(c, head), *x)
        } else {
            (go_on(c, cont), None)
        },
        TailView::Opt(first, x, cont) => if in_first(c, first_seqs(st, first)) {
            body_step(st, calling(c, cont), *x)
        } else {
            (go_on(c, cont), None)
        },
        TailView::Dispatch(tree, sync, cont, l) => tree_step(st, c, tree, sync, cont, l),
    }
}

/// A leaf of a dispatch.
pub open spec fn leaf_step(
    st: StateTable,
    c: CursorView,
    leaf: LeafView,
    sync: u32,
    cont: Option<u32>,
    l: Seq<InsertionView>,
) -> (CursorView, Option<EventView<u16, u16, u16>>)
    decreases leaf, 0nat,
{
    match leaf {
        LeafView::Arm(x) => body_step(st, calling(c, cont), *x),
        LeafView::Fallthrough => (go_on(c, cont), None),
        LeafView::Error => missed(st, c, sync, cont, l),
    }
}

/// The first of the kinds that is the given one; their number if none is.
pub open spec fn arm_for(kinds: Seq<u16>, kind: Option<u16>) -> int
    decreases kinds.len(),
{
    if kinds.len() == 0 {
        0
    } else if kind == Some(kinds[0]) {
        0
    } else {
        1 + arm_for(kinds.skip(1), kind)
    }
}

/// A tree of a dispatch.
pub open spec fn tree_step(
    st: StateTable,
    c: CursorView,
    tree: TreeView,
    sync: u32,
    cont: Option<u32>,
    l: Seq<InsertionView>,
) -> (CursorView, Option<EventView<u16, u16, u16>>)
    decreases tree, 0nat,
{
    match tree {
        TreeView::Leaf(leaf) => leaf_step(st, c, leaf, sync, cont, l),
        TreeView::Switch(depth, kinds, subs, default) => {
            let j = arm_for(kinds, look_kind(c, depth as int));
            if 0 <= j < subs.len() {
                tree_step(st, c, subs[j], sync, cont, l)
            } else {
                leaf_step(st, c, default, sync, cont, l)
            }
        },
    }
}

/// The mode actions of a token kind.
pub open spec fn kind_actions(st: StateTable, kind: Option<u16>) -> Seq<ModeActionInfo> {
    match kind {
        Some(k) => if 0 < k <= st.tokens@.len() {
            st.tokens@[k - 1].mode_actions@
        } else {
            Seq::empty()
        },
        None => Seq::empty(),
    }
}

/// The mode stack after the first `n` actions.
pub open spec fn acted(modes: Seq<u32>, l: Seq<ModeActionInfo>, n: nat) -> Seq<u32>
    decreases n,
{
    if n == 0 || n > l.len() {
        modes
    } else {
        let before = acted(modes, l, (n - 1) as nat);
        match l[n - 1] {
            ModeActionInfo::Push(m) => before.push(m),
            ModeActionInfo::Pop => lexer::popped(before),
        }
    }
}

/// Tokens of the kind are skipped.
pub open spec fn skips(st: StateTable, kind: u16) -> bool {
    0 < kind <= st.tokens@.len() && st.tokens@[kind - 1].skip
}

/// What a [`Parser`] holds: its cursor, and a token that no pattern matched
/// and whose error has been given.
pub ghost struct ParserView {
    pub cursor: CursorView,
    pub garbage: Option<TokenView<u16, u16>>,
}

/// What a turn gives.
pub ghost enum TurnView {
    Event(EventView<u16, u16, u16>),
    Again,
    Done,
}

pub open spec fn turn_of(e: Option<EventView<u16, u16, u16>>) -> TurnView {
    match e {
        Some(x) => TurnView::Event(x),
        None => TurnView::Again,
    }
}

/// A token that was lexed in its place: in the lookahead, unless it is skipped
/// or of no kind.
pub open spec fn placed(
    st: StateTable,
    emit: bool,
    d: CursorView,
    t: TokenView<u16, u16>,
) -> (ParserView, TurnView) {
    match t.kind {
        None => (
            ParserView { cursor: d, garbage: Some(t) },
            TurnView::Event(
                EventView::Error(ErrorView { message: "unexpected character"@, span: t.span }),
            ),
        ),
        Some(k) => if skips(st, k) {
            (
                ParserView { cursor: d, garbage: None },
                if emit {
                    TurnView::Event(EventView::Token(t))
                } else {
                    TurnView::Again
                },
            )
        } else {
            (
                ParserView { cursor: CursorView { look: d.look.push(t), ..d }, garbage: None },
                TurnView::Again,
            )
        },
    }
}

/// A turn that fills a slot of the lookahead.
pub open spec fn fill_turn(st: StateTable, m: TableMatcher, emit: bool, c: CursorView) -> (
    ParserView,
    TurnView,
) {
    let t = lexer::next_lexed(m, c.lex);
    let lex = lexer::after_lexed(m, c.lex);
    let l = kind_actions(st, t.kind);
    let d = CursorView { lex: ScanView { modes: acted(lex.modes, l, l.len()), ..lex }, ..c };
    placed(st, emit, d, t)
}

/// A turn of recovery.
pub open spec fn recovery_turn(c: CursorView, sync: Seq<u16>, expected: Option<u16>) -> (
    CursorView,
    TurnView,
) {
    let kind = look_kind(c, 0);
    if kind == Some(TOKEN_EOF) || kind is Some && sync.contains(kind->0) {
        let d = CursorView { recovery: None, ..c };
        if expected == kind {
            (taken(d), TurnView::Event(EventView::Token(c.look[0])))
        } else {
            (d, TurnView::Again)
        }
    } else {
        (taken(c), TurnView::Event(EventView::Garbage(c.look[0])))
    }
}

/// A turn at the end of the entry rule.
pub open spec fn end_turn(c: CursorView) -> (CursorView, TurnView) {
    if look_kind(c, 0) == Some(TOKEN_EOF) {
        (c, TurnView::Done)
    } else {
        (
            armed(c, Seq::empty(), None),
            TurnView::Event(error_event(c, "expected end of input"@)),
        )
    }
}

/// A step of a parser whose lookahead is full.
pub open spec fn driven(st: StateTable, c: CursorView) -> (CursorView, TurnView) {
    match c.recovery {
        Some(r) => recovery_turn(c, r.0, r.1),
        None => if c.state == TERMINATED {
            end_turn(c)
        } else {
            match table::body_of(st.states@, c.state) {
                Some(b) => {
                    let (d, e) = body_step(st, c, b);
                    (d, turn_of(e))
                },
                None => (at_state(c, TERMINATED), TurnView::Again),
            }
        },
    }
}

/// A turn of the parser.
pub open spec fn turn(st: StateTable, m: TableMatcher, emit: bool, p: ParserView) -> (
    ParserView,
    TurnView,
) {
    let c = p.cursor;
    match p.garbage {
        Some(t) => (
            ParserView { garbage: None, ..p },
            TurnView::Event(EventView::Garbage(t)),
        ),
        None => if c.look.len() < st.k {
            fill_turn(st, m, emit, c)
        } else {
            let (d, t) = driven(st, c);
            (ParserView { cursor: d, garbage: None }, t)
        },
    }
}

/// The events of the first `n` turns.
pub open spec fn events_within(
    st: StateTable,
    m: TableMatcher,
    emit: bool,
    p: ParserView,
    n: nat,
) -> Seq<EventView<u16, u16, u16>>
    decreases n,
{
    if n == 0 {
        Seq::empty()
    } else {
        let (q, t) = turn(st, m, emit, p);
        match t {
            TurnView::Event(e) => seq![e] + events_within(st, m, emit, q, (n - 1) as nat),
            TurnView::Again => events_within(st, m, emit, q, (n - 1) as nat),
            TurnView::Done => Seq::empty(),
        }
    }
}

/// The next turn that does not ask for another one, among the next `n` turns,
/// and what is left behind it. If there is none, another turn is needed still.
pub open spec fn next_within(
    st: StateTable,
    m: TableMatcher,
    emit: bool,
    p: ParserView,
    n: nat,
) -> (ParserView, TurnView)
    decreases n,
{
    if n == 0 {
        (p, TurnView::Again)
    } else {
        let (q, t) = turn(st, m, emit, p);
        if t is Again {
            next_within(st, m, emit, q, (n - 1) as nat)
        } else {
            (q, t)
        }
    }
}

/// A parser at the beginning of a text.
pub open spec fn started(src: Seq<char>, entry: u32) -> ParserView {
    ParserView {
        cursor: CursorView {
            lex: ScanView { buf: vstd::utf8::encode_utf8(src), pos: 0, modes: seq![0u32] },
            look: Seq::empty(),
            prev_end: Pos { offset: 0, line: 0, column: 0 },
            state: entry,
            ret: Seq::empty(),
            recovery: None,
        },
        garbage: None,
    }
}

/// What a turn gives.
#[derive(Debug)]
pub enum Turn {
    /// The next event.
    Event(RawEvent),
    /// No event: another turn is needed.
    Again,
    /// The parse is over.
    Done,
}

impl Turn {
    /// What the turn gives.
    pub open spec fn view(self) -> TurnView {
        match self {
            Turn::Event(e) => TurnView::Event(e@),
            Turn::Again => TurnView::Again,
            Turn::Done => TurnView::Done,
        }
    }
}

/// What the token says, if there is one.
pub open spec fn token_view(t: Option<RawToken>) -> Option<TokenView<u16, u16>> {
    match t {
        Some(x) => Some(x@),
        None => None,
    }
}

/// The pull parser of a lowered grammar.
pub struct Parser<'t, C: ParserConfig> {
    cursor: Cursor<Scanner<TableMatcher<'t>>>,
    garbage: Option<RawToken>,
    table: &'t StateTable,
    config: C,
}

impl<'t, C: ParserConfig> Parser<'t, C> {
    /// What the parser holds.
    pub closed spec fn view(self) -> ParserView {
        ParserView {
            cursor: self.cursor@,
            garbage: token_view(self.garbage),
        }
    }

    /// The table.
    pub closed spec fn program(self) -> StateTable {
        *self.table
    }

    /// The matcher of the lexer.
    pub closed spec fn dfa(self) -> TableMatcher<'t> {
        TableMatcher { modes: &self.table.modes }
    }

    /// The table can be run.
    pub closed spec fn wf(self) -> bool {
        &&& self.cursor.wf()
        &&& self.cursor.fixed().0 == self.table.modes
        &&& self.table.k >= 1
        &&& self.table.states.wf()
    }

    /// Build a parser of the table over `src` that starts at the state
    /// `entry`.
    pub fn new(table: &'t StateTable, src: &str, entry: u32, config: C) -> (r: Self)
        requires
            table.k >= 1,
            table.states.wf(),
            lexer::modes_ok(table.modes@),
            vstd::utf8::encode_utf8(src@).len() < u32::MAX - 1,
        ensures
            r.wf(),
            r.program() == *table,
            r.dfa().modes == table.modes,
            r@ == started(src@, entry),
    {
        let matcher = TableMatcher { modes: &table.modes };
        let lex = Scanner::new(src, matcher);
        let cursor = Cursor {
            lex,
            look: Vec::new(),
            prev_end: Pos::default(),
            state: entry,
            ret_stack: Vec::new(),
            recovery: None,
        };
        let r = Parser { cursor, garbage: None, table, config };
        assert(r@.cursor.look =~= Seq::empty());
        assert(r@.cursor.ret =~= Seq::empty());
        r
    }
}

fn show_kind(st: &StateTable, kind: u16) -> (r: String)
    ensures
        r@ == shown_kind(*st, kind),
{
    if kind == TOKEN_EOF {
        return "EOF".to_owned();
    }
    let i = kind as usize - 1;
    if i < st.tokens.len() {
        st.tokens[i].display_name.clone()
    } else {
        "?".to_owned()
    }
}

/// What is said when one of several tokens is missing.
pub fn expected_message(st: &StateTable, kinds: &Vec<u16>) -> (r: String)
    ensures
        r@ == expected_text(*st, kinds@),
{
    let ghost want = Seq::new(kinds@.len(), |i: int| shown_kind(*st, kinds@[i]));
    let mut parts: Vec<String> = Vec::new();
    let mut i: usize = 0;
    while i < kinds.len()
        invariant
            i <= kinds@.len(),
            want == Seq::new(kinds@.len(), |i: int| shown_kind(*st, kinds@[i])),
            parts@.len() == i,
            forall|m: int| 0 <= m < i ==> (#[trigger] parts@[m])@ == want[m],
        decreases kinds@.len() - i,
    {
        parts.push(show_kind(st, kinds[i]));
        i += 1;
    }
    assert(names::list_view(parts@) =~= want);
    let list = text::join(&parts, " | ");
    let mut r = "expected ".to_owned();
    r.append(list.as_str());
    r
}

/// The SYNC set, or an empty one.
fn sync_of(st: &StateTable, id: u32) -> (r: Vec<u16>)
    ensures
        r@ == sync_kinds(*st, id),
{
    if (id as usize) < st.sync_sets.len() {
        sorting::clone_kinds(&st.sync_sets[id as usize].kinds)
    } else {
        Vec::new()
    }
}

fn opens<L: LexSource>(st: &StateTable, c: &Cursor<L>, first: u32) -> (r: bool)
    ensures
        r == in_first(c@, first_seqs(*st, first)),
{
    if (first as usize) < st.first_sets.len() {
        c.matches_first(&st.first_sets[first as usize].seqs)
    } else {
        false
    }
}

fn run_instr<L: LexSource>(st: &StateTable, c: &mut Cursor<L>, i: &Instr) -> (e: Option<RawEvent>)
    requires
        old(c).wf(),
    ensures
        final(c).wf(),
        final(c).fixed() == old(c).fixed(),
        (final(c)@, opt_view(e)) == instr_step(*st, old(c)@, i@),
{
    match i {
        Instr::Enter(k) => Some(c.enter(*k)),
        Instr::Exit(k) => Some(c.exit(*k)),
        Instr::Expect { kind, token_name, sync, label } => {
            let set = sync_of(st, *sync);
            let mut msg = "expected ".to_owned();
            msg.append(token_name.as_str());
            Some(c.expect_labeled(*kind, &set, msg, *label))
        },
        Instr::PushRet(s) => {
            c.push_ret(*s);
            None
        },
    }
}

/// What the event says, if there is one.
pub open spec fn opt_view(e: Option<RawEvent>) -> Option<EventView<u16, u16, u16>> {
    match e {
        Some(x) => Some(x@),
        None => None,
    }
}

fn later_event(a: Option<RawEvent>, b: Option<RawEvent>) -> (r: Option<RawEvent>)
    ensures
        opt_view(r) == later(opt_view(a), opt_view(b)),
{
    if b.is_some() {
        b
    } else {
        a
    }
}

fn run_go_on<L: LexSource>(c: &mut Cursor<L>, cont: &Option<u32>)
    requires
        old(c).wf(),
    ensures
        final(c).wf(),
        final(c).fixed() == old(c).fixed(),
        final(c)@ == go_on(old(c)@, *cont),
{
    match cont {
        Some(s) => c.set_state(*s),
        None => {
            let s = c.ret();
            c.set_state(s);
        },
    }
}

fn run_calling<L: LexSource>(c: &mut Cursor<L>, cont: &Option<u32>)
    requires
        old(c).wf(),
    ensures
        final(c).wf(),
        final(c).fixed() == old(c).fixed(),
        final(c)@ == calling(old(c)@, *cont),
{
    if let Some(s) = cont {
        c.push_ret(*s);
    }
}

/// The first of the insertions that is for the kind.
fn find_insertion(l: &Vec<Insertion>, kind: Option<u16>) -> (r: usize)
    ensures
        r == insertion_for(recovery::insertions_view(l@), kind),
{
    let ghost lv = recovery::insertions_view(l@);
    let mut i: usize = 0;
    assert(lv.skip(0) =~= lv);
    while i < l.len()
        invariant
            i <= l@.len(),
            lv == recovery::insertions_view(l@),
            insertion_for(lv, kind) == i + insertion_for(lv.skip(i as int), kind),
        decreases l@.len() - i,
    {
        assert(lv.skip(i as int).skip(1) =~= lv.skip(i + 1));
        assert(lv.skip(i as int)[0] == l@[i as int]@);
        if let Some(k) = kind {
            if has_kind(&l[i].kinds_to_match, k) {
                return i;
            }
        }
        i += 1;
    }
    i
}

/// True iff the kind is in the list.
fn has_kind(v: &Vec<u16>, k: u16) -> (r: bool)
    ensures
        r == v@.contains(k),
{
    let mut i: usize = 0;
    while i < v.len()
        invariant
            i <= v@.len(),
            forall|m: int| 0 <= m < i ==> v@[m] != k,
        decreases v@.len() - i,
    {
        if v[i] == k {
            return true;
        }
        i += 1;
    }
    false
}

fn run_missed<L: LexSource>(
    st: &StateTable,
    c: &mut Cursor<L>,
    sync: u32,
    cont: &Option<u32>,
    l: &Vec<Insertion>,
) -> (e: Option<RawEvent>)
    requires
        old(c).wf(),
    ensures
        final(c).wf(),
        final(c).fixed() == old(c).fixed(),
        (final(c)@, opt_view(e)) == missed(
            *st,
            old(c)@,
            sync,
            *cont,
            recovery::insertions_view(l@),
        ),
{
    let i = find_insertion(l, c.kind_at(0));
    if i < l.len() {
        assert(recovery::insertions_view(l@)[i as int] == l@[i as int]@);
        let e = c.error_here(expected_message(st, &l[i].candidate_kinds));
        match l[i].post_first {
            PostFirst::Jump(s) => c.set_state(s),
            PostFirst::PushRetAndJump { push, jump } => {
                c.push_ret(push);
                c.set_state(jump);
            },
            PostFirst::Ret => {
                let s = c.ret();
                c.set_state(s);
            },
        }
        return Some(e);
    }
    let e = c.error_here("unexpected token".to_owned());
    run_go_on(c, cont);
    let set = sync_of(st, sync);
    c.recover_to(&set);
    Some(e)
}

fn run_body<L: LexSource>(st: &StateTable, c: &mut Cursor<L>, b: &Body) -> (e: Option<RawEvent>)
    requires
        old(c).wf(),
    ensures
        final(c).wf(),
        final(c).fixed() == old(c).fixed(),
        (final(c)@, opt_view(e)) == body_step(*st, old(c)@, b@),
    decreases b, 1nat,
{
    let ghost l = table::instrs_view(b.instrs@);
    let ghost start = c@;
    let ghost d = c.fixed();
    let mut e: Option<RawEvent> = None;
    let mut i: usize = 0;
    while i < b.instrs.len()
        invariant
            i <= b.instrs@.len(),
            l == table::instrs_view(b.instrs@),
            c.wf(),
            c.fixed() == d,
            (c@, opt_view(e)) == instrs_step(*st, start, l, i as nat),
        decreases b.instrs@.len() - i,
    {
        assert(l[i as int] == b.instrs@[i as int]@);
        let g = run_instr(st, c, &b.instrs[i]);
        e = later_event(e, g);
        i += 1;
    }
    let g = run_tail(st, c, &b.tail);
    later_event(e, g)
}

fn run_tail<L: LexSource>(st: &StateTable, c: &mut Cursor<L>, t: &Tail) -> (e: Option<RawEvent>)
    requires
        old(c).wf(),
    ensures
        final(c).wf(),
        final(c).fixed() == old(c).fixed(),
        (final(c)@, opt_view(e)) == tail_step(*st, old(c)@, t@),
    decreases t, 0nat,
{
    match t {
        Tail::Jump(s) => {
            c.set_state(*s);
            None
        },
        Tail::Ret => {
            let s = c.ret();
            c.set_state(s);
            None
        },
        Tail::Star { first, body, cont, head } => if opens(st, c, *first) {
            c.push_ret(*head);
            run_body(st, c, body)
        } else {
            run_go_on(c, cont);
            None
        },
        Tail::Opt { first, body, cont } => if opens(st, c, *first) {
            run_calling(c, cont);
            run_body(st, c, body)
        } else {
            run_go_on(c, cont);
            None
        },
        Tail::Dispatch { tree, sync, cont, insertions } => run_tree(
            st,
            c,
            tree,
            *sync,
            cont,
            insertions,
        ),
    }
}

fn run_leaf<L: LexSource>(
    st: &StateTable,
    c: &mut Cursor<L>,
    leaf: &DispatchLeaf,
    sync: u32,
    cont: &Option<u32>,
    l: &Vec<Insertion>,
) -> (e: Option<RawEvent>)
    requires
        old(c).wf(),
    ensures
        final(c).wf(),
        final(c).fixed() == old(c).fixed(),
        (final(c)@, opt_view(e)) == leaf_step(
            *st,
            old(c)@,
            leaf@,
            sync,
            *cont,
            recovery::insertions_view(l@),
        ),
    decreases leaf, 0nat,
{
    match leaf {
        DispatchLeaf::Arm(b) => {
            run_calling(c, cont);
            run_body(st, c, b)
        },
        DispatchLeaf::Fallthrough => {
            run_go_on(c, cont);
            None
        },
        DispatchLeaf::Error => run_missed(st, c, sync, cont, l),
    }
}

/// The first of the arms that is for the kind.
fn find_arm(arms: &Vec<(u16, DispatchTree)>, kind: Option<u16>) -> (r: usize)
    ensures
        r == arm_for(table::arm_kinds(arms@), kind),
        r <= arms@.len(),
{
    let ghost kv = table::arm_kinds(arms@);
    let mut i: usize = 0;
    assert(kv.skip(0) =~= kv);
    while i < arms.len()
        invariant
            i <= arms@.len(),
            kv == table::arm_kinds(arms@),
            arm_for(kv, kind) == i + arm_for(kv.skip(i as int), kind),
        decreases arms@.len() - i,
    {
        assert(kv.skip(i as int).skip(1) =~= kv.skip(i + 1));
        assert(kv.skip(i as int)[0] == arms@[i as int].0);
        if kind == Some(arms[i].0) {
            return i;
        }
        i += 1;
    }
    i
}

fn run_tree<L: LexSource>(
    st: &StateTable,
    c: &mut Cursor<L>,
    tree: &DispatchTree,
    sync: u32,
    cont: &Option<u32>,
    l: &Vec<Insertion>,
) -> (e: Option<RawEvent>)
    requires
        old(c).wf(),
    ensures
        final(c).wf(),
        final(c).fixed() == old(c).fixed(),
        (final(c)@, opt_view(e)) == tree_step(
            *st,
            old(c)@,
            tree@,
            sync,
            *cont,
            recovery::insertions_view(l@),
        ),
    decreases tree, 0nat,
{
    match tree {
        DispatchTree::Leaf(leaf) => run_leaf(st, c, leaf, sync, cont, l),
        DispatchTree::Switch { depth, arms, default } => {
            assert(tree@->Switch_1 == table::arm_kinds(arms@));
            assert(tree@->Switch_2 == table::arm_trees(arms@));
            let kind = c.kind_at(*depth as usize);
            let j = find_arm(arms, kind);
            if j < arms.len() {
                assert(table::arm_trees(arms@)[j as int] == arms@[j as int].1@);
                run_tree(st, c, &arms[j].1, sync, cont, l)
            } else {
                run_leaf(st, c, default, sync, cont, l)
            }
        },
    }
}

impl<L: LexSource> Cursor<L> {
    /// Do the mode actions of a token.
    fn act(&mut self, st: &StateTable, kind: Option<u16>)
        requires
            old(self).wf(),
        ensures
            final(self).wf(),
            final(self).fixed() == old(self).fixed(),
            final(self)@ == (CursorView {
                lex: ScanView {
                    modes: acted(
                        old(self)@.lex.modes,
                        kind_actions(*st, kind),
                        kind_actions(*st, kind).len(),
                    ),
                    ..old(self)@.lex
                },
                ..old(self)@
            }),
    {
        let ghost before = *self;
        let ghost l = kind_actions(*st, kind);
        let ghost lexed = self.lex.scan();
        if let Some(k) = kind {
            if k > 0 && (k as usize) <= st.tokens.len() {
                let actions = &st.tokens[k as usize - 1].mode_actions;
                let mut i: usize = 0;
                while i < actions.len()
                    invariant
                        i <= actions@.len(),
                        l == actions@,
                        self.lex.ready(),
                        self.lex.fixed() == before.lex.fixed(),
                        self.lex.scan() == (ScanView {
                            modes: acted(lexed.modes, l, i as nat),
                            ..lexed
                        }),
                        self.look == before.look,
                        self.prev_end == before.prev_end,
                        self.state == before.state,
                        self.ret_stack == before.ret_stack,
                        self.recovery == before.recovery,
                    decreases actions@.len() - i,
                {
                    match actions[i] {
                        ModeActionInfo::Push(m) => self.lex.enter_mode(m),
                        ModeActionInfo::Pop => self.lex.leave_mode(),
                    }
                    i += 1;
                }
            }
        }
    }

    /// Fill a slot of the lookahead.
    fn put_token(&mut self, t: RawToken)
        requires
            old(self).wf(),
        ensures
            final(self).wf(),
            final(self).fixed() == old(self).fixed(),
            final(self)@ == (CursorView { look: old(self)@.look.push(t@), ..old(self)@ }),
    {
        self.look.push(t);
        assert(self@.look =~= old(self)@.look.push(t@));
    }

    /// One step of recovery.
    fn recover(&mut self) -> (r: Turn)
        requires
            old(self).wf(),
            old(self)@.look.len() > 0,
            old(self)@.recovery is Some,
        ensures
            final(self).wf(),
            final(self).fixed() == old(self).fixed(),
            (final(self)@, r@) == recovery_turn(
                old(self)@,
                (old(self)@.recovery->0).0,
                (old(self)@.recovery->0).1,
            ),
    {
        let kind = self.kind_at(0);
        let mut synced = kind == Some(TOKEN_EOF);
        let mut expected: Option<u16> = None;
        if let Some(r) = &self.recovery {
            expected = r.expected;
            if let Some(k) = kind {
                synced = synced || has_kind(&r.sync, k);
            }
        }
        if synced {
            self.recovery = None;
            if expected == kind {
                return Turn::Event(self.consume());
            }
            return Turn::Again;
        }
        Turn::Event(Event::Garbage(self.take_token()))
    }

    /// At the end of the entry rule.
    fn at_end(&mut self) -> (r: Turn)
        requires
            old(self).wf(),
        ensures
            final(self).wf(),
            final(self).fixed() == old(self).fixed(),
            (final(self)@, r@) == end_turn(old(self)@),
    {
        if self.kind_at(0) == Some(TOKEN_EOF) {
            return Turn::Done;
        }
        let e = self.error_here("expected end of input".to_owned());
        let none: Vec<u16> = Vec::new();
        assert(none@ =~= Seq::<u16>::empty());
        self.arm_recovery(&none, None);
        Turn::Event(e)
    }

    /// Is recovery under way?
    fn recovering(&self) -> (r: bool)
        ensures
            r == (self@.recovery is Some),
    {
        self.recovery.is_some()
    }
}

fn is_skip(st: &StateTable, kind: u16) -> (r: bool)
    ensures
        r == skips(*st, kind),
{
    kind > 0 && (kind as usize) <= st.tokens.len() && st.tokens[kind as usize - 1].skip
}

/// Puts a token that was lexed in its place: in the lookahead, unless it is
/// skipped or of no kind.
fn place_token<L: LexSource>(
    st: &StateTable,
    c: &mut Cursor<L>,
    garbage: &mut Option<RawToken>,
    t: RawToken,
    emit: bool,
) -> (r: Turn)
    requires
        old(c).wf(),
        *old(garbage) is None,
    ensures
        final(c).wf(),
        final(c).fixed() == old(c).fixed(),
        (ParserView { cursor: final(c)@, garbage: token_view(*final(garbage)) }, r@) == placed(
            *st,
            emit,
            old(c)@,
            t@,
        ),
{
    match t.kind {
        None => {
            let span = t.span;
            *garbage = Some(t);
            Turn::Event(Event::Error(Error::new("unexpected character".to_owned()).at(span)))
        },
        Some(k) => {
            if is_skip(st, k) {
                if emit {
                    return Turn::Event(Event::Token(t));
                }
                return Turn::Again;
            }
            c.put_token(t);
            Turn::Again
        },
    }
}

/// A step of a parser whose lookahead is full.
fn drive<L: LexSource>(st: &StateTable, c: &mut Cursor<L>) -> (r: Turn)
    requires
        old(c).wf(),
        old(c)@.look.len() > 0,
        st.states.wf(),
    ensures
        final(c).wf(),
        final(c).fixed() == old(c).fixed(),
        (final(c)@, r@) == driven(*st, old(c)@),
{
    if c.recovering() {
        return c.recover();
    }
    let state = c.state();
    if state == TERMINATED {
        return c.at_end();
    }
    match st.states.get(&state) {
        Some(s) => match run_body(st, c, &s.body) {
            Some(e) => Turn::Event(e),
            None => Turn::Again,
        },
        None => {
            c.set_state(TERMINATED);
            Turn::Again
        },
    }
}

impl<'t, C: ParserConfig> Parser<'t, C> {
    /// A turn that fills a slot of the lookahead.
    fn fill(&mut self) -> (r: Turn)
        requires
            old(self).wf(),
            old(self)@.garbage is None,
        ensures
            final(self).wf(),
            final(self).dfa() == old(self).dfa(),
            final(self).program() == old(self).program(),
            (final(self)@, r@) == fill_turn(
                old(self).program(),
                old(self).dfa(),
                C::emits(),
                old(self)@.cursor,
            ),
    {
        assert(self.cursor.lex.dfa() == self.dfa());
        let t = self.cursor.lex.next_token();
        self.cursor.act(self.table, t.kind);
        place_token(self.table, &mut self.cursor, &mut self.garbage, t, C::emit_skips())
    }

    /// Take one turn.
    pub fn turn(&mut self) -> (r: Turn)
        requires
            old(self).wf(),
        ensures
            final(self).wf(),
            final(self).dfa() == old(self).dfa(),
            final(self).program() == old(self).program(),
            (final(self)@, r@) == turn(
                old(self).program(),
                old(self).dfa(),
                C::emits(),
                old(self)@,
            ),
    {
        if self.garbage.is_some() {
            let mut g: Option<RawToken> = None;
            std::mem::swap(&mut g, &mut self.garbage);
            if let Some(t) = g {
                return Turn::Event(Event::Garbage(t));
            }
        }
        if self.cursor.filled() < self.table.k {
            return self.fill();
        }
        drive(self.table, &mut self.cursor)
    }

    /// The next event, or that the parse is over, if up to `limit` turns come
    /// to that.
    pub fn next_event(&mut self, limit: usize) -> (r: Turn)
        requires
            old(self).wf(),
        ensures
            final(self).wf(),
            final(self).dfa() == old(self).dfa(),
            final(self).program() == old(self).program(),
            (final(self)@, r@) == next_within(
                old(self).program(),
                old(self).dfa(),
                C::emits(),
                old(self)@,
                limit as nat,
            ),
    {
        let ghost st = self.program();
        let ghost m = self.dfa();
        let mut left = limit;
        while left > 0
            invariant
                self.wf(),
                st == old(self).program(),
                m == old(self).dfa(),
                self.program() == st,
                self.dfa() == m,
                next_within(st, m, C::emits(), old(self)@, limit as nat) == next_within(
                    st,
                    m,
                    C::emits(),
                    self@,
                    left as nat,
                ),
            decreases left,
        {
            left -= 1;
            match self.turn() {
                Turn::Again => {},
                t => {
                    return t;
                },
            }
        }
        Turn::Again
    }

    /// The events of up to `limit` turns.
    pub fn events(&mut self, limit: usize) -> (r: Vec<RawEvent>)
        requires
            old(self).wf(),
        ensures
            final(self).wf(),
            final(self).dfa() == old(self).dfa(),
            final(self).program() == old(self).program(),
            final(self)@ == laws::after_turns(
                old(self).program(),
                old(self).dfa(),
                C::emits(),
                old(self)@,
                limit as nat,
            ),
            events::events_view(r@) == events_within(
                old(self).program(),
                old(self).dfa(),
                C::emits(),
                old(self)@,
                limit as nat,
            ),
    {
        let ghost st = self.program();
        let ghost m = self.dfa();
        let ghost start = self@;
        let mut out: Vec<RawEvent> = Vec::new();
        let mut left = limit;
        assert(events::events_view(out@) =~= Seq::empty());
        assert(events_within(st, m, C::emits(), start, limit as nat) =~= events::events_view(out@)
            + events_within(st, m, C::emits(), self@, left as nat));
        while left > 0
            invariant
                self.wf(),
                st == old(self).program(),
                m == old(self).dfa(),
                start == old(self)@,
                self.program() == st,
                self.dfa() == m,
                events_within(st, m, C::emits(), start, limit as nat) == events::events_view(out@)
                    + events_within(st, m, C::emits(), self@, left as nat),
                laws::after_turns(st, m, C::emits(), start, limit as nat) == laws::after_turns(
                    st,
                    m,
                    C::emits(),
                    self@,
                    left as nat,
                ),
            decreases left,
        {
            let ghost before = events::events_view(out@);
            left -= 1;
            match self.turn() {
                Turn::Event(e) => {
                    let ghost ev = e@;
                    out.push(e);
                    assert(events::events_view(out@) =~= before.push(ev));
                    assert(before + (seq![ev] + events_within(st, m, C::emits(), self@, left as nat))
                        =~= before.push(ev) + events_within(st, m, C::emits(), self@, left as nat));
                },
                Turn::Again => {},
                Turn::Done => {
                    assert(before + Seq::<EventView<u16, u16, u16>>::empty() =~= before);
                    proof {
                        laws::lemma_over_stays(st, m, C::emits(), self@, left as nat);
                    }
                    return out;
                },
            }
        }
        assert(events::events_view(out@) + Seq::<EventView<u16, u16, u16>>::empty()
            =~= events::events_view(out@));
        out
    }
}

/// What a turn of a [`FedParser`] gives.
#[derive(Debug)]
pub enum FedTurn {
    /// The next event.
    Event(RawEvent),
    /// No event: another turn is needed.
    Again,
    /// More bytes are needed first.
    More,
    /// The parse is over.
    Done,
}

impl FedTurn {
    /// What the turn gives, if it was taken.
    pub open spec fn view(self) -> Option<TurnView> {
        match self {
            FedTurn::Event(e) => Some(TurnView::Event(e@)),
            FedTurn::Again => Some(TurnView::Again),
            FedTurn::More => None,
            FedTurn::Done => Some(TurnView::Done),
        }
    }
}

/// The stream that the cursor reads from, of which all is there with `eof`.
pub open spec fn stream_of(c: CursorView, eof: bool) -> StreamView {
    StreamView { got: c.lex.buf, pos: c.lex.pos, modes: c.lex.modes, eof }
}

/// A token is to be lexed, and more bytes are needed before it is certain.
pub open spec fn hungry(st: StateTable, m: TableMatcher, p: ParserView, eof: bool) -> bool {
    &&& p.garbage is None
    &&& p.cursor.look.len() < st.k
    &&& lexer::needs_more(m, stream_of(p.cursor, eof))
}

/// The parser when more of the text is there.
pub open spec fn fed(p: ParserView, more: Seq<u8>) -> ParserView {
    let c = p.cursor;
    ParserView {
        cursor: CursorView { lex: ScanView { buf: c.lex.buf + more, ..c.lex }, ..c },
        ..p
    }
}

/// The pull parser of a lowered grammar over a text that comes in pieces.
///
/// Whoever reads the input feeds it: [`FedParser::feed`] with bytes that have
/// arrived, and [`FedParser::finish`] when there are no more. What is behind is
/// not kept.
pub struct FedParser<'t, C: ParserConfig> {
    cursor: Cursor<StreamingLexer<TableMatcher<'t>>>,
    garbage: Option<RawToken>,
    table: &'t StateTable,
    config: C,
}

impl<'t, C: ParserConfig> FedParser<'t, C> {
    /// What the parser holds. The text is what has arrived so far.
    pub closed spec fn view(self) -> ParserView {
        ParserView { cursor: self.cursor@, garbage: token_view(self.garbage) }
    }

    /// The table.
    pub closed spec fn program(self) -> StateTable {
        *self.table
    }

    /// The matcher of the lexer.
    pub closed spec fn dfa(self) -> TableMatcher<'t> {
        TableMatcher { modes: &self.table.modes }
    }

    /// All of the text has arrived.
    pub closed spec fn finished(self) -> bool {
        self.cursor.fixed().1
    }

    /// The table can be run.
    pub closed spec fn wf(self) -> bool {
        &&& self.cursor.wf()
        &&& self.cursor.fixed().0 == self.table.modes
        &&& self.table.k >= 1
        &&& self.table.states.wf()
    }

    /// Build a parser of the table that has got nothing yet and starts at the
    /// state `entry`.
    pub fn new(table: &'t StateTable, entry: u32, config: C) -> (r: Self)
        requires
            table.k >= 1,
            table.states.wf(),
            lexer::modes_ok(table.modes@),
        ensures
            r.wf(),
            !r.finished(),
            r.program() == *table,
            r.dfa().modes == table.modes,
            r@ == started(Seq::empty(), entry),
    {
        let matcher = TableMatcher { modes: &table.modes };
        let cursor = Cursor {
            lex: StreamingLexer::new(matcher),
            look: Vec::new(),
            prev_end: Pos::default(),
            state: entry,
            ret_stack: Vec::new(),
            recovery: None,
        };
        let r = FedParser { cursor, garbage: None, table, config };
        assert(r@.cursor.look =~= Seq::empty());
        assert(r@.cursor.ret =~= Seq::empty());
        assert(vstd::utf8::encode_utf8(Seq::<char>::empty()) =~= Seq::<u8>::empty());
        r
    }

    /// Take in bytes that have arrived.
    ///
    /// The text is shorter than 4 GiB: positions have 32 bits.
    pub fn feed(&mut self, chunk: &Vec<u8>)
        requires
            old(self).wf(),
            !old(self).finished(),
            old(self)@.cursor.lex.buf.len() + chunk@.len() < u32::MAX - 1,
        ensures
            final(self).wf(),
            !final(self).finished(),
            final(self).dfa() == old(self).dfa(),
            final(self).program() == old(self).program(),
            final(self)@ == fed(old(self)@, chunk@),
    {
        self.cursor.lex.feed(chunk);
    }

    /// There are no more bytes.
    pub fn finish(&mut self)
        requires
            old(self).wf(),
        ensures
            final(self).wf(),
            final(self).finished(),
            final(self).dfa() == old(self).dfa(),
            final(self).program() == old(self).program(),
            final(self)@ == old(self)@,
    {
        self.cursor.lex.finish();
    }

    /// Take one turn, or ask for more bytes. A turn is that of a [`Parser`] over
    /// what has arrived.
    pub fn turn(&mut self) -> (r: FedTurn)
        requires
            old(self).wf(),
        ensures
            final(self).wf(),
            final(self).finished() == old(self).finished(),
            final(self).dfa() == old(self).dfa(),
            final(self).program() == old(self).program(),
            r is More <==> hungry(
                old(self).program(),
                old(self).dfa(),
                old(self)@,
                old(self).finished(),
            ),
            r is More ==> final(self)@ == old(self)@,
            !(r is More) ==> (final(self)@, r@->0) == turn(
                old(self).program(),
                old(self).dfa(),
                C::emits(),
                old(self)@,
            ),
    {
        if self.garbage.is_some() {
            let mut g: Option<RawToken> = None;
            std::mem::swap(&mut g, &mut self.garbage);
            if let Some(t) = g {
                return FedTurn::Event(Event::Garbage(t));
            }
        }
        let r = if self.cursor.filled() < self.table.k {
            assert(self.cursor.lex.dfa() == self.dfa());
            assert(self.cursor.lex@ == stream_of(self.cursor@, self.finished()));
            match self.cursor.lex.next_token() {
                Pull::More => {
                    return FedTurn::More;
                },
                Pull::Token(t) => {
                    self.cursor.act(self.table, t.kind);
                    place_token(self.table, &mut self.cursor, &mut self.garbage, t, C::emit_skips())
                },
            }
        } else {
            drive(self.table, &mut self.cursor)
        };
        match r {
            Turn::Event(e) => FedTurn::Event(e),
            Turn::Again => FedTurn::Again,
            Turn::Done => FedTurn::Done,
        }
    }
}

} // verus!
