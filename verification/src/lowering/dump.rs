//! Readable dump of a state table.
//!
//! First the pool of FIRST sets and that of SYNC sets, then each state: its id
//! and label, and below, indented, what its body does. The dump is a list of
//! lines of [`DumpSpan`]s, so that it can be shown in colour.
use vstd::prelude::*;

use crate::lowering::table::{
    self, Body, BodyView, DispatchLeaf, DispatchTree, Instr, InstrView, LeafView, ModeActionInfo,
    StateId, StateTable, StateView, Tail, TailView, TreeView,
};
use crate::names;
use crate::runtime::events::TOKEN_EOF;
use crate::sorting;
use crate::text;

verus! {

/// One fragment of a line.
#[derive(Debug)]
pub struct DumpSpan {
    /// What the fragment is.
    pub kind: DumpSpanKind,
    /// The fragment.
    pub text: String,
}

/// What a fragment is.
#[derive(Clone, Copy, Debug, PartialEq, Eq, Structural)]
pub enum DumpSpanKind {
    /// Whitespace and other filler.
    Plain,
    /// Punctuation.
    Punct,
    /// Reserved words.
    Keyword,
    /// Rule names and state labels.
    Rule,
    /// Token names.
    Token,
    /// Label names.
    Label,
    /// Numbers.
    Number,
    /// Annotations.
    Comment,
}

/// What a [`DumpSpan`] says.
pub ghost struct SpanView {
    pub kind: DumpSpanKind,
    pub text: Seq<char>,
}

impl DumpSpan {
    /// What the span says.
    pub open spec fn view(self) -> SpanView {
        SpanView { kind: self.kind, text: self.text@ }
    }
}

/// What a line says.
pub open spec fn line_view(v: Seq<DumpSpan>) -> Seq<SpanView> {
    Seq::new(v.len(), |i: int| v[i]@)
}

/// What the lines say.
pub open spec fn lines_view(v: Seq<Vec<DumpSpan>>) -> Seq<Seq<SpanView>> {
    Seq::new(v.len(), |i: int| line_view(v[i]@))
}

/// The lines so far and the line that is being written.
pub ghost struct DumpView {
    pub lines: Seq<Seq<SpanView>>,
    pub cur: Seq<SpanView>,
}

/// Nothing yet.
pub open spec fn blank() -> DumpView {
    DumpView { lines: Seq::empty(), cur: Seq::empty() }
}

/// With a fragment more. Fragments of one kind in a row are one.
pub open spec fn put(b: DumpView, kind: DumpSpanKind, t: Seq<char>) -> DumpView {
    if t.len() == 0 {
        b
    } else if b.cur.len() > 0 && b.cur.last().kind == kind {
        DumpView {
            lines: b.lines,
            cur: b.cur.drop_last().push(SpanView { kind, text: b.cur.last().text + t }),
        }
    } else {
        DumpView { lines: b.lines, cur: b.cur.push(SpanView { kind, text: t }) }
    }
}

pub open spec fn plain(b: DumpView, t: Seq<char>) -> DumpView {
    put(b, DumpSpanKind::Plain, t)
}

pub open spec fn punct(b: DumpView, t: Seq<char>) -> DumpView {
    put(b, DumpSpanKind::Punct, t)
}

pub open spec fn kw(b: DumpView, t: Seq<char>) -> DumpView {
    put(b, DumpSpanKind::Keyword, t)
}

pub open spec fn rule(b: DumpView, t: Seq<char>) -> DumpView {
    put(b, DumpSpanKind::Rule, t)
}

pub open spec fn token(b: DumpView, t: Seq<char>) -> DumpView {
    put(b, DumpSpanKind::Token, t)
}

pub open spec fn label(b: DumpView, t: Seq<char>) -> DumpView {
    put(b, DumpSpanKind::Label, t)
}

pub open spec fn num(b: DumpView, t: Seq<char>) -> DumpView {
    put(b, DumpSpanKind::Number, t)
}

pub open spec fn comment(b: DumpView, t: Seq<char>) -> DumpView {
    put(b, DumpSpanKind::Comment, t)
}

/// With the line ended.
pub open spec fn newline(b: DumpView) -> DumpView {
    DumpView { lines: b.lines.push(b.cur), cur: Seq::empty() }
}

/// The lines, with the last one ended if it has anything.
pub open spec fn finished(b: DumpView) -> Seq<Seq<SpanView>> {
    if b.cur.len() > 0 {
        b.lines.push(b.cur)
    } else {
        b.lines
    }
}

/// Collects fragments into lines.
#[derive(Debug)]
pub struct SpanBuilder {
    lines: Vec<Vec<DumpSpan>>,
    cur: Vec<DumpSpan>,
}

impl SpanBuilder {
    /// What has been written.
    pub closed spec fn view(self) -> DumpView {
        DumpView { lines: lines_view(self.lines@), cur: line_view(self.cur@) }
    }

    /// Nothing yet.
    pub fn new() -> (r: Self)
        ensures
            r@ == blank(),
    {
        let r = SpanBuilder { lines: Vec::new(), cur: Vec::new() };
        assert(r@.lines =~= blank().lines);
        assert(r@.cur =~= blank().cur);
        r
    }

    fn push(&mut self, kind: DumpSpanKind, t: &str)
        ensures
            final(self)@ == put(old(self)@, kind, t@),
    {
        if text::is_empty(t) {
            return;
        }
        let ghost before = self@;
        let n = self.cur.len();
        if n > 0 && self.cur[n - 1].kind == kind {
            let mut s = self.cur[n - 1].text.clone();
            s.append(t);
            self.cur.set(n - 1, DumpSpan { kind, text: s });
            assert(self@.cur =~= put(before, kind, t@).cur);
        } else {
            self.cur.push(DumpSpan { kind, text: t.to_owned() });
            assert(self@.cur =~= put(before, kind, t@).cur);
        }
    }

    /// Appends filler.
    pub fn plain(&mut self, t: &str)
        ensures
            final(self)@ == plain(old(self)@, t@),
    {
        self.push(DumpSpanKind::Plain, t);
    }

    /// Appends punctuation.
    pub fn punct(&mut self, t: &str)
        ensures
            final(self)@ == punct(old(self)@, t@),
    {
        self.push(DumpSpanKind::Punct, t);
    }

    /// Appends a reserved word.
    pub fn kw(&mut self, t: &str)
        ensures
            final(self)@ == kw(old(self)@, t@),
    {
        self.push(DumpSpanKind::Keyword, t);
    }

    /// Appends a rule name or a state label.
    pub fn rule(&mut self, t: &str)
        ensures
            final(self)@ == rule(old(self)@, t@),
    {
        self.push(DumpSpanKind::Rule, t);
    }

    /// Appends a token name.
    pub fn token(&mut self, t: &str)
        ensures
            final(self)@ == token(old(self)@, t@),
    {
        self.push(DumpSpanKind::Token, t);
    }

    /// Appends a label name.
    pub fn label(&mut self, t: &str)
        ensures
            final(self)@ == label(old(self)@, t@),
    {
        self.push(DumpSpanKind::Label, t);
    }

    /// Appends a number.
    pub fn num(&mut self, t: &str)
        ensures
            final(self)@ == num(old(self)@, t@),
    {
        self.push(DumpSpanKind::Number, t);
    }

    /// Appends an annotation.
    pub fn comment(&mut self, t: &str)
        ensures
            final(self)@ == comment(old(self)@, t@),
    {
        self.push(DumpSpanKind::Comment, t);
    }

    /// Ends the line.
    pub fn newline(&mut self)
        ensures
            final(self)@ == newline(old(self)@),
    {
        let ghost before = self@;
        let mut line: Vec<DumpSpan> = Vec::new();
        std::mem::swap(&mut line, &mut self.cur);
        self.lines.push(line);
        assert(self@.lines =~= before.lines.push(before.cur));
        assert(self@.cur =~= Seq::<SpanView>::empty());
    }

    /// The lines.
    pub fn finish(self) -> (r: Vec<Vec<DumpSpan>>)
        ensures
            lines_view(r@) == finished(self@),
    {
        let ghost before = self@;
        let mut b = self;
        if b.cur.len() > 0 {
            b.newline();
            assert(b@.lines == before.lines.push(before.cur));
        }
        b.lines
    }
}

impl Default for SpanBuilder {
    fn default() -> (r: Self)
        ensures
            r@ == blank(),
    {
        SpanBuilder::new()
    }
}

/// The text of the first `n` fragments of a line.
pub open spec fn line_text(line: Seq<SpanView>, n: nat) -> Seq<char>
    decreases n,
{
    if n == 0 || n > line.len() {
        Seq::empty()
    } else {
        line_text(line, (n - 1) as nat) + line[n - 1].text
    }
}

/// A call of a [`SpanBuilder`].
pub ghost enum SpanCall {
    Put(DumpSpanKind, Seq<char>),
    Newline,
}

/// What the calls come to, in order.
pub open spec fn written(calls: Seq<SpanCall>) -> DumpView
    decreases calls.len(),
{
    if calls.len() == 0 {
        blank()
    } else {
        let before = written(calls.drop_last());
        match calls.last() {
            SpanCall::Put(kind, t) => put(before, kind, t),
            SpanCall::Newline => newline(before),
        }
    }
}

/// The text that was put into each ended line, and into the last.
pub open spec fn typed(calls: Seq<SpanCall>) -> (Seq<Seq<char>>, Seq<char>)
    decreases calls.len(),
{
    if calls.len() == 0 {
        (Seq::empty(), Seq::empty())
    } else {
        let (lines, cur) = typed(calls.drop_last());
        match calls.last() {
            SpanCall::Put(_, t) => (lines, cur + t),
            SpanCall::Newline => (lines.push(cur), Seq::empty()),
        }
    }
}

/// No fragment of the line is empty, and no two neighbours are of one kind.
pub open spec fn tidy(line: Seq<SpanView>) -> bool {
    &&& forall|i: int| 0 <= i < line.len() ==> (#[trigger] line[i]).text.len() > 0
    &&& forall|i: int, j: int|
        0 <= i && j == i + 1 && j < line.len() ==> (#[trigger] line[i]).kind != (
        #[trigger] line[j]).kind
}

proof fn lemma_line_text_same(a: Seq<SpanView>, b: Seq<SpanView>, n: nat)
    requires
        n <= a.len(),
        n <= b.len(),
        forall|i: int| 0 <= i < n ==> #[trigger] a[i] == b[i],
    ensures
        line_text(a, n) == line_text(b, n),
    decreases n,
{
    if n > 0 {
        lemma_line_text_same(a, b, (n - 1) as nat);
        assert(a[n - 1] == b[n - 1]);
    }
}

proof fn lemma_put(b: DumpView, kind: DumpSpanKind, t: Seq<char>)
    requires
        tidy(b.cur),
    ensures
        tidy(put(b, kind, t).cur),
        line_text(put(b, kind, t).cur, put(b, kind, t).cur.len()) == line_text(
            b.cur,
            b.cur.len(),
        ) + t,
{
    let old = b.cur;
    let new = put(b, kind, t).cur;
    let text = line_text(old, old.len());
    if t.len() == 0 {
        assert(text + t =~= text);
    } else if old.len() > 0 && old.last().kind == kind {
        let n = (old.len() - 1) as nat;
        lemma_line_text_same(old, new, n);
        assert(line_text(old, n) + (old.last().text + t) =~= text + t);
        assert(new[n as int].kind == old[n as int].kind);
        assert forall|i: int, j: int| 0 <= i && j == i + 1 && j < new.len() implies (
        #[trigger] new[i]).kind != (#[trigger] new[j]).kind by {
            assert(old[i].kind != old[j].kind);
        }
    } else {
        lemma_line_text_same(old, new, old.len());
        assert forall|i: int, j: int| 0 <= i && j == i + 1 && j < new.len() implies (
        #[trigger] new[i]).kind != (#[trigger] new[j]).kind by {
            if j < old.len() {
                assert(old[i].kind != old[j].kind);
            }
        }
    }
}

proof fn lemma_written(calls: Seq<SpanCall>)
    ensures
        ({
            let b = written(calls);
            let (lines, cur) = typed(calls);
            &&& tidy(b.cur)
            &&& line_text(b.cur, b.cur.len()) == cur
            &&& b.lines.len() == lines.len()
            &&& forall|i: int|
                0 <= i < lines.len() ==> tidy(#[trigger] b.lines[i]) && line_text(
                    b.lines[i],
                    b.lines[i].len(),
                ) == lines[i]
        }),
    decreases calls.len(),
{
    if calls.len() > 0 {
        lemma_written(calls.drop_last());
        let before = written(calls.drop_last());
        match calls.last() {
            SpanCall::Put(kind, t) => lemma_put(before, kind, t),
            SpanCall::Newline => {
                let b = newline(before);
                let (lines, _) = typed(calls);
                assert forall|i: int| 0 <= i < lines.len() implies tidy(#[trigger] b.lines[i])
                    && line_text(b.lines[i], b.lines[i].len()) == lines[i] by {
                    if i < before.lines.len() {
                        assert(b.lines[i] == before.lines[i]);
                    }
                }
            },
        }
    }
}

/// Whatever calls a [`SpanBuilder`] got, in the lines that it gives no fragment
/// is empty and no two neighbours are of one kind; each line has the text that
/// was put into it; and the last line is there if it has text.
pub proof fn law_lines_are_tidy(calls: Seq<SpanCall>)
    ensures
        ({
            let out = finished(written(calls));
            let (lines, cur) = typed(calls);
            let all = if cur.len() > 0 {
                lines.push(cur)
            } else {
                lines
            };
            &&& out.len() == all.len()
            &&& forall|i: int|
                0 <= i < out.len() ==> tidy(#[trigger] out[i]) && line_text(out[i], out[i].len())
                    == all[i]
        }),
{
    lemma_written(calls);
    let b = written(calls);
    let (lines, cur) = typed(calls);
    assert(b.cur.len() > 0 <==> cur.len() > 0) by {
        if b.cur.len() > 0 {
            assert(b.cur[b.cur.len() - 1].text.len() > 0);
        }
    }
    let out = finished(b);
    assert forall|i: int| 0 <= i < out.len() implies tidy(#[trigger] out[i]) && line_text(
        out[i],
        out[i].len(),
    ) == (if i < lines.len() {
        lines[i]
    } else {
        cur
    }) by {
        if i < b.lines.len() {
            assert(out[i] == b.lines[i]);
        }
    }
}

/// The text of the first `n` lines, each but the very last with a line break
/// behind it.
pub open spec fn lines_text(lines: Seq<Seq<SpanView>>, n: nat) -> Seq<char>
    decreases n,
{
    if n == 0 || n > lines.len() {
        Seq::empty()
    } else {
        let here = lines_text(lines, (n - 1) as nat) + line_text(lines[n - 1], lines[n - 1].len());
        if n < lines.len() {
            here.push('\n')
        } else {
            here
        }
    }
}

/// The lines as one text, with a line break at its end.
pub fn spans_to_text(lines: &Vec<Vec<DumpSpan>>) -> (r: String)
    ensures
        r@ == lines_text(lines_view(lines@), lines@.len()).push('\n'),
{
    let ghost lv = lines_view(lines@);
    let mut out = String::new();
    let mut i: usize = 0;
    assert(out@ =~= lines_text(lv, 0));
    while i < lines.len()
        invariant
            i <= lines@.len(),
            lv == lines_view(lines@),
            out@ == lines_text(lv, i as nat),
        decreases lines@.len() - i,
    {
        let line = &lines[i];
        let ghost cv = lv[i as int];
        let ghost before = out@;
        assert(cv == line_view(line@));
        let mut j: usize = 0;
        assert(out@ =~= before + line_text(cv, 0));
        while j < line.len()
            invariant
                j <= line@.len(),
                cv == line_view(line@),
                out@ == before + line_text(cv, j as nat),
            decreases line@.len() - j,
        {
            out.append(line[j].text.as_str());
            assert(cv[j as int].text == line@[j as int].text@);
            assert(out@ =~= before + line_text(cv, (j + 1) as nat));
            j += 1;
        }
        if i + 1 < lines.len() {
            out.push('\n');
        }
        i += 1;
    }
    out.push('\n');
    out
}

/// A token kind by its name.
pub open spec fn kind_shown(b: DumpView, st: StateTable, kind: u16) -> DumpView {
    if kind == TOKEN_EOF {
        kw(b, "EOF"@)
    } else if kind as int - 1 < st.tokens@.len() {
        token(b, st.tokens@[kind as int - 1].name@)
    } else {
        plain(b, "?"@)
    }
}

/// A token kind by its name, or by the given one if the kind is unknown.
pub open spec fn kind_or(b: DumpView, st: StateTable, kind: u16, other: Seq<char>) -> DumpView {
    if kind != 0 && kind as int - 1 < st.tokens@.len() {
        token(b, st.tokens@[kind as int - 1].name@)
    } else {
        token(b, other)
    }
}

/// A rule kind by its name.
pub open spec fn rule_shown(b: DumpView, st: StateTable, kind: u16) -> DumpView {
    if kind < st.rule_kinds@.len() {
        rule(b, st.rule_kinds@[kind as int]@)
    } else {
        plain(b, "?"@ + text::decimal(kind as nat))
    }
}

/// The label of the state with the id, if there is one.
pub open spec fn label_of(states: Seq<StateView>, id: u32) -> Option<Seq<char>>
    decreases states.len(),
{
    if states.len() == 0 {
        None
    } else if states.last().id == id {
        Some(states.last().label)
    } else {
        label_of(states.drop_last(), id)
    }
}

/// A state by its label, or by its id if it has none.
pub open spec fn state_shown(b: DumpView, st: StateTable, id: u32) -> DumpView {
    match label_of(st.states@, id) {
        Some(l) => if l.len() > 0 {
            rule(b, l)
        } else {
            num(b, text::decimal(id as nat))
        },
        None => num(b, text::decimal(id as nat)),
    }
}

/// A label by its name.
pub open spec fn label_shown(b: DumpView, st: StateTable, id: u16) -> DumpView {
    if id == 0 {
        plain(b, "?"@)
    } else if id as int - 1 < st.labels@.len() {
        label(b, st.labels@[id as int - 1]@)
    } else {
        plain(b, "?"@ + text::decimal(id as nat))
    }
}

/// The first `n` kinds of a sequence, with blanks between them.
pub open spec fn seq_shown(b: DumpView, st: StateTable, s: Seq<u16>, n: nat) -> DumpView
    decreases n,
{
    if n == 0 || n > s.len() {
        b
    } else {
        let before = seq_shown(b, st, s, (n - 1) as nat);
        kind_shown(
            if n > 1 {
                plain(before, " "@)
            } else {
                before
            },
            st,
            s[n - 1],
        )
    }
}

/// The first `n` sequences, with commas between them.
pub open spec fn seqs_shown(b: DumpView, st: StateTable, l: Seq<Seq<u16>>, n: nat) -> DumpView
    decreases n,
{
    if n == 0 || n > l.len() {
        b
    } else {
        let before = seqs_shown(b, st, l, (n - 1) as nat);
        let sep = if n > 1 {
            plain(punct(before, ","@), " "@)
        } else {
            before
        };
        if l[n - 1].len() == 0 {
            kw(sep, "ε"@)
        } else {
            seq_shown(sep, st, l[n - 1], l[n - 1].len())
        }
    }
}

/// A FIRST set in braces.
pub open spec fn first_shown(b: DumpView, st: StateTable, id: u32) -> DumpView {
    if id < st.first_sets@.len() {
        let l = sorting::seq_set(table::seqs_view(st.first_sets@[id as int].seqs@));
        punct(seqs_shown(punct(b, "{"@), st, l, l.len()), "}"@)
    } else {
        num(b, "FIRST_"@ + text::decimal(id as nat))
    }
}

/// The first `n` kinds, with commas between them.
pub open spec fn kinds_shown(b: DumpView, st: StateTable, l: Seq<u16>, n: nat) -> DumpView
    decreases n,
{
    if n == 0 || n > l.len() {
        b
    } else {
        let before = kinds_shown(b, st, l, (n - 1) as nat);
        kind_shown(
            if n > 1 {
                plain(punct(before, ","@), " "@)
            } else {
                before
            },
            st,
            l[n - 1],
        )
    }
}

/// A SYNC set in braces.
pub open spec fn sync_shown(b: DumpView, st: StateTable, id: u32) -> DumpView {
    if id < st.sync_sets@.len() {
        let l = sorting::kind_set(st.sync_sets@[id as int].kinds@);
        punct(kinds_shown(punct(b, "{"@), st, l, l.len()), "}"@)
    } else {
        num(b, "SYNC_"@ + text::decimal(id as nat))
    }
}

/// An instruction.
pub open spec fn instr_shown(b: DumpView, st: StateTable, i: InstrView) -> DumpView {
    match i {
        InstrView::Enter(k) => rule_shown(plain(kw(b, "Enter"@), " "@), st, k),
        InstrView::Exit(k) => rule_shown(plain(kw(b, "Exit"@), " "@), st, k),
        InstrView::Expect(kind, name, sync, l) => {
            let head = kind_or(plain(kw(b, "Expect"@), " "@), st, kind, name);
            let body = sync_shown(punct(kw(plain(head, " "@), "sync"@), "="@), st, sync);
            match l {
                Some(id) => label_shown(
                    punct(kw(plain(body, " "@), "label"@), "="@),
                    st,
                    id,
                ),
                None => body,
            }
        },
        InstrView::PushRet(s) => state_shown(plain(kw(b, "PushRet"@), " "@), st, s),
    }
}

/// Where a branch goes on.
pub open spec fn cont_shown(b: DumpView, st: StateTable, c: Option<u32>) -> DumpView {
    match c {
        Some(n) => state_shown(punct(kw(b, "cont"@), "="@), st, n),
        None => kw(b, "tail"@),
    }
}

/// The first `n` instructions, a line each.
pub open spec fn instrs_shown(
    b: DumpView,
    st: StateTable,
    l: Seq<InstrView>,
    n: nat,
    indent: Seq<char>,
) -> DumpView
    decreases n,
{
    if n == 0 || n > l.len() {
        b
    } else {
        let before = instrs_shown(b, st, l, (n - 1) as nat, indent);
        newline(instr_shown(plain(before, indent), st, l[n - 1]))
    }
}

/// A body, a line for each instruction and then its end.
pub open spec fn body_shown(
    b: DumpView,
    st: StateTable,
    body: BodyView,
    indent: Seq<char>,
) -> DumpView
    decreases body, 1nat,
{
    tail_shown(
        instrs_shown(b, st, body.instrs, body.instrs.len(), indent),
        st,
        body.tail,
        indent,
    )
}

/// The end of a body.
pub open spec fn tail_shown(
    b: DumpView,
    st: StateTable,
    t: TailView,
    indent: Seq<char>,
) -> DumpView
    decreases t, 0nat,
{
    match t {
        TailView::Jump(n) => newline(
            state_shown(plain(kw(plain(b, indent), "Jump"@), " "@), st, n),
        ),
        TailView::Ret => newline(kw(plain(b, indent), "Ret"@)),
        TailView::Star(first, x, cont, head) => {
            let a = first_shown(plain(kw(plain(b, indent), "Star"@), " "@), st, first);
            let h = state_shown(punct(kw(plain(a, " "@), "head"@), "="@), st, head);
            let line = newline(cont_shown(plain(h, " "@), st, cont));
            body_shown(line, st, *x, indent + "  "@)
        },
        TailView::Opt(first, x, cont) => {
            let a = first_shown(plain(kw(plain(b, indent), "Opt"@), " "@), st, first);
            let line = newline(cont_shown(plain(a, " "@), st, cont));
            body_shown(line, st, *x, indent + "  "@)
        },
        TailView::Dispatch(tree, sync, cont, _) => {
            let a = punct(kw(plain(kw(plain(b, indent), "Dispatch"@), " "@), "sync"@), "="@);
            let line = newline(cont_shown(plain(sync_shown(a, st, sync), " "@), st, cont));
            tree_shown(line, st, tree, indent + "  "@)
        },
    }
}

/// What a leaf does.
pub open spec fn leaf_shown(
    b: DumpView,
    st: StateTable,
    l: LeafView,
    indent: Seq<char>,
) -> DumpView
    decreases l, 0nat,
{
    match l {
        LeafView::Arm(x) => body_shown(newline(punct(b, "->"@)), st, *x, indent + "  "@),
        LeafView::Fallthrough => newline(kw(plain(punct(b, "->"@), " "@), "fall"@)),
        LeafView::Error => newline(kw(plain(punct(b, "->"@), " "@), "error"@)),
    }
}

/// A tree, a line for each branch.
pub open spec fn tree_shown(
    b: DumpView,
    st: StateTable,
    t: TreeView,
    indent: Seq<char>,
) -> DumpView
    decreases t, 0nat,
{
    match t {
        TreeView::Leaf(l) => leaf_shown(plain(b, indent), st, l, indent),
        TreeView::Switch(depth, kinds, subs, default) => {
            let look = num(punct(kw(plain(b, indent), "look"@), "("@), text::decimal(depth as nat));
            let line = newline(punct(punct(look, ")"@), ":"@));
            let inner = indent + "  "@;
            let arms = arms_shown(line, st, kinds, subs, subs.len(), inner);
            leaf_shown(plain(kw(plain(arms, inner), "else"@), " "@), st, default, inner)
        },
    }
}

/// The first `n` branches of a switch.
pub open spec fn arms_shown(
    b: DumpView,
    st: StateTable,
    kinds: Seq<u16>,
    subs: Seq<TreeView>,
    n: nat,
    indent: Seq<char>,
) -> DumpView
    decreases subs, n,
{
    if n == 0 || n > subs.len() {
        b
    } else {
        let before = arms_shown(b, st, kinds, subs, (n - 1) as nat, indent);
        let head = kind_shown(plain(before, indent), st, kinds[n - 1]);
        match subs[n - 1] {
            TreeView::Leaf(l) => leaf_shown(plain(head, " "@), st, l, indent),
            _ => tree_shown(newline(punct(head, ":"@)), st, subs[n - 1], indent + "  "@),
        }
    }
}

/// The name of the entry point at the state; of several, the last.
pub open spec fn entry_name(entries: Seq<(String, StateId)>, id: u32) -> Option<Seq<char>>
    decreases entries.len(),
{
    if entries.len() == 0 {
        None
    } else if entries.last().1 == id {
        Some(entries.last().0@)
    } else {
        entry_name(entries.drop_last(), id)
    }
}

/// How wide the column of ids is.
pub open spec fn id_width(states: Seq<StateView>) -> nat {
    let last: nat = if states.len() > 0 {
        states.last().id as nat
    } else {
        0
    };
    let w = text::decimal(last).len();
    if w > 3 {
        w
    } else {
        3
    }
}

/// A state: its id and label, then its body.
pub open spec fn one_state(b: DumpView, st: StateTable, s: StateView) -> DumpView {
    let w = id_width(st.states@);
    let indent = text::blanks(w) + "      "@;
    let id = text::padded_left(text::decimal(s.id as nat), w);
    let head = rule(plain(plain(b, id), "  "@), s.label);
    let line = match entry_name(st.entry_states@, s.id) {
        Some(n) => comment(plain(head, "    "@), "; entry: "@ + n),
        None => head,
    };
    newline(body_shown(newline(line), st, s.body, indent))
}

/// The first `n` states.
pub open spec fn states_shown(b: DumpView, st: StateTable, n: nat) -> DumpView
    decreases n,
{
    if n == 0 || n > st.states@.len() {
        b
    } else {
        one_state(states_shown(b, st, (n - 1) as nat), st, st.states@[n - 1])
    }
}

/// The first `n` FIRST sets, a line each.
pub open spec fn firsts_shown(b: DumpView, st: StateTable, n: nat) -> DumpView
    decreases n,
{
    if n == 0 || n > st.first_sets@.len() {
        b
    } else {
        let before = firsts_shown(b, st, (n - 1) as nat);
        let name = "FIRST_"@ + text::padded_right(text::decimal((n - 1) as nat), 3);
        newline(
            first_shown(plain(num(plain(before, "  "@), name), " "@), st, (n - 1) as u32),
        )
    }
}

/// The first `n` SYNC sets, a line each.
pub open spec fn syncs_shown(b: DumpView, st: StateTable, n: nat) -> DumpView
    decreases n,
{
    if n == 0 || n > st.sync_sets@.len() {
        b
    } else {
        let before = syncs_shown(b, st, (n - 1) as nat);
        let name = "SYNC_"@ + text::padded_right(text::decimal((n - 1) as nat), 3) + " "@;
        newline(
            sync_shown(plain(num(plain(before, "  "@), name), " "@), st, (n - 1) as u32),
        )
    }
}

/// The dump of a table.
pub open spec fn dumped(st: StateTable) -> DumpView {
    let nf = text::decimal(st.first_sets@.len());
    let a = punct(num(punct(kw(blank(), "FIRST-set intern pool "@), "("@), nf), ")"@);
    let firsts = firsts_shown(newline(plain(a, ":"@)), st, st.first_sets@.len());
    let ns = text::decimal(st.sync_sets@.len());
    let c = punct(num(punct(kw(newline(firsts), "SYNC-set intern pool "@), "("@), ns), ")"@);
    let syncs = syncs_shown(newline(plain(c, ":"@)), st, st.sync_sets@.len());
    let n = text::decimal(st.states@.len());
    let d = num(punct(kw(newline(syncs), "State table "@), "("@), n);
    let e = plain(punct(plain(d, " states"@), ")"@), ":"@);
    states_shown(newline(e), st, st.states@.len())
}

fn emit_token_kind(b: &mut SpanBuilder, st: &StateTable, kind: u16)
    ensures
        final(b)@ == kind_shown(old(b)@, *st, kind),
{
    if kind == TOKEN_EOF {
        b.kw("EOF");
        return;
    }
    let i = kind as usize - 1;
    if i < st.tokens.len() {
        b.token(st.tokens[i].name.as_str());
    } else {
        b.plain("?");
    }
}

fn emit_token_kind_fallback(b: &mut SpanBuilder, st: &StateTable, kind: u16, fallback: &str)
    ensures
        final(b)@ == kind_or(old(b)@, *st, kind, fallback@),
{
    if kind == 0 {
        b.token(fallback);
        return;
    }
    let i = kind as usize - 1;
    if i < st.tokens.len() {
        b.token(st.tokens[i].name.as_str());
    } else {
        b.token(fallback);
    }
}

fn unknown(n: u16) -> (r: String)
    ensures
        r@ == "?"@ + text::decimal(n as nat),
{
    let mut r = "?".to_owned();
    text::push_decimal(&mut r, n as u128);
    r
}

fn emit_rule_kind(b: &mut SpanBuilder, st: &StateTable, kind: u16)
    ensures
        final(b)@ == rule_shown(old(b)@, *st, kind),
{
    let i = kind as usize;
    if i < st.rule_kinds.len() {
        b.rule(st.rule_kinds[i].as_str());
    } else {
        b.plain(unknown(kind).as_str());
    }
}

proof fn lemma_label_at(states: Seq<StateView>, i: int)
    requires
        table::ascending(states),
        0 <= i < states.len(),
    ensures
        label_of(states, states[i].id) == Some(states[i].label),
    decreases states.len(),
{
    if i < states.len() - 1 {
        let p = states.drop_last();
        assert(states[i].id < states[states.len() - 1].id);
        assert(p[i] == states[i]);
        assert forall|a: int, b: int| 0 <= a < b < p.len() implies (#[trigger] p[a]).id < (
        #[trigger] p[b]).id by {
            assert(states[a].id < states[b].id);
        }
        lemma_label_at(p, i);
    }
}

proof fn lemma_no_label(states: Seq<StateView>, id: u32)
    requires
        forall|k: int| 0 <= k < states.len() ==> (#[trigger] states[k]).id != id,
    ensures
        label_of(states, id) is None,
    decreases states.len(),
{
    if states.len() > 0 {
        let p = states.drop_last();
        assert(states[states.len() - 1].id != id);
        assert forall|k: int| 0 <= k < p.len() implies (#[trigger] p[k]).id != id by {
            assert(states[k].id != id);
        }
        lemma_no_label(p, id);
    }
}

fn emit_state_ref(b: &mut SpanBuilder, st: &StateTable, id: StateId)
    requires
        st.states.wf(),
    ensures
        final(b)@ == state_shown(old(b)@, *st, id),
{
    match st.states.get(&id) {
        Some(s) => {
            proof {
                let sv = st.states@;
                let i = choose|i: int| 0 <= i < sv.len() && sv[i] == s@;
                lemma_label_at(sv, i);
            }
            if !text::is_empty(s.label.as_str()) {
                b.rule(s.label.as_str());
                return;
            }
        },
        None => {
            proof {
                let sv = st.states@;
                assert forall|k: int| 0 <= k < sv.len() implies (#[trigger] sv[k]).id != id by {}
                lemma_no_label(sv, id);
            }
        },
    }
    b.num(text::decimal_text(id as u128).as_str());
}

fn emit_label(b: &mut SpanBuilder, st: &StateTable, id: u16)
    ensures
        final(b)@ == label_shown(old(b)@, *st, id),
{
    if id == 0 {
        b.plain("?");
        return;
    }
    let i = id as usize - 1;
    if i < st.labels.len() {
        b.label(st.labels[i].as_str());
    } else {
        b.plain(unknown(id).as_str());
    }
}

fn emit_first_pool(b: &mut SpanBuilder, st: &StateTable, id: u32)
    ensures
        final(b)@ == first_shown(old(b)@, *st, id),
{
    let at = id as usize;
    if at >= st.first_sets.len() {
        let mut s = "FIRST_".to_owned();
        text::push_decimal(&mut s, id as u128);
        b.num(s.as_str());
        return;
    }
    b.punct("{");
    let seqs = sorting::sort_seqs(&st.first_sets[at].seqs);
    let ghost l = sorting::lists_view(seqs@);
    let ghost start = b@;
    let mut i: usize = 0;
    while i < seqs.len()
        invariant
            i <= seqs@.len(),
            l == sorting::lists_view(seqs@),
            b@ == seqs_shown(start, *st, l, i as nat),
        decreases seqs@.len() - i,
    {
        if i > 0 {
            b.punct(",");
            b.plain(" ");
        }
        let s = &seqs[i];
        assert(l[i as int] == s@);
        if s.len() == 0 {
            b.kw("ε");
        } else {
            let ghost sep = b@;
            let mut j: usize = 0;
            while j < s.len()
                invariant
                    j <= s@.len(),
                    b@ == seq_shown(sep, *st, s@, j as nat),
                decreases s@.len() - j,
            {
                if j > 0 {
                    b.plain(" ");
                }
                emit_token_kind(b, st, s[j]);
                j += 1;
            }
        }
        i += 1;
    }
    b.punct("}");
}

fn emit_sync_set(b: &mut SpanBuilder, st: &StateTable, id: u32)
    ensures
        final(b)@ == sync_shown(old(b)@, *st, id),
{
    let at = id as usize;
    if at >= st.sync_sets.len() {
        let mut s = "SYNC_".to_owned();
        text::push_decimal(&mut s, id as u128);
        b.num(s.as_str());
        return;
    }
    let kinds = sorting::sort_kinds(&st.sync_sets[at].kinds);
    b.punct("{");
    let ghost start = b@;
    let mut i: usize = 0;
    while i < kinds.len()
        invariant
            i <= kinds@.len(),
            b@ == kinds_shown(start, *st, kinds@, i as nat),
        decreases kinds@.len() - i,
    {
        if i > 0 {
            b.punct(",");
            b.plain(" ");
        }
        emit_token_kind(b, st, kinds[i]);
        i += 1;
    }
    b.punct("}");
}

fn emit_instr(b: &mut SpanBuilder, op: &Instr, st: &StateTable)
    requires
        st.states.wf(),
    ensures
        final(b)@ == instr_shown(old(b)@, *st, op@),
{
    match op {
        Instr::Enter(k) => {
            b.kw("Enter");
            b.plain(" ");
            emit_rule_kind(b, st, *k);
        },
        Instr::Exit(k) => {
            b.kw("Exit");
            b.plain(" ");
            emit_rule_kind(b, st, *k);
        },
        Instr::Expect { kind, token_name, sync, label } => {
            b.kw("Expect");
            b.plain(" ");
            emit_token_kind_fallback(b, st, *kind, token_name.as_str());
            b.plain(" ");
            b.kw("sync");
            b.punct("=");
            emit_sync_set(b, st, *sync);
            if let Some(id) = label {
                b.plain(" ");
                b.kw("label");
                b.punct("=");
                emit_label(b, st, *id);
            }
        },
        Instr::PushRet(r) => {
            b.kw("PushRet");
            b.plain(" ");
            emit_state_ref(b, st, *r);
        },
    }
}

fn emit_cont(b: &mut SpanBuilder, cont: &Option<StateId>, st: &StateTable)
    requires
        st.states.wf(),
    ensures
        final(b)@ == cont_shown(old(b)@, *st, *cont),
{
    match cont {
        Some(n) => {
            b.kw("cont");
            b.punct("=");
            emit_state_ref(b, st, *n);
        },
        None => b.kw("tail"),
    }
}

fn deeper(indent: &str) -> (r: String)
    ensures
        r@ == indent@ + "  "@,
{
    let mut r = indent.to_owned();
    r.append("  ");
    r
}

fn emit_tail(b: &mut SpanBuilder, tail: &Tail, st: &StateTable, indent: &str)
    requires
        st.states.wf(),
    ensures
        final(b)@ == tail_shown(old(b)@, *st, tail@, indent@),
    decreases tail, 0nat,
{
    match tail {
        Tail::Jump(n) => {
            b.plain(indent);
            b.kw("Jump");
            b.plain(" ");
            emit_state_ref(b, st, *n);
            b.newline();
        },
        Tail::Ret => {
            b.plain(indent);
            b.kw("Ret");
            b.newline();
        },
        Tail::Star { first, body, cont, head } => {
            b.plain(indent);
            b.kw("Star");
            b.plain(" ");
            emit_first_pool(b, st, *first);
            b.plain(" ");
            b.kw("head");
            b.punct("=");
            emit_state_ref(b, st, *head);
            b.plain(" ");
            emit_cont(b, cont, st);
            b.newline();
            let inner = deeper(indent);
            emit_body(b, body, st, inner.as_str());
        },
        Tail::Opt { first, body, cont } => {
            b.plain(indent);
            b.kw("Opt");
            b.plain(" ");
            emit_first_pool(b, st, *first);
            b.plain(" ");
            emit_cont(b, cont, st);
            b.newline();
            let inner = deeper(indent);
            emit_body(b, body, st, inner.as_str());
        },
        Tail::Dispatch { tree, sync, cont, insertions: _ } => {
            b.plain(indent);
            b.kw("Dispatch");
            b.plain(" ");
            b.kw("sync");
            b.punct("=");
            emit_sync_set(b, st, *sync);
            b.plain(" ");
            emit_cont(b, cont, st);
            b.newline();
            let inner = deeper(indent);
            emit_dispatch_tree(b, tree, st, inner.as_str());
        },
    }
}

fn emit_body(b: &mut SpanBuilder, body: &Body, st: &StateTable, indent: &str)
    requires
        st.states.wf(),
    ensures
        final(b)@ == body_shown(old(b)@, *st, body@, indent@),
    decreases body, 1nat,
{
    let ghost start = b@;
    let ghost l = table::instrs_view(body.instrs@);
    let mut i: usize = 0;
    while i < body.instrs.len()
        invariant
            i <= body.instrs@.len(),
            st.states.wf(),
            l == table::instrs_view(body.instrs@),
            b@ == instrs_shown(start, *st, l, i as nat, indent@),
        decreases body.instrs@.len() - i,
    {
        assert(l[i as int] == body.instrs@[i as int]@);
        b.plain(indent);
        emit_instr(b, &body.instrs[i], st);
        b.newline();
        i += 1;
    }
    emit_tail(b, &body.tail, st, indent);
}

fn emit_dispatch_leaf_body(b: &mut SpanBuilder, leaf: &DispatchLeaf, st: &StateTable, indent: &str)
    requires
        st.states.wf(),
    ensures
        final(b)@ == leaf_shown(old(b)@, *st, leaf@, indent@),
    decreases leaf, 0nat,
{
    match leaf {
        DispatchLeaf::Arm(body) => {
            b.punct("->");
            b.newline();
            let inner = deeper(indent);
            emit_body(b, body, st, inner.as_str());
        },
        DispatchLeaf::Fallthrough => {
            b.punct("->");
            b.plain(" ");
            b.kw("fall");
            b.newline();
        },
        DispatchLeaf::Error => {
            b.punct("->");
            b.plain(" ");
            b.kw("error");
            b.newline();
        },
    }
}

fn emit_dispatch_tree(b: &mut SpanBuilder, tree: &DispatchTree, st: &StateTable, indent: &str)
    requires
        st.states.wf(),
    ensures
        final(b)@ == tree_shown(old(b)@, *st, tree@, indent@),
    decreases tree, 0nat,
{
    match tree {
        DispatchTree::Leaf(l) => {
            b.plain(indent);
            emit_dispatch_leaf_body(b, l, st, indent);
        },
        DispatchTree::Switch { depth, arms, default } => {
            assert(tree@->Switch_1 == table::arm_kinds(arms@));
            assert(tree@->Switch_2 == table::arm_trees(arms@));
            b.plain(indent);
            b.kw("look");
            b.punct("(");
            b.num(text::decimal_text(*depth as u128).as_str());
            b.punct(")");
            b.punct(":");
            b.newline();
            let inner = deeper(indent);
            emit_arms(b, arms, st, inner.as_str());
            b.plain(inner.as_str());
            b.kw("else");
            b.plain(" ");
            emit_dispatch_leaf_body(b, default, st, inner.as_str());
        },
    }
}

fn emit_arms(b: &mut SpanBuilder, arms: &Vec<(u16, DispatchTree)>, st: &StateTable, indent: &str)
    requires
        st.states.wf(),
    ensures
        final(b)@ == arms_shown(
            old(b)@,
            *st,
            table::arm_kinds(arms@),
            table::arm_trees(arms@),
            arms@.len(),
            indent@,
        ),
    decreases arms, 0nat,
{
    let ghost start = b@;
    let ghost kinds = table::arm_kinds(arms@);
    let ghost subs = table::arm_trees(arms@);
    let mut i: usize = 0;
    while i < arms.len()
        invariant
            i <= arms@.len(),
            st.states.wf(),
            kinds == table::arm_kinds(arms@),
            subs == table::arm_trees(arms@),
            b@ == arms_shown(start, *st, kinds, subs, i as nat, indent@),
        decreases arms@.len() - i,
    {
        assert(subs[i as int] == arms@[i as int].1@);
        b.plain(indent);
        emit_token_kind(b, st, arms[i].0);
        match &arms[i].1 {
            DispatchTree::Leaf(l) => {
                b.plain(" ");
                emit_dispatch_leaf_body(b, l, st, indent);
            },
            sub => {
                b.punct(":");
                b.newline();
                let inner = deeper(indent);
                emit_dispatch_tree(b, sub, st, inner.as_str());
            },
        }
        i += 1;
    }
}

/// The name of the entry point at the state; of several, the last.
fn find_entry(entries: &Vec<(String, StateId)>, id: StateId) -> (r: Option<&String>)
    ensures
        match r {
            Some(n) => entry_name(entries@, id) == Some(n@),
            None => entry_name(entries@, id) is None,
        },
{
    let mut i: usize = entries.len();
    assert(entries@.take(i as int) =~= entries@);
    while i > 0
        invariant
            i <= entries@.len(),
            entry_name(entries@, id) == entry_name(entries@.take(i as int), id),
        decreases i,
    {
        assert(entries@.take(i as int).drop_last() =~= entries@.take(i - 1));
        assert(entries@.take(i as int).last() == entries@[i - 1]);
        if entries[i - 1].1 == id {
            return Some(&entries[i - 1].0);
        }
        i -= 1;
    }
    None
}

/// Render the table as lines of spans.
pub fn lowering_spans(st: &StateTable) -> (r: Vec<Vec<DumpSpan>>)
    requires
        st.states.wf(),
    ensures
        lines_view(r@) == finished(dumped(*st)),
{
    let mut b = SpanBuilder::new();
    b.kw("FIRST-set intern pool ");
    b.punct("(");
    b.num(text::decimal_text(st.first_sets.len() as u128).as_str());
    b.punct(")");
    b.plain(":");
    b.newline();
    let ghost start = b@;
    let mut i: usize = 0;
    while i < st.first_sets.len()
        invariant
            i <= st.first_sets@.len(),
            b@ == firsts_shown(start, *st, i as nat),
        decreases st.first_sets@.len() - i,
    {
        b.plain("  ");
        let mut name = "FIRST_".to_owned();
        let digits = text::decimal_text(i as u128);
        let padded = text::pad_right(digits.as_str(), 3);
        name.append(padded.as_str());
        b.num(name.as_str());
        b.plain(" ");
        emit_first_pool(&mut b, st, #[verifier::truncate] (i as u32));
        b.newline();
        i += 1;
    }
    b.newline();
    b.kw("SYNC-set intern pool ");
    b.punct("(");
    b.num(text::decimal_text(st.sync_sets.len() as u128).as_str());
    b.punct(")");
    b.plain(":");
    b.newline();
    let ghost start = b@;
    let mut j: usize = 0;
    while j < st.sync_sets.len()
        invariant
            j <= st.sync_sets@.len(),
            b@ == syncs_shown(start, *st, j as nat),
        decreases st.sync_sets@.len() - j,
    {
        b.plain("  ");
        let mut name = "SYNC_".to_owned();
        let digits = text::decimal_text(j as u128);
        let padded = text::pad_right(digits.as_str(), 3);
        name.append(padded.as_str());
        name.append(" ");
        b.num(name.as_str());
        b.plain(" ");
        emit_sync_set(&mut b, st, #[verifier::truncate] (j as u32));
        b.newline();
        j += 1;
    }
    b.newline();
    b.kw("State table ");
    b.punct("(");
    b.num(text::decimal_text(st.states.len() as u128).as_str());
    b.plain(" states");
    b.punct(")");
    b.plain(":");
    b.newline();
    let n = st.states.len();
    let last: u32 = if n > 0 {
        st.states.at(n - 1).id
    } else {
        0
    };
    let digits = text::length(text::decimal_text(last as u128).as_str());
    let width = if digits > 3 {
        digits
    } else {
        3
    };
    assert(width == id_width(st.states@));
    let mut indent = String::new();
    text::push_blanks(&mut indent, width);
    assert(indent@ =~= text::blanks(width as nat));
    indent.append("      ");
    let ghost start = b@;
    let mut m: usize = 0;
    while m < n
        invariant
            m <= n,
            n == st.states@.len(),
            st.states.wf(),
            width == id_width(st.states@),
            indent@ == text::blanks(width as nat) + "      "@,
            b@ == states_shown(start, *st, m as nat),
        decreases n - m,
    {
        let s = st.states.at(m);
        let id = text::decimal_text(s.id as u128);
        b.plain(text::pad_left(id.as_str(), width).as_str());
        b.plain("  ");
        b.rule(s.label.as_str());
        if let Some(name) = find_entry(&st.entry_states, s.id) {
            b.plain("    ");
            let mut note = "; entry: ".to_owned();
            note.append(name.as_str());
            b.comment(note.as_str());
        }
        b.newline();
        emit_body(&mut b, &s.body, st, indent.as_str());
        b.newline();
        m += 1;
    }
    b.finish()
}

/// Render the table as text.
pub fn lowering_text(st: &StateTable) -> (r: String)
    requires
        st.states.wf(),
    ensures
        r@ == ({
            let lines = finished(dumped(*st));
            lines_text(lines, lines.len()).push('\n')
        }),
{
    let lines = lowering_spans(st);
    spans_to_text(&lines)
}

/// A mode action in words.
pub open spec fn action_text(st: StateTable, a: ModeActionInfo) -> Seq<char> {
    match a {
        ModeActionInfo::Push(id) => "push("@ + (if id < st.modes@.len() {
            st.modes@[id as int].name@
        } else {
            "?"@
        }) + ")"@,
        ModeActionInfo::Pop => "pop"@,
    }
}

/// The mode actions of a token kind, behind an arrow; nothing if it has none.
pub open spec fn actions_text(st: StateTable, kind: u16) -> Seq<char> {
    let i = kind as int - 1;
    if 0 <= i < st.tokens@.len() && st.tokens@[i].mode_actions@.len() > 0 {
        let actions = st.tokens@[i].mode_actions@;
        " → "@ + text::joined(
            Seq::new(actions.len(), |j: int| action_text(st, actions[j])),
            ", "@,
        )
    } else {
        Seq::empty()
    }
}

/// The mode actions of a token kind in words.
pub fn mode_actions_suffix(st: &StateTable, kind: u16) -> (r: String)
    requires
        kind > 0,
    ensures
        r@ == actions_text(*st, kind),
{
    let i = kind as usize - 1;
    if i >= st.tokens.len() {
        let r = String::new();
        assert(r@ =~= Seq::<char>::empty());
        return r;
    }
    let actions = &st.tokens[i].mode_actions;
    if actions.len() == 0 {
        let r = String::new();
        assert(r@ =~= Seq::<char>::empty());
        return r;
    }
    let ghost want = Seq::new(actions@.len(), |j: int| action_text(*st, actions@[j]));
    let mut parts: Vec<String> = Vec::new();
    let mut j: usize = 0;
    while j < actions.len()
        invariant
            j <= actions@.len(),
            want == Seq::new(actions@.len(), |j: int| action_text(*st, actions@[j])),
            parts@.len() == j,
            forall|m: int| 0 <= m < j ==> (#[trigger] parts@[m])@ == want[m],
        decreases actions@.len() - j,
    {
        let part = match actions[j] {
            ModeActionInfo::Push(id) => {
                let mut s = "push(".to_owned();
                if (id as usize) < st.modes.len() {
                    s.append(st.modes[id as usize].name.as_str());
                } else {
                    s.append("?");
                }
                s.append(")");
                s
            },
            ModeActionInfo::Pop => "pop".to_owned(),
        };
        assert(part@ == action_text(*st, actions@[j as int]));
        parts.push(part);
        j += 1;
    }
    assert(names::list_view(parts@) =~= want);
    let list = text::join(&parts, ", ");
    let mut r = " → ".to_owned();
    r.append(list.as_str());
    r
}

} // verus!
