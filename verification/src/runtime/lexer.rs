//! Lexers: from bytes to tokens.
//!
//! [`Scanner`] lexes a text that is in memory; [`StreamingLexer`] is fed with
//! chunks of bytes as they arrive. Both ask a [`DfaMatcher`] for the longest
//! match of the mode on top of their mode stack.
use vstd::prelude::*;
use vstd::slice::slice_subrange;

use crate::lowering::lexer_dfa::{self, DfaState, DEAD, START};
use crate::lowering::table::ModeInfo;
use crate::runtime::events::{Token, TokenView, TOKEN_EOF};
use crate::span::{Pos, Span};

verus! {

/// The number of bytes of the UTF-8 sequence that the byte begins; one for a
/// byte that begins none.
pub open spec fn char_len(b: u8) -> nat {
    if b < 0xC0 {
        1
    } else if b < 0xE0 {
        2
    } else if b < 0xF0 {
        3
    } else {
        4
    }
}

/// The number of bytes of the UTF-8 sequence that starts with `b`.
///
/// For a continuation byte this is one: to go on behind it is the right way
/// to recover.
pub fn utf8_char_len(b: u8) -> (n: usize)
    ensures
        n == char_len(b),
{
    if b < 0xC0 {
        1
    } else if b < 0xE0 {
        2
    } else if b < 0xF0 {
        3
    } else {
        4
    }
}

/// The first byte of the encoding of a character gives the length of the
/// encoding.
pub proof fn law_char_len(c: char)
    ensures
        char_len(vstd::utf8::encode_scalar(c as u32)[0]) == vstd::utf8::encode_scalar(
            c as u32,
        ).len(),
{
    let v = c as u32;
    vstd::utf8::char_is_scalar(c);
    assert(v <= 0x7F ==> ((v & 0x7F) as u8) < 0x80) by (bit_vector);
    assert(0xC0 <= (0xC0u8 | ((v >> 6) & 0x1F) as u8) < 0xE0) by (bit_vector);
    assert(0xE0 <= (0xE0u8 | ((v >> 12) & 0x0F) as u8) < 0xF0) by (bit_vector);
    assert(0xF0 <= (0xF0u8 | ((v >> 18) & 0x7) as u8)) by (bit_vector);
}

/// The longest match at the beginning of some bytes.
#[derive(Clone, Copy, Debug, PartialEq, Eq, Structural)]
pub struct DfaMatch {
    /// Bytes of the longest match; none if nothing was accepted.
    pub best_len: usize,
    /// Token kind of the longest match.
    pub best_kind: Option<u16>,
    /// Bytes that the scan read before it was stuck or at the end.
    pub scanned: usize,
}

/// What reading on from a state comes to: `at` bytes have been read, and the
/// longest match so far is `best`.
pub open spec fn scan(
    dfa: Seq<DfaState>,
    id: u32,
    rest: Seq<u8>,
    at: nat,
    best: (nat, Option<u16>),
) -> (nat, Option<u16>, nat)
    decreases rest.len() - at,
{
    if at < rest.len() && dfa[id - 1].next(rest[at as int]) != DEAD {
        let next = dfa[id - 1].next(rest[at as int]);
        let accept = dfa[next - 1].accept;
        scan(
            dfa,
            next,
            rest,
            at + 1,
            if accept is Some {
                (at + 1, accept)
            } else {
                best
            },
        )
    } else {
        (best.0, best.1, at)
    }
}

/// What the automaton finds at the beginning of the bytes: the length and the
/// kind of the longest match, and how many bytes were read.
pub open spec fn longest(dfa: Seq<DfaState>, rest: Seq<u8>) -> (nat, Option<u16>, nat) {
    scan(dfa, START, rest, 0, (0, None))
}

/// A lexer automaton for each mode.
pub trait DfaMatcher {
    /// The matcher can be asked.
    spec fn ok(&self) -> bool;

    /// Length and kind of the longest match of the mode at the beginning of
    /// the bytes, and how many bytes were read.
    spec fn matched(&self, rest: Seq<u8>, mode: u32) -> (nat, Option<u16>, nat);

    /// Scan the bytes from `start` on for the longest token of the mode.
    fn longest_match(&self, buf: &Vec<u8>, start: usize, mode: u32) -> (m: DfaMatch)
        requires
            self.ok(),
            start <= buf@.len(),
        ensures
            (m.best_len as nat, m.best_kind, m.scanned as nat) == self.matched(
                buf@.skip(start as int),
                mode,
            ),
            m.best_len <= m.scanned <= buf@.len() - start,
    ;
}

/// The matcher of a lowered grammar.
#[derive(Debug)]
pub struct TableMatcher<'t> {
    /// The modes, each at the place of its id.
    pub modes: &'t Vec<ModeInfo>,
}

impl DfaState {
    /// The id of the state entered on `b`; [`DEAD`] if no arm covers it.
    pub fn step(&self, b: u8) -> (r: u32)
        requires
            forall|i: int, j: int, c: u8|
                0 <= i < self.arms@.len() && 0 <= j < self.arms@.len()
                    && #[trigger] self.arms@[i].covers(c) && #[trigger] self.arms@[j].covers(c)
                    ==> i == j,
        ensures
            r == self.next(b),
    {
        let mut i: usize = 0;
        while i < self.arms.len()
            invariant
                i <= self.arms@.len(),
                forall|k: int| 0 <= k < i ==> !(#[trigger] self.arms@[k]).covers(b),
                forall|m: int, j: int, c: u8|
                    0 <= m < self.arms@.len() && 0 <= j < self.arms@.len()
                        && #[trigger] self.arms@[m].covers(c) && #[trigger] self.arms@[j].covers(c)
                        ==> m == j,
            decreases self.arms@.len() - i,
        {
            let arm = &self.arms[i];
            let mut j: usize = 0;
            while j < arm.ranges.len()
                invariant
                    j <= arm.ranges@.len(),
                    i < self.arms@.len(),
                    *arm == self.arms@[i as int],
                    forall|k: int|
                        0 <= k < j ==> !((#[trigger] arm.ranges@[k]).0 <= b <= arm.ranges@[k].1),
                    forall|m: int, n: int, c: u8|
                        0 <= m < self.arms@.len() && 0 <= n < self.arms@.len()
                            && #[trigger] self.arms@[m].covers(c)
                            && #[trigger] self.arms@[n].covers(c) ==> m == n,
                decreases arm.ranges@.len() - j,
            {
                let (lo, hi) = arm.ranges[j];
                if lo <= b && b <= hi {
                    proof {
                        assert(arm.ranges@[j as int] == (lo, hi));
                        assert(self.arms@[i as int].covers(b));
                        let c = choose|c: int|
                            0 <= c < self.arms@.len() && (#[trigger] self.arms@[c]).covers(b);
                        assert(c == i);
                    }
                    return arm.target;
                }
                j += 1;
            }
            i += 1;
        }
        DEAD
    }
}

/// Every automaton of the modes is well formed.
pub open spec fn modes_ok(modes: Seq<ModeInfo>) -> bool {
    forall|i: int| 0 <= i < modes.len() ==> lexer_dfa::well_formed((#[trigger] modes[i]).dfa@)
}

/// What the automaton of the mode finds; nothing if there is no such mode.
pub open spec fn mode_match(modes: Seq<ModeInfo>, rest: Seq<u8>, mode: u32) -> (
    nat,
    Option<u16>,
    nat,
) {
    if mode < modes.len() {
        longest(modes[mode as int].dfa@, rest)
    } else {
        (0, None, 0)
    }
}

impl<'t> DfaMatcher for TableMatcher<'t> {
    open spec fn ok(&self) -> bool {
        modes_ok(self.modes@)
    }

    open spec fn matched(&self, rest: Seq<u8>, mode: u32) -> (nat, Option<u16>, nat) {
        mode_match(self.modes@, rest, mode)
    }

    fn longest_match(&self, buf: &Vec<u8>, start: usize, mode: u32) -> (m: DfaMatch) {
        if mode as usize >= self.modes.len() {
            return DfaMatch { best_len: 0, best_kind: None, scanned: 0 };
        }
        let dfa = &self.modes[mode as usize].dfa;
        let ghost rest = buf@.skip(start as int);
        assert(lexer_dfa::well_formed(self.modes@[mode as int].dfa@));
        let mut id: u32 = START;
        let mut at: usize = 0;
        let mut best_len: usize = 0;
        let mut best_kind: Option<u16> = None;
        let n = buf.len() - start;
        assert(buf@.len() <= usize::MAX) by {
            assert(buf.len() == buf@.len());
        }
        while at < n
            invariant_except_break
                longest(dfa@, rest) == scan(
                    dfa@,
                    id,
                    rest,
                    at as nat,
                    (best_len as nat, best_kind),
                ),
            invariant
                lexer_dfa::well_formed(dfa@),
                start <= buf@.len(),
                n == buf@.len() - start,
                buf@.len() <= usize::MAX,
                rest == buf@.skip(start as int),
                best_len <= at <= n,
                0 < id <= dfa@.len(),
            ensures
                longest(dfa@, rest) == (best_len as nat, best_kind, at as nat),
            decreases n - at,
        {
            let b = buf[start + at];
            assert(b == rest[at as int]);
            let state = &dfa[(id - 1) as usize];
            assert(lexer_dfa::arms_ok(dfa@, state.arms@));
            let next = state.step(b);
            if next == DEAD {
                break;
            }
            assert(0 < next <= dfa@.len()) by {
                let i = choose|i: int|
                    0 <= i < state.arms@.len() && (#[trigger] state.arms@[i]).covers(b);
                assert(state.arms@[i].target == next);
            }
            id = next;
            at += 1;
            let accept = dfa[(id - 1) as usize].accept;
            if accept.is_some() {
                best_len = at;
                best_kind = accept;
            }
        }
        DfaMatch { best_len, best_kind, scanned: at }
    }
}

/// The state behind `w` and one more byte.
proof fn lemma_run_push(dfa: Seq<DfaState>, id: u32, w: Seq<u8>, b: u8)
    ensures
        lexer_dfa::run(dfa, id, w.push(b)) == ({
            let s = lexer_dfa::run(dfa, id, w);
            if s == DEAD {
                DEAD
            } else {
                dfa[s - 1].next(b)
            }
        }),
    decreases w.len(),
{
    let wb = w.push(b);
    if id != DEAD {
        if w.len() == 0 {
            assert(wb.skip(1) =~= Seq::<u8>::empty());
            assert(wb[0] == b);
            assert(lexer_dfa::run(dfa, dfa[id - 1].next(b), wb.skip(1)) == dfa[id - 1].next(b));
        } else {
            assert(wb.skip(1) =~= w.skip(1).push(b));
            assert(wb[0] == w[0]);
            lemma_run_push(dfa, dfa[id - 1].next(w[0]), w.skip(1), b);
        }
    }
}

/// Once stuck, the automaton stays so.
proof fn lemma_run_dead(dfa: Seq<DfaState>, rest: Seq<u8>, at: int, n: int)
    requires
        0 <= at <= n <= rest.len(),
        lexer_dfa::run(dfa, START, rest.take(at)) == DEAD,
    ensures
        lexer_dfa::run(dfa, START, rest.take(n)) == DEAD,
    decreases n - at,
{
    if at < n {
        lemma_run_dead(dfa, rest, at, n - 1);
        assert(rest.take(n) =~= rest.take(n - 1).push(rest[n - 1]));
        lemma_run_push(dfa, START, rest.take(n - 1), rest[n - 1]);
    }
}

/// `m` is the longest match at the beginning of `rest`: something was
/// accepted there, and nothing longer is.
pub open spec fn is_longest(dfa: Seq<DfaState>, rest: Seq<u8>, len: nat, kind: Option<u16>) -> bool {
    &&& len <= rest.len()
    &&& len == 0 ==> kind is None
    &&& len > 0 ==> kind is Some && lexer_dfa::accepted(dfa, rest.take(len as int)) == kind
    &&& forall|n: int|
        len < n <= rest.len() ==> (#[trigger] lexer_dfa::accepted(dfa, rest.take(n))) is None
}

proof fn lemma_scan(
    dfa: Seq<DfaState>,
    id: u32,
    rest: Seq<u8>,
    at: nat,
    best: (nat, Option<u16>),
)
    requires
        lexer_dfa::well_formed(dfa),
        at <= rest.len(),
        0 < id <= dfa.len(),
        id == lexer_dfa::run(dfa, START, rest.take(at as int)),
        best.0 <= at,
        best.0 == 0 ==> best.1 is None,
        best.0 > 0 ==> best.1 is Some && lexer_dfa::accepted(dfa, rest.take(best.0 as int))
            == best.1,
        forall|n: int|
            best.0 < n <= at ==> (#[trigger] lexer_dfa::accepted(dfa, rest.take(n))) is None,
    ensures
        is_longest(
            dfa,
            rest,
            scan(dfa, id, rest, at, best).0,
            scan(dfa, id, rest, at, best).1,
        ),
        at <= scan(dfa, id, rest, at, best).2 <= rest.len(),
    decreases rest.len() - at,
{
    if at < rest.len() {
        let b = rest[at as int];
        let next = dfa[id - 1].next(b);
        let more = rest.take(at as int + 1);
        assert(more =~= rest.take(at as int).push(b));
        lemma_run_push(dfa, START, rest.take(at as int), b);
        if next != DEAD {
            let state = dfa[id - 1];
            assert(lexer_dfa::arms_ok(dfa, state.arms@));
            assert(0 < next <= dfa.len()) by {
                let i = choose|i: int|
                    0 <= i < state.arms@.len() && (#[trigger] state.arms@[i]).covers(b);
                assert(state.arms@[i].target == next);
            }
            let accept = dfa[next - 1].accept;
            assert(lexer_dfa::accepted(dfa, more) == accept);
            let best2 = if accept is Some {
                (at + 1, accept)
            } else {
                best
            };
            lemma_scan(dfa, next, rest, at + 1, best2);
        } else {
            assert forall|n: int| best.0 < n <= rest.len() implies (
            #[trigger] lexer_dfa::accepted(dfa, rest.take(n))) is None by {
                if n > at {
                    lemma_run_dead(dfa, rest, at as int + 1, n);
                }
            }
        }
    }
}

/// What a lexer automaton finds is the longest match: the kind accepted on
/// that many bytes, and nothing is accepted on more.
pub proof fn law_longest_match(dfa: Seq<DfaState>, rest: Seq<u8>)
    requires
        lexer_dfa::well_formed(dfa),
    ensures
        is_longest(dfa, rest, longest(dfa, rest).0, longest(dfa, rest).1),
{
    assert(rest.take(0) =~= Seq::<u8>::empty());
    lemma_scan(dfa, START, rest, 0, (0, None));
}

/// Line and column behind the bytes, which start on line 1 in column 1. A
/// line break starts a line; of a character only the first byte counts.
pub open spec fn place(bytes: Seq<u8>) -> (nat, nat)
    decreases bytes.len(),
{
    if bytes.len() == 0 {
        (1, 1)
    } else {
        let (line, col) = place(bytes.drop_last());
        if bytes.last() == 0x0A {
            (line + 1, 1)
        } else if 0x80 <= bytes.last() < 0xC0 {
            (line, col)
        } else {
            (line, col + 1)
        }
    }
}

proof fn lemma_place_bound(bytes: Seq<u8>)
    ensures
        1 <= place(bytes).0 <= bytes.len() + 1,
        1 <= place(bytes).1 <= bytes.len() + 1,
    decreases bytes.len(),
{
    if bytes.len() > 0 {
        lemma_place_bound(bytes.drop_last());
    }
}

/// Line and column add up: behind `a` and then `b` the line is that behind `a`
/// with the line breaks of `b`, and the column counts on from `a` as long as
/// `b` breaks no line.
pub proof fn law_places_add_up(a: Seq<u8>, b: Seq<u8>)
    ensures
        place(a + b) == (
            (place(a).0 + place(b).0 - 1) as nat,
            if place(b).0 == 1 {
                (place(a).1 + place(b).1 - 1) as nat
            } else {
                place(b).1
            },
        ),
    decreases b.len(),
{
    lemma_place_bound(a);
    lemma_place_bound(b);
    if b.len() == 0 {
        assert(a + b =~= a);
    } else {
        lemma_place_bound(b.drop_last());
        law_places_add_up(a, b.drop_last());
        assert((a + b).drop_last() =~= a + b.drop_last());
        assert((a + b).last() == b.last());
    }
}

/// The position in front of byte `at`.
pub open spec fn pos_at(buf: Seq<u8>, at: int) -> Pos {
    let (line, col) = place(buf.take(at));
    Pos { offset: at as u32, line: line as u32, column: col as u32 }
}

/// Line and column behind one more byte.
fn next_place(line: u32, col: u32, b: u8, Ghost(before): Ghost<Seq<u8>>) -> (r: (u32, u32))
    requires
        (line as nat, col as nat) == place(before),
        before.len() < u32::MAX - 1,
    ensures
        (r.0 as nat, r.1 as nat) == place(before.push(b)),
{
    proof {
        lemma_place_bound(before);
        assert(before.push(b).drop_last() =~= before);
    }
    if b == 0x0A {
        (line + 1, 1)
    } else if 0x80 <= b && b < 0xC0 {
        (line, col)
    } else {
        (line, col + 1)
    }
}

/// The text of bytes that are not UTF-8, with a replacement character for each
/// part that is not.
pub uninterp spec fn lossy_text(bytes: Seq<u8>) -> Seq<char>;

/// The text of bytes: what they encode, or, if they are not UTF-8, what stands
/// for them.
pub open spec fn text_of(bytes: Seq<u8>) -> Seq<char> {
    if vstd::utf8::valid_utf8(bytes) {
        vstd::utf8::decode_utf8(bytes)
    } else {
        lossy_text(bytes)
    }
}

/// `String::from_utf8_lossy`: bytes that are UTF-8 give the text that they
/// encode; what other bytes give is what [`lossy_text`] names.
#[verifier::external_body]
fn lossy(bytes: &[u8]) -> (r: String)
    ensures
        vstd::utf8::valid_utf8(bytes@) ==> r@ == vstd::utf8::decode_utf8(bytes@),
        !vstd::utf8::valid_utf8(bytes@) ==> r@ == lossy_text(bytes@),
{
    String::from_utf8_lossy(bytes).into_owned()
}

/// A token of the run-time: kinds and labels are numbers.
pub type RawToken = Token<u16, u16>;

/// The token that a lexer gives at `at`, when `len` bytes of kind `kind` were
/// matched. If nothing was, the token is one character of no kind.
pub open spec fn token_at(buf: Seq<u8>, at: int, len: nat, kind: Option<u16>) -> TokenView<u16, u16> {
    if at >= buf.len() {
        TokenView {
            kind: Some(TOKEN_EOF),
            span: Span { start: pos_at(buf, at), end: pos_at(buf, at) },
            text: Seq::empty(),
            label: None,
        }
    } else {
        let n = token_len(buf, at, len);
        TokenView {
            kind: if len > 0 {
                kind
            } else {
                None
            },
            span: Span { start: pos_at(buf, at), end: pos_at(buf, at + n) },
            text: text_of(buf.subrange(at, at + n)),
            label: None,
        }
    }
}

/// How many bytes the token at `at` has, when `len` bytes were matched.
pub open spec fn token_len(buf: Seq<u8>, at: int, len: nat) -> int {
    if at >= buf.len() {
        0
    } else if len > 0 {
        len as int
    } else if char_len(buf[at]) <= buf.len() - at {
        char_len(buf[at]) as int
    } else {
        buf.len() - at
    }
}

/// The mode stack without its top. The last mode stays.
pub open spec fn popped(modes: Seq<u32>) -> Seq<u32> {
    if modes.len() > 1 {
        modes.drop_last()
    } else {
        modes
    }
}

/// The mode stack cut to a depth. The last mode stays.
pub open spec fn cut(modes: Seq<u32>, depth: nat) -> Seq<u32> {
    if depth == 0 {
        modes.take(1)
    } else if modes.len() > depth {
        modes.take(depth as int)
    } else {
        modes
    }
}

/// Something that hands tokens to the parser one at a time.
pub trait LexerBackend {
    /// The lexer can be asked.
    spec fn ok(&self) -> bool;

    /// The mode stack, from the bottom up.
    spec fn mode_stack(&self) -> Seq<u32>;

    /// The input is used up.
    spec fn ended(&self) -> bool;

    /// Produce the next token: one of kind [`TOKEN_EOF`] once the input is
    /// used up, then and ever after.
    fn next_token(&mut self) -> (t: RawToken)
        requires
            old(self).ok(),
        ensures
            final(self).ok(),
            final(self).mode_stack() == old(self).mode_stack(),
            old(self).ended() ==> t.kind == Some(TOKEN_EOF) && final(self).ended(),
    ;

    /// Push a mode. From then on tokens are those of that mode.
    fn push_mode(&mut self, mode: u32)
        requires
            old(self).ok(),
        ensures
            final(self).ok(),
            final(self).mode_stack() == old(self).mode_stack().push(mode),
            final(self).ended() == old(self).ended(),
    ;

    /// Pop the topmost mode. The last one stays.
    fn pop_mode(&mut self)
        requires
            old(self).ok(),
        ensures
            final(self).ok(),
            final(self).mode_stack() == popped(old(self).mode_stack()),
            final(self).ended() == old(self).ended(),
    ;

    /// How many modes are on the stack.
    fn mode_depth(&self) -> (n: usize)
        requires
            self.ok(),
        ensures
            n == self.mode_stack().len(),
            n > 0,
    ;

    /// Pop modes until no more than `depth` are left. The last one stays.
    fn pop_modes_to(&mut self, depth: usize)
        requires
            old(self).ok(),
        ensures
            final(self).ok(),
            final(self).mode_stack() == cut(old(self).mode_stack(), depth as nat),
            final(self).ended() == old(self).ended(),
    ;
}

/// In-memory lexer over a text.
#[derive(Debug)]
pub struct Scanner<D: DfaMatcher> {
    buf: Vec<u8>,
    pos: usize,
    line: u32,
    col: u32,
    modes: Vec<u32>,
    matcher: D,
}

/// What a [`Scanner`] has to do still: the text, how much of it is behind,
/// and the mode stack.
pub ghost struct ScanView {
    pub buf: Seq<u8>,
    pub pos: nat,
    pub modes: Seq<u32>,
}

/// The token that comes next.
pub open spec fn next_lexed<D: DfaMatcher>(matcher: D, s: ScanView) -> TokenView<u16, u16> {
    let (len, kind, _) = matcher.matched(s.buf.skip(s.pos as int), s.modes.last());
    token_at(s.buf, s.pos as int, len, kind)
}

/// What is left behind the token that comes next.
pub open spec fn after_lexed<D: DfaMatcher>(matcher: D, s: ScanView) -> ScanView {
    let (len, _, _) = matcher.matched(s.buf.skip(s.pos as int), s.modes.last());
    ScanView { pos: (s.pos + token_len(s.buf, s.pos as int, len)) as nat, ..s }
}

/// The scanner when one token was taken with each of the mode stacks in turn.
pub open spec fn after_tokens<D: DfaMatcher>(
    matcher: D,
    s: ScanView,
    stacks: Seq<Seq<u32>>,
) -> ScanView
    decreases stacks.len(),
{
    if stacks.len() == 0 {
        s
    } else {
        let before = after_tokens(matcher, s, stacks.drop_last());
        after_lexed(matcher, ScanView { modes: stacks.last(), ..before })
    }
}

/// The tokens that are taken, one with each of the mode stacks in turn.
pub open spec fn tokens_taken<D: DfaMatcher>(
    matcher: D,
    s: ScanView,
    stacks: Seq<Seq<u32>>,
) -> Seq<TokenView<u16, u16>>
    decreases stacks.len(),
{
    if stacks.len() == 0 {
        Seq::empty()
    } else {
        let before = after_tokens(matcher, s, stacks.drop_last());
        tokens_taken(matcher, s, stacks.drop_last()).push(
            next_lexed(matcher, ScanView { modes: stacks.last(), ..before }),
        )
    }
}

/// The bytes that the spans of the tokens cover, one after the other.
pub open spec fn covered(buf: Seq<u8>, tokens: Seq<TokenView<u16, u16>>) -> Seq<u8>
    decreases tokens.len(),
{
    if tokens.len() == 0 {
        Seq::empty()
    } else {
        let span = tokens.last().span;
        covered(buf, tokens.drop_last()) + buf.subrange(
            span.start.offset as int,
            span.end.offset as int,
        )
    }
}

/// The texts of the tokens, one after the other.
pub open spec fn spelled(tokens: Seq<TokenView<u16, u16>>) -> Seq<char>
    decreases tokens.len(),
{
    if tokens.len() == 0 {
        Seq::empty()
    } else {
        spelled(tokens.drop_last()) + tokens.last().text
    }
}

/// No match of the matcher goes beyond the bytes.
pub open spec fn stays_within<D: DfaMatcher>(matcher: D) -> bool {
    forall|rest: Seq<u8>, mode: u32| (#[trigger] matcher.matched(rest, mode)).0 <= rest.len()
}

/// In UTF-8 every match of the matcher ends behind a character.
pub open spec fn ends_on_chars<D: DfaMatcher>(matcher: D) -> bool {
    forall|rest: Seq<u8>, mode: u32|
        vstd::utf8::valid_utf8(rest) ==> vstd::utf8::is_char_boundary(
            rest,
            (#[trigger] matcher.matched(rest, mode)).0 as int,
        )
}

/// No match of the matcher of a table goes beyond the bytes.
pub proof fn law_table_stays_within(matcher: TableMatcher)
    requires
        matcher.ok(),
    ensures
        stays_within(matcher),
{
    assert forall|rest: Seq<u8>, mode: u32| (#[trigger] matcher.matched(rest, mode)).0
        <= rest.len() by {
        if (mode as int) < matcher.modes@.len() {
            law_longest_match(matcher.modes@[mode as int].dfa@, rest);
        }
    }
}

/// A token of a text that is not at its end has a byte, and none behind the
/// end.
proof fn lemma_token_len<D: DfaMatcher>(matcher: D, s: ScanView)
    requires
        stays_within(matcher),
        s.pos <= s.buf.len(),
    ensures
        s.pos <= after_lexed(matcher, s).pos <= s.buf.len(),
        s.pos < s.buf.len() ==> s.pos < after_lexed(matcher, s).pos,
        after_lexed(matcher, s).buf == s.buf,
{
    assert(matcher.matched(s.buf.skip(s.pos as int), s.modes.last()).0 <= s.buf.skip(
        s.pos as int,
    ).len());
}

/// The tokens of a scanner spell the text: whatever the mode stack is when
/// each of them is taken, their spans cover the text from where the scanner
/// was to where it comes, byte for byte and in order, and the text of each is
/// that of the bytes it covers. As many tokens as there are bytes left reach
/// the end.
pub proof fn law_tokens_spell_the_text<D: DfaMatcher>(
    matcher: D,
    s: ScanView,
    stacks: Seq<Seq<u32>>,
)
    requires
        stays_within(matcher),
        s.pos <= s.buf.len() < u32::MAX - 1,
    ensures
        ({
            let tokens = tokens_taken(matcher, s, stacks);
            let end = after_tokens(matcher, s, stacks);
            &&& end.buf == s.buf
            &&& s.pos <= end.pos <= s.buf.len()
            &&& covered(s.buf, tokens) == s.buf.subrange(s.pos as int, end.pos as int)
            &&& tokens.len() == stacks.len()
            &&& forall|i: int|
                0 <= i < tokens.len() ==> {
                    let span = (#[trigger] tokens[i]).span;
                    span.start.offset < span.end.offset ==> tokens[i].text == text_of(
                        s.buf.subrange(span.start.offset as int, span.end.offset as int),
                    )
                }
            &&& end.pos < s.buf.len() ==> end.pos - s.pos >= stacks.len()
            &&& stacks.len() >= s.buf.len() - s.pos ==> end.pos == s.buf.len()
        }),
    decreases stacks.len(),
{
    let end = after_tokens(matcher, s, stacks);
    if stacks.len() == 0 {
        assert(s.buf.subrange(s.pos as int, s.pos as int) =~= Seq::<u8>::empty());
    } else {
        law_tokens_spell_the_text(matcher, s, stacks.drop_last());
        let before = after_tokens(matcher, s, stacks.drop_last());
        let here = ScanView { modes: stacks.last(), ..before };
        let tokens = tokens_taken(matcher, s, stacks);
        lemma_token_len(matcher, here);
        assert(tokens.drop_last() =~= tokens_taken(matcher, s, stacks.drop_last()));
        let span = tokens.last().span;
        assert(span.start.offset == here.pos);
        assert(span.end.offset == end.pos);
        assert(s.buf.subrange(s.pos as int, before.pos as int) + s.buf.subrange(
            before.pos as int,
            end.pos as int,
        ) =~= s.buf.subrange(s.pos as int, end.pos as int));
    }
}

/// The first character of bytes that are UTF-8 ends where the next begins.
proof fn lemma_first_char(rest: Seq<u8>)
    requires
        vstd::utf8::valid_utf8(rest),
        rest.len() > 0,
    ensures
        char_len(rest[0]) <= rest.len(),
        vstd::utf8::is_char_boundary(rest, char_len(rest[0]) as int),
        vstd::utf8::decode_utf8(rest.subrange(0, char_len(rest[0]) as int)).len() == 1,
{
    let n = char_len(rest[0]) as int;
    assert(n == vstd::utf8::length_of_first_scalar(rest));
    let tail = vstd::utf8::pop_first_scalar(rest);
    assert(vstd::utf8::is_char_boundary(tail, 0));
    assert(vstd::utf8::is_char_boundary(rest, n));
    vstd::utf8::valid_utf8_split(rest, n);
    let head = rest.subrange(0, n);
    assert(vstd::utf8::pop_first_scalar(head) =~= Seq::<u8>::empty());
    assert(vstd::utf8::decode_utf8(Seq::<u8>::empty()).len() == 0);
}

/// What one token takes of a text in UTF-8.
proof fn lemma_char_token<D: DfaMatcher>(matcher: D, s: ScanView)
    requires
        stays_within(matcher),
        ends_on_chars(matcher),
        s.pos <= s.buf.len(),
        vstd::utf8::valid_utf8(s.buf.skip(s.pos as int)),
    ensures
        ({
            let t = next_lexed(matcher, s);
            let rest = s.buf.skip(s.pos as int);
            let left = s.buf.skip(after_lexed(matcher, s).pos as int);
            let (len, kind, _) = matcher.matched(rest, s.modes.last());
            &&& vstd::utf8::valid_utf8(left)
            &&& vstd::utf8::decode_utf8(rest) == t.text + vstd::utf8::decode_utf8(left)
            &&& s.pos < s.buf.len() ==> t.text.len() > 0
            &&& s.pos < s.buf.len() && len == 0 ==> t.text.len() == 1 && t.kind is None
            &&& s.pos < s.buf.len() && len > 0 ==> t.kind == kind
            &&& s.pos == s.buf.len() ==> t.text.len() == 0 && t.kind == Some(TOKEN_EOF)
        }),
{
    let rest = s.buf.skip(s.pos as int);
    let at = s.pos as int;
    let (len, _, _) = matcher.matched(rest, s.modes.last());
    if s.pos < s.buf.len() {
        lemma_first_char(rest);
        assert(rest[0] == s.buf[at]);
        let n = token_len(s.buf, at, len);
        assert(vstd::utf8::is_char_boundary(rest, n));
        vstd::utf8::valid_utf8_split(rest, n);
        vstd::utf8::decode_utf8_split(rest, n);
        let head = rest.subrange(0, n);
        assert(head =~= s.buf.subrange(at, at + n));
        assert(rest.subrange(n, rest.len() as int) =~= s.buf.skip(at + n));
        assert(vstd::utf8::decode_utf8(head).len() > 0) by {
            assert(head.len() > 0);
        }
    } else {
        assert(Seq::<char>::empty() + vstd::utf8::decode_utf8(rest) =~= vstd::utf8::decode_utf8(
            rest,
        ));
    }
}

/// The texts of the tokens give the source back: with what is left they are the
/// text in front of which the scanner was, one that is not at the end has a
/// character, and what no pattern matches is one character of no kind. This
/// holds of a text in UTF-8, where matches end behind a character.
pub proof fn law_texts_spell_the_source<D: DfaMatcher>(
    matcher: D,
    s: ScanView,
    stacks: Seq<Seq<u32>>,
)
    requires
        stays_within(matcher),
        ends_on_chars(matcher),
        s.pos <= s.buf.len() < u32::MAX - 1,
        vstd::utf8::valid_utf8(s.buf.skip(s.pos as int)),
    ensures
        ({
            let tokens = tokens_taken(matcher, s, stacks);
            let left = s.buf.skip(after_tokens(matcher, s, stacks).pos as int);
            &&& vstd::utf8::valid_utf8(left)
            &&& vstd::utf8::decode_utf8(s.buf.skip(s.pos as int)) == spelled(tokens)
                + vstd::utf8::decode_utf8(left)
            &&& stacks.len() >= s.buf.len() - s.pos ==> vstd::utf8::decode_utf8(
                s.buf.skip(s.pos as int),
            ) == spelled(tokens)
            &&& forall|i: int|
                0 <= i < tokens.len() ==> {
                    let t = #[trigger] tokens[i];
                    &&& t.text.len() == 0 ==> t.kind == Some(TOKEN_EOF) && t.span.end.offset
                        == s.buf.len()
                    &&& t.kind is None ==> t.text.len() > 0
                }
        }),
    decreases stacks.len(),
{
    let rest = s.buf.skip(s.pos as int);
    let whole = vstd::utf8::decode_utf8(rest);
    law_tokens_spell_the_text(matcher, s, stacks);
    let end = after_tokens(matcher, s, stacks);
    let left = s.buf.skip(end.pos as int);
    if stacks.len() == 0 {
        assert(Seq::<char>::empty() + whole =~= whole);
    } else {
        law_tokens_spell_the_text(matcher, s, stacks.drop_last());
        law_texts_spell_the_source(matcher, s, stacks.drop_last());
        let before = after_tokens(matcher, s, stacks.drop_last());
        let here = ScanView { modes: stacks.last(), ..before };
        let tokens = tokens_taken(matcher, s, stacks);
        assert(tokens.drop_last() =~= tokens_taken(matcher, s, stacks.drop_last()));
        lemma_char_token(matcher, here);
        assert(spelled(tokens.drop_last()) + (tokens.last().text + vstd::utf8::decode_utf8(left))
            =~= spelled(tokens) + vstd::utf8::decode_utf8(left));
        assert forall|i: int| 0 <= i < tokens.len() implies {
            let t = #[trigger] tokens[i];
            &&& t.text.len() == 0 ==> t.kind == Some(TOKEN_EOF) && t.span.end.offset
                == s.buf.len()
            &&& t.kind is None ==> t.text.len() > 0
        } by {
            if i < tokens.len() - 1 {
                assert(tokens[i] == tokens.drop_last()[i]);
            }
        }
    }
    if stacks.len() >= s.buf.len() - s.pos {
        assert(left =~= Seq::<u8>::empty());
        assert(vstd::utf8::decode_utf8(left) =~= Seq::<char>::empty());
        assert(spelled(tokens_taken(matcher, s, stacks)) + Seq::<char>::empty() =~= spelled(
            tokens_taken(matcher, s, stacks),
        ));
    }
}

/// At the end of the text every token is the end of input, with no text and at
/// one place, and the scanner stays there.
pub proof fn law_end_is_final<D: DfaMatcher>(matcher: D, s: ScanView)
    requires
        s.pos == s.buf.len(),
    ensures
        next_lexed(matcher, s).kind == Some(TOKEN_EOF),
        next_lexed(matcher, s).text.len() == 0,
        next_lexed(matcher, s).span.start == pos_at(s.buf, s.buf.len() as int),
        next_lexed(matcher, s).span.end == pos_at(s.buf, s.buf.len() as int),
        after_lexed(matcher, s) == s,
{
}

impl<D: DfaMatcher> Scanner<D> {
    /// What is left to do.
    pub closed spec fn view(self) -> ScanView {
        ScanView { buf: self.buf@, pos: self.pos as nat, modes: self.modes@ }
    }

    /// The matcher.
    pub closed spec fn dfa(self) -> D {
        self.matcher
    }

    /// The scanner knows where it is, and its mode stack is not empty.
    pub closed spec fn wf(self) -> bool {
        &&& self.matcher.ok()
        &&& self.pos <= self.buf@.len() < u32::MAX - 1
        &&& self.modes@.len() > 0
        &&& (self.line as nat, self.col as nat) == place(self.buf@.take(self.pos as int))
    }

    /// Build a scanner over `src`, at its beginning and in the default mode.
    ///
    /// The text is shorter than 4 GiB: positions have 32 bits.
    pub fn new(src: &str, matcher: D) -> (r: Self)
        requires
            matcher.ok(),
            vstd::utf8::encode_utf8(src@).len() < u32::MAX - 1,
        ensures
            r.wf(),
            r.dfa() == matcher,
            r@ == (ScanView { buf: vstd::utf8::encode_utf8(src@), pos: 0, modes: seq![0u32] }),
    {
        let bytes = src.as_bytes();
        let mut buf: Vec<u8> = Vec::new();
        let mut i: usize = 0;
        while i < bytes.len()
            invariant
                i <= bytes@.len(),
                buf@ == bytes@.take(i as int),
            decreases bytes@.len() - i,
        {
            buf.push(bytes[i]);
            assert(bytes@.take(i + 1) =~= bytes@.take(i as int).push(bytes@[i as int]));
            i += 1;
        }
        assert(buf@ =~= bytes@);
        let mut modes: Vec<u32> = Vec::new();
        modes.push(0);
        assert(buf@.take(0) =~= Seq::<u8>::empty());
        Scanner { buf, pos: 0, line: 1, col: 1, modes, matcher }
    }

    /// Where the scanner is.
    pub fn cur_pos(&self) -> (r: Pos)
        requires
            self.wf(),
        ensures
            r == pos_at(self@.buf, self@.pos as int),
    {
        Pos::new(self.pos as u32, self.line, self.col)
    }

    /// Go on by `n` bytes. Line and column go on with them: what
    /// [`Scanner::cur_pos`] gives depends on the bytes that are behind only.
    pub fn advance(&mut self, n: usize)
        requires
            old(self).wf(),
            old(self)@.pos + n <= old(self)@.buf.len(),
        ensures
            final(self).wf(),
            final(self).dfa() == old(self).dfa(),
            final(self)@ == (ScanView { pos: (old(self)@.pos + n) as nat, ..old(self)@ }),
    {
        let end = self.pos + n;
        while self.pos < end
            invariant
                self.wf(),
                self.pos <= end <= self.buf@.len(),
                self.buf == old(self).buf,
                self.modes == old(self).modes,
                self.matcher == old(self).matcher,
            decreases end - self.pos,
        {
            let b = self.buf[self.pos];
            let ghost before = self.buf@.take(self.pos as int);
            let (line, col) = next_place(self.line, self.col, b, Ghost(before));
            assert(self.buf@.take(self.pos + 1) =~= before.push(b));
            self.line = line;
            self.col = col;
            self.pos = self.pos + 1;
        }
    }
}

impl<D: DfaMatcher> LexerBackend for Scanner<D> {
    open spec fn ok(&self) -> bool {
        self.wf()
    }

    open spec fn mode_stack(&self) -> Seq<u32> {
        self@.modes
    }

    open spec fn ended(&self) -> bool {
        self@.pos >= self@.buf.len()
    }

    fn next_token(&mut self) -> (t: RawToken)
        ensures
            t@ == next_lexed(old(self).dfa(), old(self)@),
            final(self)@ == after_lexed(old(self).dfa(), old(self)@),
            final(self).dfa() == old(self).dfa(),
    {
        let start = self.cur_pos();
        if self.pos >= self.buf.len() {
            let text = String::new();
            assert(text@ =~= Seq::<char>::empty());
            return Token { kind: Some(TOKEN_EOF), span: Span::point(start), text, label: None };
        }
        let mode = self.modes[self.modes.len() - 1];
        let m = self.matcher.longest_match(&self.buf, self.pos, mode);
        let from = self.pos;
        let n = if m.best_len > 0 {
            m.best_len
        } else {
            let c = utf8_char_len(self.buf[self.pos]);
            let left = self.buf.len() - self.pos;
            if c <= left {
                c
            } else {
                left
            }
        };
        let text = lossy(slice_subrange(self.buf.as_slice(), from, from + n));
        self.advance(n);
        let kind = if m.best_len > 0 {
            m.best_kind
        } else {
            None
        };
        Token { kind, span: Span::new(start, self.cur_pos()), text, label: None }
    }

    fn push_mode(&mut self, mode: u32)
        ensures
            final(self)@ == (ScanView { modes: old(self)@.modes.push(mode), ..old(self)@ }),
            final(self).dfa() == old(self).dfa(),
    {
        self.modes.push(mode);
    }

    fn pop_mode(&mut self)
        ensures
            final(self)@ == (ScanView { modes: popped(old(self)@.modes), ..old(self)@ }),
            final(self).dfa() == old(self).dfa(),
    {
        if self.modes.len() > 1 {
            self.modes.pop();
        }
    }

    fn mode_depth(&self) -> (n: usize) {
        self.modes.len()
    }

    fn pop_modes_to(&mut self, depth: usize)
        ensures
            final(self)@ == (ScanView { modes: cut(old(self)@.modes, depth as nat), ..old(self)@ }),
            final(self).dfa() == old(self).dfa(),
    {
        let ghost before = self.modes@;
        while self.modes.len() > depth && self.modes.len() > 1
            invariant
                self.wf(),
                self.buf == old(self).buf,
                self.pos == old(self).pos,
                self.matcher == old(self).matcher,
                before == old(self).modes@,
                0 < self.modes@.len() <= before.len(),
                self.modes@ == before.take(self.modes@.len() as int),
                depth > 0 && before.len() > depth ==> self.modes@.len() >= depth,
                before.len() <= depth ==> self.modes@.len() == before.len(),
            decreases self.modes@.len(),
        {
            self.modes.pop();
        }
        assert(self.modes@ =~= cut(before, depth as nat));
    }
}

/// Bytes that are read ahead before a token is matched.
pub const STREAM_CHUNK: usize = 16384;

/// Bytes that are kept behind before the buffer is cut.
const STREAM_KEEP: usize = 65536;

/// Lexer that is fed with chunks of bytes.
///
/// Whoever reads the input feeds it: [`StreamingLexer::feed`] with bytes that
/// have arrived, and [`StreamingLexer::finish`] when there are no more.
pub struct StreamingLexer<D: DfaMatcher> {
    buf: Vec<u8>,
    buf_pos: usize,
    eof: bool,
    offset: u32,
    line: u32,
    col: u32,
    modes: Vec<u32>,
    matcher: D,
    seen: Ghost<Seq<u8>>,
}

/// What a [`StreamingLexer`] has got so far, how much of it is behind, the
/// mode stack, and whether there is more to come.
pub ghost struct StreamView {
    pub got: Seq<u8>,
    pub pos: nat,
    pub modes: Seq<u32>,
    pub eof: bool,
}

/// What a [`StreamingLexer`] says when it is asked for a token.
#[derive(Debug)]
pub enum Pull {
    /// More bytes are needed first.
    More,
    /// The next token.
    Token(RawToken),
}

/// More bytes are needed before the next token is certain: too few are there,
/// or the match came to the end of what is there.
pub open spec fn needs_more<D: DfaMatcher>(matcher: D, s: StreamView) -> bool {
    let rest = s.got.skip(s.pos as int);
    !s.eof && (rest.len() < STREAM_CHUNK || matcher.matched(rest, s.modes.last()).2 == rest.len())
}

/// What a scanner over the bytes that are there has left to do.
pub open spec fn as_scan(s: StreamView) -> ScanView {
    ScanView { buf: s.got, pos: s.pos, modes: s.modes }
}

impl<D: DfaMatcher> StreamingLexer<D> {
    /// What is there.
    pub closed spec fn view(self) -> StreamView {
        StreamView {
            got: self.seen@ + self.buf@.skip(self.buf_pos as int),
            pos: self.seen@.len(),
            modes: self.modes@,
            eof: self.eof,
        }
    }

    /// The matcher.
    pub closed spec fn dfa(self) -> D {
        self.matcher
    }

    /// The lexer knows where it is, and its mode stack is not empty.
    pub closed spec fn wf(self) -> bool {
        &&& self.matcher.ok()
        &&& self.buf_pos <= self.buf@.len()
        &&& self.seen@.len() + self.buf@.len() - self.buf_pos < u32::MAX - 1
        &&& self.modes@.len() > 0
        &&& self.offset == self.seen@.len()
        &&& (self.line as nat, self.col as nat) == place(self.seen@)
    }

    /// Build a lexer that has got nothing yet.
    pub fn new(matcher: D) -> (r: Self)
        requires
            matcher.ok(),
        ensures
            r.wf(),
            r.dfa() == matcher,
            r@ == (StreamView { got: Seq::empty(), pos: 0, modes: seq![0u32], eof: false }),
    {
        let mut modes: Vec<u32> = Vec::new();
        modes.push(0);
        let r = StreamingLexer {
            buf: Vec::new(),
            buf_pos: 0,
            eof: false,
            offset: 0,
            line: 1,
            col: 1,
            modes,
            matcher,
            seen: Ghost(Seq::empty()),
        };
        assert(r@.got =~= Seq::<u8>::empty());
        assert(r@.modes =~= seq![0u32]);
        r
    }

    /// Take in bytes that have arrived.
    ///
    /// No more than 4 GiB come in all: positions have 32 bits.
    pub fn feed(&mut self, chunk: &Vec<u8>)
        requires
            old(self).wf(),
            old(self)@.got.len() + chunk@.len() < u32::MAX - 1,
        ensures
            final(self).wf(),
            final(self).dfa() == old(self).dfa(),
            final(self)@ == (StreamView { got: old(self)@.got + chunk@, ..old(self)@ }),
    {
        let ghost before = self.buf@;
        let mut i: usize = 0;
        while i < chunk.len()
            invariant
                i <= chunk@.len(),
                self.buf@ == before + chunk@.take(i as int),
                self.buf_pos == old(self).buf_pos,
                self.eof == old(self).eof,
                self.offset == old(self).offset,
                self.line == old(self).line,
                self.col == old(self).col,
                self.modes == old(self).modes,
                self.matcher == old(self).matcher,
                self.seen == old(self).seen,
            decreases chunk@.len() - i,
        {
            self.buf.push(chunk[i]);
            assert(chunk@.take(i + 1) =~= chunk@.take(i as int).push(chunk@[i as int]));
            i += 1;
        }
        assert(chunk@.take(i as int) =~= chunk@);
        assert(self@.got =~= old(self)@.got + chunk@);
    }

    /// There are no more bytes.
    pub fn finish(&mut self)
        requires
            old(self).wf(),
        ensures
            final(self).wf(),
            final(self).dfa() == old(self).dfa(),
            final(self)@ == (StreamView { eof: true, ..old(self)@ }),
    {
        self.eof = true;
    }

    fn pos(&self) -> (r: Pos)
        requires
            self.wf(),
        ensures
            r == pos_at(self@.got, self@.pos as int),
    {
        assert(self@.got.take(self@.pos as int) =~= self.seen@);
        Pos::new(self.offset, self.line, self.col)
    }

    /// Go on by `len` bytes, and cut the buffer if much is behind.
    fn consume(&mut self, len: usize)
        requires
            old(self).wf(),
            old(self).buf_pos + len <= old(self).buf@.len(),
        ensures
            final(self).wf(),
            final(self).dfa() == old(self).dfa(),
            final(self)@ == (StreamView { pos: old(self)@.pos + len as nat, ..old(self)@ }),
    {
        let ghost all = self@.got;
        assert(self.buf.len() == self.buf@.len());
        let end = self.buf_pos + len;
        while self.buf_pos < end
            invariant
                self.wf(),
                self.buf_pos <= end <= self.buf@.len(),
                self@.got == all,
                self.buf == old(self).buf,
                self.seen@.len() - self.buf_pos == old(self).seen@.len() - old(self).buf_pos,
                self.modes == old(self).modes,
                self.eof == old(self).eof,
                self.matcher == old(self).matcher,
            decreases end - self.buf_pos,
        {
            let b = self.buf[self.buf_pos];
            let ghost before = self.seen@;
            let ghost rest = self.buf@.skip(self.buf_pos as int);
            let (line, col) = next_place(self.line, self.col, b, Ghost(before));
            self.line = line;
            self.col = col;
            self.offset = self.offset + 1;
            self.buf_pos = self.buf_pos + 1;
            self.seen = Ghost(before.push(b));
            assert(self@.got =~= before + rest) by {
                assert(rest =~= seq![b] + self.buf@.skip(self.buf_pos as int));
            }
        }
        if self.buf_pos > STREAM_KEEP {
            let ghost rest = self.buf@.skip(self.buf_pos as int);
            let mut kept: Vec<u8> = Vec::new();
            let mut i = self.buf_pos;
            while i < self.buf.len()
                invariant
                    self.buf_pos <= i <= self.buf@.len(),
                    kept@ == self.buf@.subrange(self.buf_pos as int, i as int),
                decreases self.buf@.len() - i,
            {
                kept.push(self.buf[i]);
                i += 1;
            }
            assert(kept@ =~= rest);
            self.buf = kept;
            self.buf_pos = 0;
            assert(self.buf@.skip(0) =~= rest);
        }
    }

    /// Produce the next token, or ask for more bytes.
    ///
    /// A token that may go on in bytes that are still to come is not given
    /// before they are there.
    pub fn next_token(&mut self) -> (r: Pull)
        requires
            old(self).wf(),
        ensures
            final(self).wf(),
            final(self).dfa() == old(self).dfa(),
            r is More <==> needs_more(old(self).dfa(), old(self)@),
            r is More ==> final(self)@ == old(self)@,
            r matches Pull::Token(t) ==> t@ == next_lexed(old(self).dfa(), as_scan(old(self)@))
                && final(self)@ == (StreamView {
                pos: after_lexed(old(self).dfa(), as_scan(old(self)@)).pos,
                ..old(self)@
            }),
    {
        let left = self.buf.len() - self.buf_pos;
        let ghost got = self@.got;
        let ghost at = self@.pos as int;
        let ghost rest = self.buf@.skip(self.buf_pos as int);
        assert(got.skip(at) =~= rest);
        if !self.eof && left < STREAM_CHUNK {
            return Pull::More;
        }
        let start = self.pos();
        if left == 0 {
            let text = String::new();
            assert(text@ =~= Seq::<char>::empty());
            return Pull::Token(
                Token { kind: Some(TOKEN_EOF), span: Span::point(start), text, label: None },
            );
        }
        let mode = self.modes[self.modes.len() - 1];
        let m = self.matcher.longest_match(&self.buf, self.buf_pos, mode);
        if !self.eof && m.scanned == left {
            return Pull::More;
        }
        assert(got[at] == rest[0]);
        let n = if m.best_len > 0 {
            m.best_len
        } else {
            let c = utf8_char_len(self.buf[self.buf_pos]);
            if c <= left {
                c
            } else {
                left
            }
        };
        let text = lossy(slice_subrange(self.buf.as_slice(), self.buf_pos, self.buf_pos + n));
        assert(got.subrange(at, at + n) =~= self.buf@.subrange(
            self.buf_pos as int,
            self.buf_pos + n,
        ));
        self.consume(n);
        let kind = if m.best_len > 0 {
            m.best_kind
        } else {
            None
        };
        Pull::Token(Token { kind, span: Span::new(start, self.pos()), text, label: None })
    }

    /// Push a mode. From then on tokens are those of that mode.
    pub fn push_mode(&mut self, mode: u32)
        requires
            old(self).wf(),
        ensures
            final(self).wf(),
            final(self).dfa() == old(self).dfa(),
            final(self)@ == (StreamView { modes: old(self)@.modes.push(mode), ..old(self)@ }),
    {
        self.modes.push(mode);
    }

    /// Pop the topmost mode. The last one stays.
    pub fn pop_mode(&mut self)
        requires
            old(self).wf(),
        ensures
            final(self).wf(),
            final(self).dfa() == old(self).dfa(),
            final(self)@ == (StreamView { modes: popped(old(self)@.modes), ..old(self)@ }),
    {
        if self.modes.len() > 1 {
            self.modes.pop();
        }
    }

    /// How many modes are on the stack.
    pub fn mode_depth(&self) -> (n: usize)
        requires
            self.wf(),
        ensures
            n == self@.modes.len(),
            n > 0,
    {
        self.modes.len()
    }

    /// Pop modes until no more than `depth` are left. The last one stays.
    pub fn pop_modes_to(&mut self, depth: usize)
        requires
            old(self).wf(),
        ensures
            final(self).wf(),
            final(self).dfa() == old(self).dfa(),
            final(self)@ == (StreamView {
                modes: cut(old(self)@.modes, depth as nat),
                ..old(self)@
            }),
    {
        let ghost before = self.modes@;
        while self.modes.len() > depth && self.modes.len() > 1
            invariant
                self.wf(),
                self.buf == old(self).buf,
                self.buf_pos == old(self).buf_pos,
                self.eof == old(self).eof,
                self.seen == old(self).seen,
                self.matcher == old(self).matcher,
                before == old(self).modes@,
                0 < self.modes@.len() <= before.len(),
                self.modes@ == before.take(self.modes@.len() as int),
                depth > 0 && before.len() > depth ==> self.modes@.len() >= depth,
                before.len() <= depth ==> self.modes@.len() == before.len(),
            decreases self.modes@.len(),
        {
            self.modes.pop();
        }
        assert(self.modes@ =~= cut(before, depth as nat));
    }
}

/// What a parser needs of its lexer besides tokens: where it is in the text, and
/// its mode stack.
pub trait LexSource {
    /// The lexer can be asked.
    spec fn ready(&self) -> bool;

    /// What is there of the text, how much of it is behind, and the mode stack.
    spec fn scan(&self) -> ScanView;

    /// What no change of modes touches: the modes of the grammar, and whether
    /// all of the text is there.
    spec fn fixed(&self) -> (Vec<ModeInfo>, bool);

    /// Push a mode.
    fn enter_mode(&mut self, mode: u32)
        requires
            old(self).ready(),
        ensures
            final(self).ready(),
            final(self).fixed() == old(self).fixed(),
            final(self).scan() == (ScanView {
                modes: old(self).scan().modes.push(mode),
                ..old(self).scan()
            }),
    ;

    /// Pop the topmost mode. The last one stays.
    fn leave_mode(&mut self)
        requires
            old(self).ready(),
        ensures
            final(self).ready(),
            final(self).fixed() == old(self).fixed(),
            final(self).scan() == (ScanView {
                modes: popped(old(self).scan().modes),
                ..old(self).scan()
            }),
    ;

    /// How many modes are on the stack.
    fn depth(&self) -> (n: usize)
        requires
            self.ready(),
        ensures
            n == self.scan().modes.len(),
    ;

    /// Pop modes until no more than `depth` are left. The last one stays.
    fn cut_modes(&mut self, depth: usize)
        requires
            old(self).ready(),
        ensures
            final(self).ready(),
            final(self).fixed() == old(self).fixed(),
            final(self).scan() == (ScanView {
                modes: cut(old(self).scan().modes, depth as nat),
                ..old(self).scan()
            }),
    ;
}

impl<'t> LexSource for Scanner<TableMatcher<'t>> {
    open spec fn ready(&self) -> bool {
        self.wf()
    }

    open spec fn scan(&self) -> ScanView {
        self@
    }

    open spec fn fixed(&self) -> (Vec<ModeInfo>, bool) {
        (*self.dfa().modes, true)
    }

    fn enter_mode(&mut self, mode: u32) {
        self.push_mode(mode);
    }

    fn leave_mode(&mut self) {
        self.pop_mode();
    }

    fn depth(&self) -> (n: usize) {
        self.mode_depth()
    }

    fn cut_modes(&mut self, depth: usize) {
        self.pop_modes_to(depth);
    }
}

impl<'t> LexSource for StreamingLexer<TableMatcher<'t>> {
    open spec fn ready(&self) -> bool {
        self.wf()
    }

    open spec fn scan(&self) -> ScanView {
        as_scan(self@)
    }

    open spec fn fixed(&self) -> (Vec<ModeInfo>, bool) {
        (*self.dfa().modes, self@.eof)
    }

    fn enter_mode(&mut self, mode: u32) {
        self.push_mode(mode);
    }

    fn leave_mode(&mut self) {
        self.pop_mode();
    }

    fn depth(&self) -> (n: usize) {
        self.mode_depth()
    }

    fn cut_modes(&mut self, depth: usize) {
        self.pop_modes_to(depth);
    }
}

/// A scan that is stuck before the end of the bytes does not depend on what
/// follows them.
proof fn lemma_scan_extend(
    dfa: Seq<DfaState>,
    id: u32,
    rest: Seq<u8>,
    more: Seq<u8>,
    at: nat,
    best: (nat, Option<u16>),
)
    requires
        at <= rest.len(),
        scan(dfa, id, rest, at, best).2 < rest.len(),
    ensures
        scan(dfa, id, rest + more, at, best) == scan(dfa, id, rest, at, best),
    decreases rest.len() - at,
{
    if at < rest.len() {
        assert((rest + more)[at as int] == rest[at as int]);
        let next = dfa[id - 1].next(rest[at as int]);
        if next != DEAD {
            let accept = dfa[next - 1].accept;
            let best2 = if accept is Some {
                (at + 1, accept)
            } else {
                best
            };
            lemma_scan_extend(dfa, next, rest, more, at + 1, best2);
        }
    }
}

/// A token that a fed lexer gives before the end of input is the one that a
/// scanner gives on the whole input, whatever bytes are still to come.
pub proof fn law_streaming_agrees(matcher: TableMatcher, s: StreamView, more: Seq<u8>)
    requires
        s.pos <= s.got.len(),
        !s.eof,
        !needs_more(matcher, s),
    ensures
        next_lexed(
            matcher,
            ScanView { buf: s.got + more, pos: s.pos, modes: s.modes },
        ) == next_lexed(matcher, as_scan(s)),
        after_lexed(
            matcher,
            ScanView { buf: s.got + more, pos: s.pos, modes: s.modes },
        ).pos == after_lexed(matcher, as_scan(s)).pos,
{
    let rest = s.got.skip(s.pos as int);
    let all = s.got + more;
    assert(all.skip(s.pos as int) =~= rest + more);
    let mode = s.modes.last();
    let len = matcher.matched(rest, mode).0;
    if (mode as int) < matcher.modes@.len() {
        let dfa = matcher.modes@[mode as int].dfa@;
        lemma_scan_stops(dfa, START, rest, 0, (0, None));
        lemma_scan_extend(dfa, START, rest, more, 0, (0, None));
    }
    let at = s.pos as int;
    let n = token_len(s.got, at, len);
    assert(all[at] == s.got[at]);
    assert(all.subrange(at, at + n) =~= s.got.subrange(at, at + n));
    assert(all.take(at) =~= s.got.take(at));
    assert(all.take(at + n) =~= s.got.take(at + n));
}

/// A scan ends within the bytes, and what it found lies before its end.
proof fn lemma_scan_stops(
    dfa: Seq<DfaState>,
    id: u32,
    rest: Seq<u8>,
    at: nat,
    best: (nat, Option<u16>),
)
    requires
        at <= rest.len(),
        best.0 <= at,
    ensures
        at <= scan(dfa, id, rest, at, best).2 <= rest.len(),
        scan(dfa, id, rest, at, best).0 <= scan(dfa, id, rest, at, best).2,
    decreases rest.len() - at,
{
    if at < rest.len() {
        let next = dfa[id - 1].next(rest[at as int]);
        if next != DEAD {
            let accept = dfa[next - 1].accept;
            let best2 = if accept is Some {
                (at + 1, accept)
            } else {
                best
            };
            lemma_scan_stops(dfa, next, rest, at + 1, best2);
        }
    }
}

} // verus!
