//! Walking the events of a parse of a grammar file.
use vstd::prelude::*;

use crate::grammar::literal;
use crate::grammar::syntax::{RuleKind, SyntaxEvent, SyntaxToken, SyntaxView, TokenKind};
use crate::runtime::events::{self, Error, ErrorView, Event, EventView, RuleKindEnum, Token, TokenView};
use crate::span::{self, Span};
use crate::text;

verus! {

/// A token of a grammar file, as the contracts see it.
pub type TokView = TokenView<TokenKind, ()>;

/// Where an event is.
pub open spec fn event_span(e: SyntaxView) -> Span {
    match e {
        EventView::Enter(_, pos) => Span { start: pos, end: pos },
        EventView::Exit(_, pos) => Span { start: pos, end: pos },
        EventView::Token(t) => t.span,
        EventView::Garbage(t) => t.span,
        EventView::Error(x) => x.span,
    }
}

/// Blanks and comments.
pub open spec fn trivial(e: SyntaxView) -> bool {
    e matches EventView::Token(t) && (t.kind == Some(TokenKind::Ws) || t.kind == Some(
        TokenKind::Comment,
    ))
}

/// The events without blanks and comments.
pub open spec fn significant(l: Seq<SyntaxView>) -> Seq<SyntaxView>
    decreases l.len(),
{
    if l.len() == 0 {
        l
    } else if trivial(l.last()) {
        significant(l.drop_last())
    } else {
        significant(l.drop_last()).push(l.last())
    }
}

/// What a [`Reader`] holds: the events, how many of them are behind, and what
/// has been found wrong.
pub ghost struct ReadView {
    pub events: Seq<SyntaxView>,
    pub pos: nat,
    pub issues: Seq<ErrorView>,
}

/// How many events are left.
pub open spec fn left(s: ReadView) -> nat {
    if s.pos < s.events.len() {
        (s.events.len() - s.pos) as nat
    } else {
        0
    }
}

/// The next event.
pub open spec fn peeked(s: ReadView) -> Option<SyntaxView> {
    if s.pos < s.events.len() {
        Some(s.events[s.pos as int])
    } else {
        None
    }
}

/// Behind the next event.
pub open spec fn stepped(s: ReadView) -> ReadView {
    if s.pos < s.events.len() {
        ReadView { pos: s.pos + 1, ..s }
    } else {
        s
    }
}

/// With an issue more.
pub open spec fn said(s: ReadView, message: Seq<char>, span: Span) -> ReadView {
    ReadView { issues: s.issues.push(ErrorView { message, span }), ..s }
}

/// The rule that the next event enters.
pub open spec fn entered(s: ReadView) -> Option<RuleKind> {
    match peeked(s) {
        Some(EventView::Enter(r, _)) => Some(r),
        _ => None,
    }
}

/// Where the next event is.
pub open spec fn place(s: ReadView) -> Span {
    match peeked(s) {
        Some(e) => event_span(e),
        None => span::default_span(),
    }
}

/// Behind the mark that enters the rule, which must come next.
pub open spec fn entering(s: ReadView, want: RuleKind) -> ReadView {
    if entered(s) == Some(want) {
        stepped(s)
    } else {
        said(s, "expected Enter("@ + want.name_view() + ")"@, place(s))
    }
}

/// Behind the mark that exits the rule, which must come next.
pub open spec fn exiting(s: ReadView, want: RuleKind) -> ReadView {
    match peeked(s) {
        Some(EventView::Exit(r, _)) if r == want => stepped(s),
        _ => said(s, "expected Exit("@ + want.name_view() + ")"@, place(s)),
    }
}

/// A token that is not there.
pub open spec fn no_token(kind: Option<TokenKind>, span: Span) -> TokView {
    TokenView { kind, span, text: Seq::empty(), label: None }
}

/// The next token and what is behind it. Errors on the way are kept, tokens
/// that recovery passed over are not, and at a mark there is no token.
pub open spec fn token_next(s: ReadView) -> (ReadView, TokView)
    decreases left(s),
{
    match peeked(s) {
        None => (s, no_token(Some(TokenKind::Eof), span::default_span())),
        Some(EventView::Token(t)) => (stepped(s), t),
        Some(EventView::Error(x)) => token_next(
            ReadView { issues: s.issues.push(x), ..stepped(s) },
        ),
        Some(EventView::Garbage(_)) => token_next(stepped(s)),
        Some(e) => (
            said(stepped(s), "expected a token, got a structural mark"@, event_span(e)),
            no_token(None, event_span(e)),
        ),
    }
}

/// The next event is a token of the kind.
pub open spec fn at_token(s: ReadView, kind: TokenKind) -> bool {
    match peeked(s) {
        Some(EventView::Token(t)) => t.kind == Some(kind),
        _ => false,
    }
}

/// Behind a token of the kind, if it comes next.
pub open spec fn eaten(s: ReadView, kind: TokenKind) -> ReadView {
    if at_token(s, kind) {
        stepped(s)
    } else {
        s
    }
}

/// Behind the mark that exits the rule as often as it was entered.
pub open spec fn skipped_over(s: ReadView, kind: RuleKind, depth: nat) -> ReadView
    decreases left(s),
{
    if depth == 0 {
        s
    } else {
        match peeked(s) {
            None => s,
            Some(EventView::Enter(r, _)) if r == kind => skipped_over(
                stepped(s),
                kind,
                depth + 1,
            ),
            Some(EventView::Exit(r, _)) if r == kind => skipped_over(
                stepped(s),
                kind,
                (depth - 1) as nat,
            ),
            Some(_) => skipped_over(stepped(s), kind, depth),
        }
    }
}

/// Behind the whole rule.
pub open spec fn skipped_rule(s: ReadView, kind: RuleKind) -> ReadView {
    skipped_over(entering(s, kind), kind, 1)
}

/// `b` is `a` or further on in the same events.
pub open spec fn onward(a: ReadView, b: ReadView) -> bool {
    a.events == b.events && a.pos <= b.pos && left(b) <= left(a)
}

pub proof fn lemma_token_onward(s: ReadView)
    ensures
        onward(s, token_next(s).0),
    decreases left(s),
{
    match peeked(s) {
        Some(EventView::Error(x)) => {
            lemma_token_onward(ReadView { issues: s.issues.push(x), ..stepped(s) });
        },
        Some(EventView::Garbage(_)) => {
            lemma_token_onward(stepped(s));
        },
        _ => {},
    }
}

/// Copies a token.
pub(crate) fn copy_token(t: &SyntaxToken) -> (r: SyntaxToken)
    ensures
        r@ == t@,
{
    Token { kind: t.kind, span: t.span, text: t.text.clone(), label: t.label }
}

/// Walks the events.
pub struct Reader {
    events: Vec<SyntaxEvent>,
    pos: usize,
    issues: Vec<Error>,
}

impl Reader {
    /// What the reader holds.
    pub closed spec fn view(self) -> ReadView {
        ReadView {
            events: events::events_view(self.events@),
            pos: self.pos as nat,
            issues: events::errors_view(self.issues@),
        }
    }

    /// The reader is within its events.
    pub closed spec fn wf(self) -> bool {
        self.pos <= self.events@.len()
    }

    /// A reader at the beginning of the events. Blanks and comments are left
    /// out.
    pub fn new(all: Vec<SyntaxEvent>) -> (r: Self)
        ensures
            r.wf(),
            r@ == (ReadView {
                events: significant(events::events_view(all@)),
                pos: 0,
                issues: Seq::empty(),
            }),
    {
        let ghost lv = events::events_view(all@);
        let mut kept: Vec<SyntaxEvent> = Vec::new();
        assert(events::events_view(kept@) =~= significant(lv.take(0)));
        for e in it: all
            invariant
                it.seq() == all@,
                lv == events::events_view(all@),
                events::events_view(kept@) == significant(lv.take(it.index())),
        {
            let ghost n = it.index();
            assert(lv.take(n + 1).drop_last() =~= lv.take(n));
            assert(lv.take(n + 1).last() == lv[n]);
            assert(lv[n] == e@);
            let skip = match &e {
                Event::Token(t) => t.kind == Some(TokenKind::Ws) || t.kind == Some(
                    TokenKind::Comment,
                ),
                _ => false,
            };
            assert(skip == trivial(e@));
            if !skip {
                let ghost before = events::events_view(kept@);
                let ghost ev = e@;
                kept.push(e);
                assert(events::events_view(kept@) =~= before.push(ev));
            }
        }
        assert(lv.take(lv.len() as int) =~= lv);
        let r = Reader { events: kept, pos: 0, issues: Vec::new() };
        assert(r@.issues =~= Seq::empty());
        r
    }

    /// What has been found wrong.
    pub fn into_issues(self) -> (r: Vec<Error>)
        ensures
            events::errors_view(r@) == self@.issues,
    {
        self.issues
    }

    /// Has anything been found wrong?
    pub fn has_issues(&self) -> (r: bool)
        ensures
            r == (self@.issues.len() > 0),
    {
        self.issues.len() > 0
    }

    /// The next event.
    pub(crate) fn peek(&self) -> (r: Option<&SyntaxEvent>)
        requires
            self.wf(),
        ensures
            match r {
                Some(e) => peeked(self@) == Some(e@),
                None => peeked(self@) is None,
            },
    {
        if self.pos < self.events.len() {
            assert(self@.events[self.pos as int] == self.events@[self.pos as int]@);
            Some(&self.events[self.pos])
        } else {
            None
        }
    }

    /// Go behind the next event.
    pub(crate) fn advance(&mut self)
        requires
            old(self).wf(),
        ensures
            final(self).wf(),
            final(self)@ == stepped(old(self)@),
    {
        if self.pos < self.events.len() {
            self.pos = self.pos + 1;
        }
    }

    /// Report an issue.
    pub(crate) fn say(&mut self, message: String, span: Span)
        requires
            old(self).wf(),
        ensures
            final(self).wf(),
            final(self)@ == said(old(self)@, message@, span),
    {
        literal::report(&mut self.issues, message, span);
    }

    /// The rule that the next event enters.
    pub(crate) fn peek_enter(&self) -> (r: Option<RuleKind>)
        requires
            self.wf(),
        ensures
            r == entered(self@),
    {
        match self.peek() {
            Some(Event::Enter { rule, pos: _ }) => Some(*rule),
            _ => None,
        }
    }

    /// Where the next event is.
    pub(crate) fn place(&self) -> (r: Span)
        requires
            self.wf(),
        ensures
            r == place(self@),
    {
        match self.peek() {
            Some(e) => match e {
                Event::Enter { rule: _, pos } => Span::point(*pos),
                Event::Exit { rule: _, pos } => Span::point(*pos),
                Event::Token(t) => t.span,
                Event::Garbage(t) => t.span,
                Event::Error(x) => x.span,
            },
            None => Span::default(),
        }
    }

    /// Go behind the mark that enters the rule.
    pub(crate) fn expect_enter(&mut self, want: RuleKind)
        requires
            old(self).wf(),
        ensures
            final(self).wf(),
            final(self)@ == entering(old(self)@, want),
            onward(old(self)@, final(self)@),
    {
        if self.peek_enter() == Some(want) {
            self.advance();
            return;
        }
        let at = self.place();
        self.say(text::concat3("expected Enter(", want.name(), ")"), at);
    }

    /// Go behind the mark that exits the rule.
    pub(crate) fn expect_exit(&mut self, want: RuleKind)
        requires
            old(self).wf(),
        ensures
            final(self).wf(),
            final(self)@ == exiting(old(self)@, want),
            onward(old(self)@, final(self)@),
    {
        let hit = match self.peek() {
            Some(Event::Exit { rule, pos: _ }) => *rule == want,
            _ => false,
        };
        if hit {
            self.advance();
            return;
        }
        let at = self.place();
        self.say(text::concat3("expected Exit(", want.name(), ")"), at);
    }

    /// The next token.
    pub(crate) fn next_token(&mut self) -> (t: SyntaxToken)
        requires
            old(self).wf(),
        ensures
            final(self).wf(),
            (final(self)@, t@) == token_next(old(self)@),
            onward(old(self)@, final(self)@),
    {
        let ghost start = self@;
        while self.pos < self.events.len()
            invariant
                self.wf(),
                start == old(self)@,
                token_next(start) == token_next(self@),
                onward(start, self@),
            decreases left(self@),
        {
            let ghost before = self@;
            assert(self@.events[self.pos as int] == self.events@[self.pos as int]@);
            let at = self.pos;
            self.pos = self.pos + 1;
            match &self.events[at] {
                Event::Token(t) => {
                    return copy_token(t);
                },
                Event::Garbage(_) => {},
                Event::Error(x) => {
                    let e = Error { message: x.message.clone(), span: x.span };
                    let ghost xv = x@;
                    self.issues.push(e);
                    assert(self@.issues =~= before.issues.push(xv));
                },
                Event::Enter { rule: _, pos } => {
                    let span = Span::point(*pos);
                    self.say("expected a token, got a structural mark".to_owned(), span);
                    let text = String::new();
                    assert(text@ =~= Seq::<char>::empty());
                    return Token { kind: None, span, text, label: None };
                },
                Event::Exit { rule: _, pos } => {
                    let span = Span::point(*pos);
                    self.say("expected a token, got a structural mark".to_owned(), span);
                    let text = String::new();
                    assert(text@ =~= Seq::<char>::empty());
                    return Token { kind: None, span, text, label: None };
                },
            }
        }
        let text = String::new();
        assert(text@ =~= Seq::<char>::empty());
        Token { kind: Some(TokenKind::Eof), span: Span::default(), text, label: None }
    }

    /// Is the next event a token of the kind?
    pub(crate) fn is_at(&self, kind: TokenKind) -> (r: bool)
        requires
            self.wf(),
        ensures
            r == at_token(self@, kind),
    {
        match self.peek() {
            Some(Event::Token(t)) => t.kind == Some(kind),
            _ => false,
        }
    }

    /// Go behind a token of the kind, if it comes next.
    pub(crate) fn eat_token(&mut self, kind: TokenKind) -> (r: bool)
        requires
            old(self).wf(),
        ensures
            final(self).wf(),
            r == at_token(old(self)@, kind),
            final(self)@ == eaten(old(self)@, kind),
            onward(old(self)@, final(self)@),
    {
        if self.is_at(kind) {
            self.advance();
            true
        } else {
            false
        }
    }

    /// Go behind the whole rule.
    pub(crate) fn skip_until_exit(&mut self, kind: RuleKind)
        requires
            old(self).wf(),
        ensures
            final(self).wf(),
            final(self)@ == skipped_rule(old(self)@, kind),
            onward(old(self)@, final(self)@),
    {
        let ghost first = self@;
        self.expect_enter(kind);
        let ghost start = self@;
        let mut depth: u128 = 1;
        assert(self.events.len() == self.events@.len());
        while depth > 0 && self.pos < self.events.len()
            invariant
                self.wf(),
                onward(first, self@),
                depth <= self.pos + 1,
                self.events@.len() <= usize::MAX,
                skipped_over(start, kind, 1) == skipped_over(self@, kind, depth as nat),
            decreases left(self@),
        {
            assert(self@.events[self.pos as int] == self.events@[self.pos as int]@);
            match &self.events[self.pos] {
                Event::Enter { rule, pos: _ } => if *rule == kind {
                    depth += 1;
                },
                Event::Exit { rule, pos: _ } => if *rule == kind {
                    depth -= 1;
                },
                _ => {},
            }
            self.pos = self.pos + 1;
        }
    }

    /// The codepoint of a character literal.
    pub(crate) fn unquote_char(&mut self, lit: &str, span: Span) -> (r: u32)
        requires
            old(self).wf(),
        ensures
            final(self).wf(),
            r == literal::char_literal(lit@).0,
            final(self)@ == (ReadView {
                issues: old(self)@.issues + literal::issues_at(
                    literal::one_message(literal::char_literal(lit@).1),
                    span,
                ),
                ..old(self)@
            }),
    {
        literal::unquote_char(lit, span, &mut self.issues)
    }

    /// The text of a string literal.
    pub(crate) fn unquote_string(&mut self, lit: &str, span: Span) -> (r: String)
        requires
            old(self).wf(),
        ensures
            final(self).wf(),
            r@ == literal::string_literal(lit@).0,
            final(self)@ == (ReadView {
                issues: old(self)@.issues + literal::issues_at(
                    literal::string_literal(lit@).1,
                    span,
                ),
                ..old(self)@
            }),
    {
        literal::unquote_string(lit, span, &mut self.issues)
    }
}

} // verus!
