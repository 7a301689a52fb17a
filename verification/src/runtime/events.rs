//! Tokens, events and errors.
use vstd::prelude::*;

use crate::span::{self, Pos, Span};
use crate::text;

verus! {

/// Token-kind id reserved for the end of input. Real token kinds start at 1.
pub const TOKEN_EOF: u16 = 0;

/// The token kinds of a grammar.
pub trait TokenKindEnum: Copy {
    /// The grammar-defined name.
    spec fn name_view(self) -> Seq<char>;

    /// The grammar-defined name of this kind.
    fn name(self) -> (r: &'static str)
        ensures
            r@ == self.name_view(),
    ;

    /// The kind that marks the end of input.
    spec fn eof_view() -> Self;

    /// The kind that marks the end of input.
    fn eof() -> (r: Self)
        ensures
            r == Self::eof_view(),
    ;
}

/// The rule kinds of a grammar: one for each rule that is no fragment.
pub trait RuleKindEnum: Copy {
    /// The grammar-defined name.
    spec fn name_view(self) -> Seq<char>;

    /// The grammar-defined name of this rule.
    fn name(self) -> (r: &'static str)
        ensures
            r@ == self.name_view(),
    ;
}

/// The labels of a grammar.
pub trait LabelKindEnum: Sized {
    /// The grammar-defined name.
    spec fn name_view(self) -> Seq<char>;

    /// The grammar-defined name of this label.
    fn name(self) -> (r: &'static str)
        ensures
            r@ == self.name_view(),
    ;
}

/// A grammar without labels.
impl LabelKindEnum for () {
    open spec fn name_view(self) -> Seq<char> {
        ""@
    }

    fn name(self) -> (r: &'static str) {
        ""
    }
}

/// A lexed token: kind, source span, and the matched text.
#[derive(Debug, PartialEq, Eq)]
pub struct Token<TK, LK> {
    /// What the lexer took it for, or `None` if no token pattern matched.
    pub kind: Option<TK>,
    /// Source span covered by the matched text.
    pub span: Span,
    /// The matched source text.
    pub text: String,
    /// Label of the grammar position that took the token, if it has one.
    pub label: Option<LK>,
}

/// What a [`Token`] says.
pub ghost struct TokenView<TK, LK> {
    pub kind: Option<TK>,
    pub span: Span,
    pub text: Seq<char>,
    pub label: Option<LK>,
}

impl<TK, LK> Token<TK, LK> {
    /// What the token says.
    pub open spec fn view(self) -> TokenView<TK, LK> {
        TokenView { kind: self.kind, span: self.span, text: self.text@, label: self.label }
    }
}

/// What the tokens say.
pub open spec fn tokens_view<TK, LK>(v: Seq<Token<TK, LK>>) -> Seq<TokenView<TK, LK>> {
    Seq::new(v.len(), |i: int| v[i]@)
}

/// A single event of a parse.
///
/// A parse is a flat sequence of `Enter`/`Exit` marks around the subtree of
/// each rule, with the tokens of the input and the errors between them.
#[derive(Debug)]
pub enum Event<TK, RK, LK> {
    /// Opens the subtree of a rule, at the start of its first child.
    Enter { rule: RK, pos: Pos },
    /// Closes the subtree of a rule, at the end of its last child.
    Exit { rule: RK, pos: Pos },
    /// A token of the input.
    Token(Token<TK, LK>),
    /// A token that recovery passed over.
    Garbage(Token<TK, LK>),
    /// A recoverable error.
    Error(Error),
}

/// What an [`Event`] says.
pub ghost enum EventView<TK, RK, LK> {
    Enter(RK, Pos),
    Exit(RK, Pos),
    Token(TokenView<TK, LK>),
    Garbage(TokenView<TK, LK>),
    Error(ErrorView),
}

impl<TK, RK, LK> Event<TK, RK, LK> {
    /// What the event says.
    pub open spec fn view(self) -> EventView<TK, RK, LK> {
        match self {
            Event::Enter { rule, pos } => EventView::Enter(rule, pos),
            Event::Exit { rule, pos } => EventView::Exit(rule, pos),
            Event::Token(t) => EventView::Token(t@),
            Event::Garbage(t) => EventView::Garbage(t@),
            Event::Error(e) => EventView::Error(e@),
        }
    }
}

/// What the events say.
pub open spec fn events_view<TK, RK, LK>(v: Seq<Event<TK, RK, LK>>) -> Seq<EventView<TK, RK, LK>> {
    Seq::new(v.len(), |i: int| v[i]@)
}

/// A recoverable diagnostic produced while parsing.
#[derive(Debug, PartialEq, Eq)]
pub struct Error {
    /// Human-readable description of the problem.
    pub message: String,
    /// Where it was raised.
    pub span: Span,
}

/// What an [`Error`] says.
pub ghost struct ErrorView {
    pub message: Seq<char>,
    pub span: Span,
}

/// What the errors say.
pub open spec fn errors_view(v: Seq<Error>) -> Seq<ErrorView> {
    Seq::new(v.len(), |i: int| v[i]@)
}

/// The text of an error, with its place in lines and columns.
pub open spec fn rendered(e: ErrorView) -> Seq<char> {
    let (a, b) = (e.span.start, e.span.end);
    let from = text::decimal(a.line as nat) + ":"@ + text::decimal(a.column as nat);
    let to = text::decimal(b.line as nat) + ":"@ + text::decimal(b.column as nat);
    let place = if a == b {
        from
    } else {
        from + "-"@ + to
    };
    "error["@ + place + "]: "@ + e.message
}

impl Error {
    /// What the error says.
    pub open spec fn view(self) -> ErrorView {
        ErrorView { message: self.message@, span: self.span }
    }

    /// Construct an error with the given message and a default (all-zero) span.
    pub fn new(msg: String) -> (r: Self)
        ensures
            r.message == msg,
            r.span == span::default_span(),
    {
        Error { message: msg, span: Span::default() }
    }

    /// Builder: attach a source span to the error.
    pub fn at(self, span: Span) -> (r: Self)
        ensures
            r.message == self.message,
            r.span == span,
    {
        Error { message: self.message, span }
    }

    /// The error as one line of text: place and message.
    pub fn render(&self) -> (r: String)
        ensures
            r@ == rendered(self@),
    {
        let mut r = "error[".to_owned();
        let (s, e) = (self.span.start, self.span.end);
        text::push_decimal(&mut r, s.line as u128);
        r.append(":");
        text::push_decimal(&mut r, s.column as u128);
        if s != e {
            r.append("-");
            text::push_decimal(&mut r, e.line as u128);
            r.append(":");
            text::push_decimal(&mut r, e.column as u128);
        }
        r.append("]: ");
        r.append(self.message.as_str());
        assert(r@ =~= rendered(self@));
        r
    }
}

} // verus!
