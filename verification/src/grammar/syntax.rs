//! The notation that grammars are written in, as a grammar.
//!
//! The notation is described by a [`Grammar`] of its own, which can be analyzed
//! and lowered like any other; reading a file is running the state table that
//! comes out, which [`notation`](crate::grammar::notation) keeps.
use vstd::prelude::*;

use crate::grammar::ir::{
    self, CharClass, ClassItem, ClassView, Expr, ExprView, Grammar, ModeAction, PatternView,
    RuleDef, RuleView, TokenDef, TokenPattern, TokenView,
};
use crate::lowering::table::StateTable;
use crate::names::{self, Rank};
use crate::runtime::events::{self, Event, EventView, RuleKindEnum, Token, TokenKindEnum};
use crate::runtime::lexer::{self, TableMatcher};
use crate::runtime::parser::{self, EmitSkips, Parser, RawEvent};
use crate::span::{self, Span};

verus! {

/// The tokens of the notation.
#[derive(Clone, Copy, Debug, PartialEq, Eq, Structural)]
pub enum TokenKind {
    /// The end of the file.
    Eof,
    /// A name.
    Ident,
    /// A name with a colon behind it.
    Label,
    /// A string in double quotes.
    Str,
    /// A character in single quotes.
    Char,
    /// `@`
    At,
    /// `(`
    Lparen,
    /// `)`
    Rparen,
    /// `,`
    Comma,
    /// `|`
    Pipe,
    /// `?`
    Question,
    /// `*`
    Star,
    /// `+`
    Plus,
    /// `.`
    Dot,
    /// `..`
    Dotdot,
    /// `!`
    Bang,
    /// `=`
    Equals,
    /// `;`
    Semi,
    /// `->`
    Arrow,
    /// Blanks and line breaks.
    Ws,
    /// `//` up to the end of the line.
    Comment,
}

/// The rules of the notation.
#[derive(Clone, Copy, Debug, PartialEq, Eq, Structural)]
pub enum RuleKind {
    /// A whole file.
    File,
    /// A declaration with what stands before it.
    Item,
    /// `@mode(..)`
    ModePre,
    /// A declaration.
    Decl,
    /// `-> ..`
    Actions,
    /// One action.
    Action,
    /// `(..)` behind an action.
    ActionArg,
    /// Alternatives.
    AltExpr,
    /// A sequence.
    SeqExpr,
    /// A name, a string, characters.
    Atom,
    /// `( .. )`
    Group,
    /// A character, a range, or `.`
    CharPrimary,
    /// `!` and what it negates.
    NegClass,
}

impl TokenKindEnum for TokenKind {
    open spec fn name_view(self) -> Seq<char> {
        match self {
            TokenKind::Eof => "EOF"@,
            TokenKind::Ident => "IDENT"@,
            TokenKind::Label => "LABEL"@,
            TokenKind::Str => "STRING"@,
            TokenKind::Char => "CHAR"@,
            TokenKind::At => "AT"@,
            TokenKind::Lparen => "LPAREN"@,
            TokenKind::Rparen => "RPAREN"@,
            TokenKind::Comma => "COMMA"@,
            TokenKind::Pipe => "PIPE"@,
            TokenKind::Question => "QUESTION"@,
            TokenKind::Star => "STAR"@,
            TokenKind::Plus => "PLUS"@,
            TokenKind::Dot => "DOT"@,
            TokenKind::Dotdot => "DOTDOT"@,
            TokenKind::Bang => "BANG"@,
            TokenKind::Equals => "EQ"@,
            TokenKind::Semi => "SEMI"@,
            TokenKind::Arrow => "ARROW"@,
            TokenKind::Ws => "WS"@,
            TokenKind::Comment => "COMMENT"@,
        }
    }

    fn name(self) -> (r: &'static str) {
        match self {
            TokenKind::Eof => "EOF",
            TokenKind::Ident => "IDENT",
            TokenKind::Label => "LABEL",
            TokenKind::Str => "STRING",
            TokenKind::Char => "CHAR",
            TokenKind::At => "AT",
            TokenKind::Lparen => "LPAREN",
            TokenKind::Rparen => "RPAREN",
            TokenKind::Comma => "COMMA",
            TokenKind::Pipe => "PIPE",
            TokenKind::Question => "QUESTION",
            TokenKind::Star => "STAR",
            TokenKind::Plus => "PLUS",
            TokenKind::Dot => "DOT",
            TokenKind::Dotdot => "DOTDOT",
            TokenKind::Bang => "BANG",
            TokenKind::Equals => "EQ",
            TokenKind::Semi => "SEMI",
            TokenKind::Arrow => "ARROW",
            TokenKind::Ws => "WS",
            TokenKind::Comment => "COMMENT",
        }
    }

    open spec fn eof_view() -> Self {
        TokenKind::Eof
    }

    fn eof() -> (r: Self) {
        TokenKind::Eof
    }
}

impl RuleKindEnum for RuleKind {
    open spec fn name_view(self) -> Seq<char> {
        match self {
            RuleKind::File => "file"@,
            RuleKind::Item => "item"@,
            RuleKind::ModePre => "mode_pre"@,
            RuleKind::Decl => "decl"@,
            RuleKind::Actions => "actions"@,
            RuleKind::Action => "action"@,
            RuleKind::ActionArg => "action_arg"@,
            RuleKind::AltExpr => "alt_expr"@,
            RuleKind::SeqExpr => "seq_expr"@,
            RuleKind::Atom => "atom"@,
            RuleKind::Group => "group"@,
            RuleKind::CharPrimary => "char_primary"@,
            RuleKind::NegClass => "neg_class"@,
        }
    }

    fn name(self) -> (r: &'static str) {
        match self {
            RuleKind::File => "file",
            RuleKind::Item => "item",
            RuleKind::ModePre => "mode_pre",
            RuleKind::Decl => "decl",
            RuleKind::Actions => "actions",
            RuleKind::Action => "action",
            RuleKind::ActionArg => "action_arg",
            RuleKind::AltExpr => "alt_expr",
            RuleKind::SeqExpr => "seq_expr",
            RuleKind::Atom => "atom",
            RuleKind::Group => "group",
            RuleKind::CharPrimary => "char_primary",
            RuleKind::NegClass => "neg_class",
        }
    }
}

/// The token with the kind id.
pub open spec fn token_of(id: u16) -> Option<TokenKind> {
    match id {
        0 => Some(TokenKind::Eof),
        1 => Some(TokenKind::Ident),
        2 => Some(TokenKind::Label),
        3 => Some(TokenKind::Str),
        4 => Some(TokenKind::Char),
        5 => Some(TokenKind::At),
        6 => Some(TokenKind::Lparen),
        7 => Some(TokenKind::Rparen),
        8 => Some(TokenKind::Comma),
        9 => Some(TokenKind::Pipe),
        10 => Some(TokenKind::Question),
        11 => Some(TokenKind::Star),
        12 => Some(TokenKind::Plus),
        13 => Some(TokenKind::Dot),
        14 => Some(TokenKind::Dotdot),
        15 => Some(TokenKind::Bang),
        16 => Some(TokenKind::Equals),
        17 => Some(TokenKind::Semi),
        18 => Some(TokenKind::Arrow),
        19 => Some(TokenKind::Ws),
        20 => Some(TokenKind::Comment),
        _ => None,
    }
}

/// The rule with the kind id; a whole file if there is none.
pub open spec fn rule_of(id: u16) -> RuleKind {
    match id {
        1 => RuleKind::Item,
        2 => RuleKind::ModePre,
        3 => RuleKind::Decl,
        4 => RuleKind::Actions,
        5 => RuleKind::Action,
        6 => RuleKind::ActionArg,
        7 => RuleKind::AltExpr,
        8 => RuleKind::SeqExpr,
        9 => RuleKind::Atom,
        10 => RuleKind::Group,
        11 => RuleKind::CharPrimary,
        12 => RuleKind::NegClass,
        _ => RuleKind::File,
    }
}

/// The token with the kind id.
fn token_kind(id: u16) -> (r: Option<TokenKind>)
    ensures
        r == token_of(id),
{
    match id {
        0 => Some(TokenKind::Eof),
        1 => Some(TokenKind::Ident),
        2 => Some(TokenKind::Label),
        3 => Some(TokenKind::Str),
        4 => Some(TokenKind::Char),
        5 => Some(TokenKind::At),
        6 => Some(TokenKind::Lparen),
        7 => Some(TokenKind::Rparen),
        8 => Some(TokenKind::Comma),
        9 => Some(TokenKind::Pipe),
        10 => Some(TokenKind::Question),
        11 => Some(TokenKind::Star),
        12 => Some(TokenKind::Plus),
        13 => Some(TokenKind::Dot),
        14 => Some(TokenKind::Dotdot),
        15 => Some(TokenKind::Bang),
        16 => Some(TokenKind::Equals),
        17 => Some(TokenKind::Semi),
        18 => Some(TokenKind::Arrow),
        19 => Some(TokenKind::Ws),
        20 => Some(TokenKind::Comment),
        _ => None,
    }
}

/// The rule with the kind id.
fn rule_kind(id: u16) -> (r: RuleKind)
    ensures
        r == rule_of(id),
{
    match id {
        1 => RuleKind::Item,
        2 => RuleKind::ModePre,
        3 => RuleKind::Decl,
        4 => RuleKind::Actions,
        5 => RuleKind::Action,
        6 => RuleKind::ActionArg,
        7 => RuleKind::AltExpr,
        8 => RuleKind::SeqExpr,
        9 => RuleKind::Atom,
        10 => RuleKind::Group,
        11 => RuleKind::CharPrimary,
        12 => RuleKind::NegClass,
        _ => RuleKind::File,
    }
}

/// An event of a parse of a grammar file.
pub type SyntaxEvent = Event<TokenKind, RuleKind, ()>;

/// What a [`SyntaxEvent`] says.
pub type SyntaxView = EventView<TokenKind, RuleKind, ()>;

/// A token of a grammar file.
pub type SyntaxToken = Token<TokenKind, ()>;

/// A token with its kind named. The notation has no labels.
pub open spec fn named_token(t: events::TokenView<u16, u16>) -> events::TokenView<TokenKind, ()> {
    events::TokenView {
        kind: match t.kind {
            Some(k) => token_of(k),
            None => None,
        },
        span: t.span,
        text: t.text,
        label: None,
    }
}

/// An event with its kinds named.
pub open spec fn named(e: EventView<u16, u16, u16>) -> SyntaxView {
    match e {
        EventView::Enter(r, pos) => EventView::Enter(rule_of(r), pos),
        EventView::Exit(r, pos) => EventView::Exit(rule_of(r), pos),
        EventView::Token(t) => EventView::Token(named_token(t)),
        EventView::Garbage(t) => EventView::Garbage(named_token(t)),
        EventView::Error(x) => EventView::Error(x),
    }
}

/// Events with their kinds named.
pub open spec fn all_named(l: Seq<EventView<u16, u16, u16>>) -> Seq<SyntaxView> {
    Seq::new(l.len(), |i: int| named(l[i]))
}

fn name_token(t: Token<u16, u16>) -> (r: SyntaxToken)
    ensures
        r@ == named_token(t@),
{
    let kind = match t.kind {
        Some(k) => token_kind(k),
        None => None,
    };
    Token { kind, span: t.span, text: t.text, label: None }
}

fn name_event(e: RawEvent) -> (r: SyntaxEvent)
    ensures
        r@ == named(e@),
{
    match e {
        Event::Enter { rule, pos } => Event::Enter { rule: rule_kind(rule), pos },
        Event::Exit { rule, pos } => Event::Exit { rule: rule_kind(rule), pos },
        Event::Token(t) => Event::Token(name_token(t)),
        Event::Garbage(t) => Event::Garbage(name_token(t)),
        Event::Error(x) => Event::Error(x),
    }
}

/// A text.
pub open spec fn lit_of(s: Seq<char>) -> PatternView {
    PatternView::Literal(s)
}

/// Any character but those listed.
pub open spec fn but(items: Seq<ClassItem>) -> PatternView {
    PatternView::Class(ClassView { negated: true, items })
}

/// The characters listed.
pub open spec fn any_of(items: Seq<ClassItem>) -> PatternView {
    PatternView::Class(ClassView { negated: false, items })
}

/// Letters and the underscore.
pub open spec fn letters() -> Seq<ClassItem> {
    seq![
        ClassItem::Range(0x61, 0x7A),
        ClassItem::Range(0x41, 0x5A),
        ClassItem::Char(0x5F),
    ]
}

/// Letters, digits and the underscore.
pub open spec fn letters_digits() -> Seq<ClassItem> {
    letters().push(ClassItem::Range(0x30, 0x39))
}

/// A name: letters, digits and underscores, with no digit in front.
pub open spec fn ident_pattern() -> PatternView {
    PatternView::Concat(
        seq![any_of(letters()), PatternView::Star(Box::new(any_of(letters_digits())))],
    )
}

/// Text between two of the quote, in which a backslash takes what follows it
/// along.
pub open spec fn quoted_pattern(quote: Seq<char>, code: u32) -> PatternView {
    PatternView::Concat(
        seq![
            lit_of(quote),
            PatternView::Star(
                Box::new(
                    PatternView::Alt(
                        seq![
                            but(seq![ClassItem::Char(code), ClassItem::Char(0x5C)]),
                            PatternView::Concat(seq![lit_of("\\"@), but(Seq::empty())]),
                        ],
                    ),
                ),
            ),
            lit_of(quote),
        ],
    )
}

/// A token of the notation.
pub open spec fn token_def(name: Seq<char>, pattern: PatternView, skip: bool) -> TokenView {
    TokenView {
        name,
        pattern,
        skip,
        is_fragment: false,
        modes: seq!["default"@],
        mode_actions: Seq::empty(),
        span: span::default_span(),
    }
}

/// The tokens of the notation, in the order of their kinds.
pub open spec fn syntax_tokens() -> Seq<TokenView> {
    seq![
        token_def("IDENT"@, ident_pattern(), false),
        token_def("LABEL"@, PatternView::Concat(seq![ident_pattern(), lit_of(":"@)]), false),
        token_def("STRING"@, quoted_pattern("\""@, 0x22), false),
        token_def("CHAR"@, quoted_pattern("'"@, 0x27), false),
        token_def("AT"@, lit_of("@"@), false),
        token_def("LPAREN"@, lit_of("("@), false),
        token_def("RPAREN"@, lit_of(")"@), false),
        token_def("COMMA"@, lit_of(","@), false),
        token_def("PIPE"@, lit_of("|"@), false),
        token_def("QUESTION"@, lit_of("?"@), false),
        token_def("STAR"@, lit_of("*"@), false),
        token_def("PLUS"@, lit_of("+"@), false),
        token_def("DOT"@, lit_of("."@), false),
        token_def("DOTDOT"@, lit_of(".."@), false),
        token_def("BANG"@, lit_of("!"@), false),
        token_def("EQ"@, lit_of("="@), false),
        token_def("SEMI"@, lit_of(";"@), false),
        token_def("ARROW"@, lit_of("->"@), false),
        token_def(
            "WS"@,
            PatternView::Plus(
                Box::new(
                    any_of(
                        seq![
                            ClassItem::Char(0x20),
                            ClassItem::Char(0x09),
                            ClassItem::Char(0x0A),
                            ClassItem::Char(0x0D),
                        ],
                    ),
                ),
            ),
            true,
        ),
        token_def(
            "COMMENT"@,
            PatternView::Concat(
                seq![
                    lit_of("//"@),
                    PatternView::Star(Box::new(but(seq![ClassItem::Char(0x0A)]))),
                ],
            ),
            true,
        ),
    ]
}

/// A rule of the notation.
pub open spec fn rule_def(name: Seq<char>, body: ExprView, is_fragment: bool) -> RuleView {
    RuleView { name, body, is_fragment, span: span::default_span() }
}

pub open spec fn tok_of(n: Seq<char>) -> ExprView {
    ExprView::Token(n)
}

pub open spec fn call_of(n: Seq<char>) -> ExprView {
    ExprView::Rule(n)
}

pub open spec fn opt_of(x: ExprView) -> ExprView {
    ExprView::Opt(Box::new(x))
}

pub open spec fn star_of(x: ExprView) -> ExprView {
    ExprView::Star(Box::new(x))
}

/// The rules of the notation: those that are no fragments in the order of
/// their kinds, then the fragments.
pub open spec fn syntax_rules() -> Seq<RuleView> {
    seq![
        rule_def("file"@, star_of(call_of("item"@)), false),
        rule_def("item"@, ExprView::Concat(seq![
            opt_of(call_of("mode_pre"@)),
            call_of("decl"@),
        ]), false),
        rule_def("mode_pre"@, ExprView::Concat(seq![
            tok_of("AT"@),
            tok_of("IDENT"@),
            tok_of("LPAREN"@),
            tok_of("IDENT"@),
            star_of(ExprView::Concat(seq![
                tok_of("COMMA"@),
                tok_of("IDENT"@),
            ])),
            tok_of("RPAREN"@),
        ]), false),
        rule_def("decl"@, ExprView::Concat(seq![
            tok_of("IDENT"@),
            tok_of("EQ"@),
            call_of("alt_expr"@),
            opt_of(call_of("actions"@)),
            tok_of("SEMI"@),
        ]), false),
        rule_def("actions"@, ExprView::Concat(seq![
            tok_of("ARROW"@),
            call_of("action"@),
            star_of(ExprView::Concat(seq![
                tok_of("COMMA"@),
                call_of("action"@),
            ])),
        ]), false),
        rule_def("action"@, ExprView::Concat(seq![
            tok_of("IDENT"@),
            opt_of(call_of("action_arg"@)),
        ]), false),
        rule_def("action_arg"@, ExprView::Concat(seq![
            tok_of("LPAREN"@),
            tok_of("IDENT"@),
            tok_of("RPAREN"@),
        ]), false),
        rule_def("alt_expr"@, ExprView::Concat(seq![
            call_of("seq_expr"@),
            star_of(ExprView::Concat(seq![
                tok_of("PIPE"@),
                call_of("seq_expr"@),
            ])),
        ]), false),
        rule_def("seq_expr"@, star_of(call_of("_postfix_expr"@)), false),
        rule_def("atom"@, ExprView::Alt(seq![
            tok_of("IDENT"@),
            tok_of("STRING"@),
            call_of("char_primary"@),
            call_of("neg_class"@),
        ]), false),
        rule_def("group"@, ExprView::Concat(seq![
            tok_of("LPAREN"@),
            call_of("alt_expr"@),
            tok_of("RPAREN"@),
        ]), false),
        rule_def("char_primary"@, ExprView::Alt(seq![
            tok_of("DOT"@),
            ExprView::Concat(seq![
                tok_of("CHAR"@),
                opt_of(ExprView::Concat(seq![
                    tok_of("DOTDOT"@),
                    tok_of("CHAR"@),
                ])),
            ]),
        ]), false),
        rule_def("neg_class"@, ExprView::Concat(seq![
            tok_of("BANG"@),
            ExprView::Alt(seq![
                call_of("_neg_atom"@),
                ExprView::Concat(seq![
                    tok_of("LPAREN"@),
                    call_of("_neg_atom"@),
                    star_of(ExprView::Concat(seq![
                        tok_of("PIPE"@),
                        call_of("_neg_atom"@),
                    ])),
                    tok_of("RPAREN"@),
                ]),
            ]),
        ]), false),
        rule_def("_postfix_expr"@, ExprView::Concat(seq![
            opt_of(tok_of("LABEL"@)),
            call_of("_primary_expr"@),
            star_of(call_of("_quant_op"@)),
        ]), true),
        rule_def("_primary_expr"@, ExprView::Alt(seq![
            call_of("atom"@),
            call_of("group"@),
        ]), true),
        rule_def("_quant_op"@, ExprView::Alt(seq![
            tok_of("QUESTION"@),
            tok_of("STAR"@),
            tok_of("PLUS"@),
        ]), true),
        rule_def("_neg_atom"@, ExprView::Alt(seq![
            call_of("char_primary"@),
            tok_of("STRING"@),
        ]), true),
    ]
}

/// The entries after the first `n` definitions were put in, each under its
/// name.
pub open spec fn token_table(defs: Seq<TokenView>, n: nat) -> Seq<(Seq<char>, TokenView)>
    decreases n,
{
    if n == 0 || n > defs.len() {
        Seq::empty()
    } else {
        ir::put(token_table(defs, (n - 1) as nat), defs[n - 1].name, defs[n - 1])
    }
}

/// The entries after the first `n` definitions were put in, each under its
/// name.
pub open spec fn rule_table(defs: Seq<RuleView>, n: nat) -> Seq<(Seq<char>, RuleView)>
    decreases n,
{
    if n == 0 || n > defs.len() {
        Seq::empty()
    } else {
        ir::put(rule_table(defs, (n - 1) as nat), defs[n - 1].name, defs[n - 1])
    }
}

/// The grammar is that of the notation.
pub open spec fn is_syntax(g: Grammar) -> bool {
    &&& g.name@ == "syntax"@
    &&& g.token_map() == token_table(syntax_tokens(), syntax_tokens().len())
    &&& g.rule_map() == rule_table(syntax_rules(), syntax_rules().len())
}

fn lit(s: &str) -> (r: TokenPattern)
    ensures
        r@ == lit_of(s@),
{
    TokenPattern::Literal(s.to_owned())
}

fn class(negated: bool, items: Vec<ClassItem>) -> (r: TokenPattern)
    ensures
        r@ == PatternView::Class(ClassView { negated, items: items@ }),
{
    TokenPattern::Class(CharClass { negated, items })
}

fn repeated(x: TokenPattern) -> (r: TokenPattern)
    ensures
        r@ == PatternView::Star(Box::new(x@)),
{
    TokenPattern::Star(Box::new(x))
}

fn two(a: TokenPattern, b: TokenPattern) -> (r: TokenPattern)
    ensures
        r@ == PatternView::Concat(seq![a@, b@]),
{
    let xs = vec![a, b];
    assert(ir::patterns_view(xs@) =~= seq![a@, b@]);
    TokenPattern::Concat(xs)
}

fn three(a: TokenPattern, b: TokenPattern, c: TokenPattern) -> (r: TokenPattern)
    ensures
        r@ == PatternView::Concat(seq![a@, b@, c@]),
{
    let xs = vec![a, b, c];
    assert(ir::patterns_view(xs@) =~= seq![a@, b@, c@]);
    TokenPattern::Concat(xs)
}

fn either(a: TokenPattern, b: TokenPattern) -> (r: TokenPattern)
    ensures
        r@ == PatternView::Alt(seq![a@, b@]),
{
    let xs = vec![a, b];
    assert(ir::patterns_view(xs@) =~= seq![a@, b@]);
    TokenPattern::Alt(xs)
}

fn ident() -> (r: TokenPattern)
    ensures
        r@ == ident_pattern(),
{
    let a = vec![
        ClassItem::Range(0x61, 0x7A),
        ClassItem::Range(0x41, 0x5A),
        ClassItem::Char(0x5F),
    ];
    let b = vec![
        ClassItem::Range(0x61, 0x7A),
        ClassItem::Range(0x41, 0x5A),
        ClassItem::Char(0x5F),
        ClassItem::Range(0x30, 0x39),
    ];
    assert(a@ =~= letters());
    assert(b@ =~= letters_digits());
    two(class(false, a), repeated(class(false, b)))
}

fn quoted(quote: &str, code: u32) -> (r: TokenPattern)
    ensures
        r@ == quoted_pattern(quote@, code),
{
    let plain = vec![ClassItem::Char(code), ClassItem::Char(0x5C)];
    let every: Vec<ClassItem> = Vec::new();
    assert(plain@ =~= seq![ClassItem::Char(code), ClassItem::Char(0x5C)]);
    assert(every@ =~= Seq::<ClassItem>::empty());
    let escape = two(lit("\\"), class(true, every));
    three(lit(quote), repeated(either(class(true, plain), escape)), lit(quote))
}

fn blanks() -> (r: TokenPattern)
    ensures
        r@ == syntax_tokens()[18].pattern,
{
    let items = vec![
        ClassItem::Char(0x20),
        ClassItem::Char(0x09),
        ClassItem::Char(0x0A),
        ClassItem::Char(0x0D),
    ];
    assert(items@ =~= seq![
        ClassItem::Char(0x20),
        ClassItem::Char(0x09),
        ClassItem::Char(0x0A),
        ClassItem::Char(0x0D),
    ]);
    TokenPattern::Plus(Box::new(class(false, items)))
}

fn comment() -> (r: TokenPattern)
    ensures
        r@ == syntax_tokens()[19].pattern,
{
    let items = vec![ClassItem::Char(0x0A)];
    assert(items@ =~= seq![ClassItem::Char(0x0A)]);
    two(lit("//"), repeated(class(true, items)))
}

/// Adds a token of the notation.
fn declare(g: &mut Grammar, name: &str, pattern: TokenPattern, skip: bool)
    ensures
        final(g).name == old(g).name,
        final(g).rules == old(g).rules,
        final(g).token_map() == ir::put(
            old(g).token_map(),
            name@,
            token_def(name@, pattern@, skip),
        ),
{
    let modes = vec!["default".to_owned()];
    let mode_actions: Vec<ModeAction> = Vec::new();
    assert(names::list_view(modes@) =~= seq!["default"@]);
    assert(ir::actions_view(mode_actions@) =~= Seq::empty());
    let t = TokenDef {
        name: name.to_owned(),
        pattern,
        skip,
        is_fragment: false,
        modes,
        mode_actions,
        span: Span::default(),
    };
    assert(t@ == token_def(name@, pattern@, skip));
    g.add_token(t);
}

/// Adds a rule of the notation.
fn define(g: &mut Grammar, name: &str, body: Expr, is_fragment: bool)
    ensures
        final(g).name == old(g).name,
        final(g).tokens == old(g).tokens,
        final(g).rule_map() == ir::put(
            old(g).rule_map(),
            name@,
            rule_def(name@, body@, is_fragment),
        ),
{
    g.add_rule(RuleDef { name: name.to_owned(), body, is_fragment, span: Span::default() });
}

fn tok(n: &str) -> (r: Expr)
    ensures
        r@ == tok_of(n@),
{
    Expr::Token(n.to_owned())
}

fn call(n: &str) -> (r: Expr)
    ensures
        r@ == call_of(n@),
{
    Expr::Rule(n.to_owned())
}

fn opt(x: Expr) -> (r: Expr)
    ensures
        r@ == opt_of(x@),
{
    Expr::Opt(Box::new(x))
}

fn star(x: Expr) -> (r: Expr)
    ensures
        r@ == star_of(x@),
{
    Expr::Star(Box::new(x))
}

fn cat(xs: Vec<Expr>) -> (r: Expr)
    ensures
        r@ == ExprView::Concat(ir::exprs_view(xs@)),
{
    Expr::Concat(xs)
}

fn alt(xs: Vec<Expr>) -> (r: Expr)
    ensures
        r@ == ExprView::Alt(ir::exprs_view(xs@)),
{
    Expr::Alt(xs)
}

fn add_tokens(g: &mut Grammar)
    requires
        old(g).token_map() == Seq::<(Seq<char>, TokenView)>::empty(),
    ensures
        final(g).name == old(g).name,
        final(g).rules == old(g).rules,
        final(g).token_map() == token_table(syntax_tokens(), syntax_tokens().len()),
{
    let ghost defs = syntax_tokens();
    assert(token_table(defs, 0) =~= g.token_map());
    declare(g, "IDENT", ident(), false);
    assert(g.token_map() == token_table(defs, 1));
    declare(g, "LABEL", two(ident(), lit(":")), false);
    assert(g.token_map() == token_table(defs, 2));
    declare(g, "STRING", quoted("\"", 0x22), false);
    assert(g.token_map() == token_table(defs, 3));
    declare(g, "CHAR", quoted("'", 0x27), false);
    assert(g.token_map() == token_table(defs, 4));
    declare(g, "AT", lit("@"), false);
    assert(g.token_map() == token_table(defs, 5));
    declare(g, "LPAREN", lit("("), false);
    assert(g.token_map() == token_table(defs, 6));
    declare(g, "RPAREN", lit(")"), false);
    assert(g.token_map() == token_table(defs, 7));
    declare(g, "COMMA", lit(","), false);
    assert(g.token_map() == token_table(defs, 8));
    declare(g, "PIPE", lit("|"), false);
    assert(g.token_map() == token_table(defs, 9));
    declare(g, "QUESTION", lit("?"), false);
    assert(g.token_map() == token_table(defs, 10));
    declare(g, "STAR", lit("*"), false);
    assert(g.token_map() == token_table(defs, 11));
    declare(g, "PLUS", lit("+"), false);
    assert(g.token_map() == token_table(defs, 12));
    declare(g, "DOT", lit("."), false);
    assert(g.token_map() == token_table(defs, 13));
    declare(g, "DOTDOT", lit(".."), false);
    assert(g.token_map() == token_table(defs, 14));
    declare(g, "BANG", lit("!"), false);
    assert(g.token_map() == token_table(defs, 15));
    declare(g, "EQ", lit("="), false);
    assert(g.token_map() == token_table(defs, 16));
    declare(g, "SEMI", lit(";"), false);
    assert(g.token_map() == token_table(defs, 17));
    declare(g, "ARROW", lit("->"), false);
    assert(g.token_map() == token_table(defs, 18));
    declare(g, "WS", blanks(), true);
    assert(g.token_map() == token_table(defs, 19));
    declare(g, "COMMENT", comment(), true);
    assert(g.token_map() == token_table(defs, 20));
}

fn rule_file() -> (r: Expr)
    ensures
        r@ == syntax_rules()[0].body,
{
    star(call("item"))
}

fn rule_item() -> (r: Expr)
    ensures
        r@ == syntax_rules()[1].body,
{
    let x0 = vec![opt(call("mode_pre")), call("decl")];
    assert(ir::exprs_view(x0@) =~= seq![opt_of(call_of("mode_pre"@)), call_of("decl"@)]);
    cat(x0)
}

fn rule_mode_pre() -> (r: Expr)
    ensures
        r@ == syntax_rules()[2].body,
{
    let x0 = vec![tok("COMMA"), tok("IDENT")];
    assert(ir::exprs_view(x0@) =~= seq![tok_of("COMMA"@), tok_of("IDENT"@)]);
    let x1 = vec![tok("AT"), tok("IDENT"), tok("LPAREN"), tok("IDENT"), star(cat(x0)), tok("RPAREN")];
    assert(ir::exprs_view(x1@) =~= seq![tok_of("AT"@), tok_of("IDENT"@), tok_of("LPAREN"@), tok_of("IDENT"@), star_of(ExprView::Concat(seq![
            tok_of("COMMA"@),
            tok_of("IDENT"@),
        ])), tok_of("RPAREN"@)]);
    cat(x1)
}

fn rule_decl() -> (r: Expr)
    ensures
        r@ == syntax_rules()[3].body,
{
    let x0 = vec![tok("IDENT"), tok("EQ"), call("alt_expr"), opt(call("actions")), tok("SEMI")];
    assert(ir::exprs_view(x0@) =~= seq![tok_of("IDENT"@), tok_of("EQ"@), call_of("alt_expr"@), opt_of(call_of("actions"@)), tok_of("SEMI"@)]);
    cat(x0)
}

fn rule_actions() -> (r: Expr)
    ensures
        r@ == syntax_rules()[4].body,
{
    let x0 = vec![tok("COMMA"), call("action")];
    assert(ir::exprs_view(x0@) =~= seq![tok_of("COMMA"@), call_of("action"@)]);
    let x1 = vec![tok("ARROW"), call("action"), star(cat(x0))];
    assert(ir::exprs_view(x1@) =~= seq![tok_of("ARROW"@), call_of("action"@), star_of(ExprView::Concat(seq![
            tok_of("COMMA"@),
            call_of("action"@),
        ]))]);
    cat(x1)
}

fn rule_action() -> (r: Expr)
    ensures
        r@ == syntax_rules()[5].body,
{
    let x0 = vec![tok("IDENT"), opt(call("action_arg"))];
    assert(ir::exprs_view(x0@) =~= seq![tok_of("IDENT"@), opt_of(call_of("action_arg"@))]);
    cat(x0)
}

fn rule_action_arg() -> (r: Expr)
    ensures
        r@ == syntax_rules()[6].body,
{
    let x0 = vec![tok("LPAREN"), tok("IDENT"), tok("RPAREN")];
    assert(ir::exprs_view(x0@) =~= seq![tok_of("LPAREN"@), tok_of("IDENT"@), tok_of("RPAREN"@)]);
    cat(x0)
}

fn rule_alt_expr() -> (r: Expr)
    ensures
        r@ == syntax_rules()[7].body,
{
    let x0 = vec![tok("PIPE"), call("seq_expr")];
    assert(ir::exprs_view(x0@) =~= seq![tok_of("PIPE"@), call_of("seq_expr"@)]);
    let x1 = vec![call("seq_expr"), star(cat(x0))];
    assert(ir::exprs_view(x1@) =~= seq![call_of("seq_expr"@), star_of(ExprView::Concat(seq![
            tok_of("PIPE"@),
            call_of("seq_expr"@),
        ]))]);
    cat(x1)
}

fn rule_seq_expr() -> (r: Expr)
    ensures
        r@ == syntax_rules()[8].body,
{
    star(call("_postfix_expr"))
}

fn rule_atom() -> (r: Expr)
    ensures
        r@ == syntax_rules()[9].body,
{
    let x0 = vec![tok("IDENT"), tok("STRING"), call("char_primary"), call("neg_class")];
    assert(ir::exprs_view(x0@) =~= seq![tok_of("IDENT"@), tok_of("STRING"@), call_of("char_primary"@), call_of("neg_class"@)]);
    alt(x0)
}

fn rule_group() -> (r: Expr)
    ensures
        r@ == syntax_rules()[10].body,
{
    let x0 = vec![tok("LPAREN"), call("alt_expr"), tok("RPAREN")];
    assert(ir::exprs_view(x0@) =~= seq![tok_of("LPAREN"@), call_of("alt_expr"@), tok_of("RPAREN"@)]);
    cat(x0)
}

fn rule_char_primary() -> (r: Expr)
    ensures
        r@ == syntax_rules()[11].body,
{
    let x0 = vec![tok("DOTDOT"), tok("CHAR")];
    assert(ir::exprs_view(x0@) =~= seq![tok_of("DOTDOT"@), tok_of("CHAR"@)]);
    let x1 = vec![tok("CHAR"), opt(cat(x0))];
    assert(ir::exprs_view(x1@) =~= seq![tok_of("CHAR"@), opt_of(ExprView::Concat(seq![
            tok_of("DOTDOT"@),
            tok_of("CHAR"@),
        ]))]);
    let x2 = vec![tok("DOT"), cat(x1)];
    assert(ir::exprs_view(x2@) =~= seq![tok_of("DOT"@), ExprView::Concat(seq![
            tok_of("CHAR"@),
            opt_of(ExprView::Concat(seq![
                tok_of("DOTDOT"@),
                tok_of("CHAR"@),
            ])),
        ])]);
    alt(x2)
}

fn rule_neg_class() -> (r: Expr)
    ensures
        r@ == syntax_rules()[12].body,
{
    let x0 = vec![tok("PIPE"), call("_neg_atom")];
    assert(ir::exprs_view(x0@) =~= seq![tok_of("PIPE"@), call_of("_neg_atom"@)]);
    let x1 = vec![tok("LPAREN"), call("_neg_atom"), star(cat(x0)), tok("RPAREN")];
    assert(ir::exprs_view(x1@) =~= seq![tok_of("LPAREN"@), call_of("_neg_atom"@), star_of(ExprView::Concat(seq![
            tok_of("PIPE"@),
            call_of("_neg_atom"@),
        ])), tok_of("RPAREN"@)]);
    let x2 = vec![call("_neg_atom"), cat(x1)];
    assert(ir::exprs_view(x2@) =~= seq![call_of("_neg_atom"@), ExprView::Concat(seq![
            tok_of("LPAREN"@),
            call_of("_neg_atom"@),
            star_of(ExprView::Concat(seq![
                tok_of("PIPE"@),
                call_of("_neg_atom"@),
            ])),
            tok_of("RPAREN"@),
        ])]);
    let x3 = vec![tok("BANG"), alt(x2)];
    assert(ir::exprs_view(x3@) =~= seq![tok_of("BANG"@), ExprView::Alt(seq![
            call_of("_neg_atom"@),
            ExprView::Concat(seq![
                tok_of("LPAREN"@),
                call_of("_neg_atom"@),
                star_of(ExprView::Concat(seq![
                    tok_of("PIPE"@),
                    call_of("_neg_atom"@),
                ])),
                tok_of("RPAREN"@),
            ]),
        ])]);
    cat(x3)
}

fn rule_postfix_expr() -> (r: Expr)
    ensures
        r@ == syntax_rules()[13].body,
{
    let x0 = vec![opt(tok("LABEL")), call("_primary_expr"), star(call("_quant_op"))];
    assert(ir::exprs_view(x0@) =~= seq![opt_of(tok_of("LABEL"@)), call_of("_primary_expr"@), star_of(call_of("_quant_op"@))]);
    cat(x0)
}

fn rule_primary_expr() -> (r: Expr)
    ensures
        r@ == syntax_rules()[14].body,
{
    let x0 = vec![call("atom"), call("group")];
    assert(ir::exprs_view(x0@) =~= seq![call_of("atom"@), call_of("group"@)]);
    alt(x0)
}

fn rule_quant_op() -> (r: Expr)
    ensures
        r@ == syntax_rules()[15].body,
{
    let x0 = vec![tok("QUESTION"), tok("STAR"), tok("PLUS")];
    assert(ir::exprs_view(x0@) =~= seq![tok_of("QUESTION"@), tok_of("STAR"@), tok_of("PLUS"@)]);
    alt(x0)
}

fn rule_neg_atom() -> (r: Expr)
    ensures
        r@ == syntax_rules()[16].body,
{
    let x0 = vec![call("char_primary"), tok("STRING")];
    assert(ir::exprs_view(x0@) =~= seq![call_of("char_primary"@), tok_of("STRING"@)]);
    alt(x0)
}

fn add_rules(g: &mut Grammar)
    requires
        old(g).rule_map() == Seq::<(Seq<char>, RuleView)>::empty(),
    ensures
        final(g).name == old(g).name,
        final(g).tokens == old(g).tokens,
        final(g).rule_map() == rule_table(syntax_rules(), syntax_rules().len()),
{
    let ghost defs = syntax_rules();
    assert(rule_table(defs, 0) =~= g.rule_map());
    define(g, "file", rule_file(), false);
    assert(g.rule_map() == rule_table(defs, 1));
    define(g, "item", rule_item(), false);
    assert(g.rule_map() == rule_table(defs, 2));
    define(g, "mode_pre", rule_mode_pre(), false);
    assert(g.rule_map() == rule_table(defs, 3));
    define(g, "decl", rule_decl(), false);
    assert(g.rule_map() == rule_table(defs, 4));
    define(g, "actions", rule_actions(), false);
    assert(g.rule_map() == rule_table(defs, 5));
    define(g, "action", rule_action(), false);
    assert(g.rule_map() == rule_table(defs, 6));
    define(g, "action_arg", rule_action_arg(), false);
    assert(g.rule_map() == rule_table(defs, 7));
    define(g, "alt_expr", rule_alt_expr(), false);
    assert(g.rule_map() == rule_table(defs, 8));
    define(g, "seq_expr", rule_seq_expr(), false);
    assert(g.rule_map() == rule_table(defs, 9));
    define(g, "atom", rule_atom(), false);
    assert(g.rule_map() == rule_table(defs, 10));
    define(g, "group", rule_group(), false);
    assert(g.rule_map() == rule_table(defs, 11));
    define(g, "char_primary", rule_char_primary(), false);
    assert(g.rule_map() == rule_table(defs, 12));
    define(g, "neg_class", rule_neg_class(), false);
    assert(g.rule_map() == rule_table(defs, 13));
    define(g, "_postfix_expr", rule_postfix_expr(), true);
    assert(g.rule_map() == rule_table(defs, 14));
    define(g, "_primary_expr", rule_primary_expr(), true);
    assert(g.rule_map() == rule_table(defs, 15));
    define(g, "_quant_op", rule_quant_op(), true);
    assert(g.rule_map() == rule_table(defs, 16));
    define(g, "_neg_atom", rule_neg_atom(), true);
    assert(g.rule_map() == rule_table(defs, 17));
}

/// The grammar of the notation.
pub fn syntax_grammar() -> (g: Grammar)
    ensures
        is_syntax(g),
{
    let mut g = Grammar::default();
    add_tokens(&mut g);
    add_rules(&mut g);
    g.name = "syntax".to_owned();
    g
}

/// The events of a parse of a grammar file.
pub open spec fn file_events(st: StateTable, entry: u32, source: Seq<char>) -> Seq<SyntaxView> {
    all_named(
        parser::events_within(
            st,
            TableMatcher { modes: &st.modes },
            true,
            parser::started(source, entry),
            usize::MAX as nat,
        ),
    )
}

/// Parse a grammar file with the table of the notation, from the state `entry`
/// on.
pub fn parse_file(st: &StateTable, entry: u32, source: &str) -> (r: Vec<SyntaxEvent>)
    requires
        st.k >= 1,
        st.states.wf(),
        lexer::modes_ok(st.modes@),
        vstd::utf8::encode_utf8(source@).len() < u32::MAX - 1,
    ensures
        events::events_view(r@) == file_events(*st, entry, source@),
{
    let mut p = Parser::new(st, source, entry, EmitSkips);
    let ghost m = p.dfa();
    assert(m == TableMatcher { modes: &st.modes });
    let raw = p.events(usize::MAX);
    let ghost rv = events::events_view(raw@);
    let mut out: Vec<SyntaxEvent> = Vec::new();
    for e in it: raw
        invariant
            it.seq() == raw@,
            rv == events::events_view(raw@),
            out@.len() == it.index(),
            forall|i: int| 0 <= i < out@.len() ==> (#[trigger] out@[i])@ == named(rv[i]),
    {
        assert(rv[it.index()] == e@);
        out.push(name_event(e));
    }
    assert(events::events_view(out@) =~= all_named(rv));
    out
}

} // verus!
