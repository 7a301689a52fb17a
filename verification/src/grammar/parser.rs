//! From the text of a grammar file to a [`Grammar`].
//!
//! A file is lexed and parsed by the table of the notation
//! ([`file_table`](crate::grammar::file_table)); the events that come out are
//! read here. Reading goes on after an error, so that all issues are found at once.
use vstd::prelude::*;

use crate::analysis::validate as check;
use crate::analysis::AnalysisOutcome;
use crate::grammar::file_table;
use crate::grammar::ir::{
    self, CharClass, ClassItem, ClassView, Expr, ExprView, Grammar, ModeAction, ModeActionView,
    PatternView, RuleDef, RuleView, TokenDef, TokenPattern,
};
use crate::grammar::literal;
use crate::grammar::notation;
use crate::grammar::reader::{self, ReadView, Reader, TokView};
use crate::grammar::syntax::{self, RuleKind, SyntaxEvent, SyntaxToken, SyntaxView, TokenKind};
use crate::lowering::table::StateTable;
use crate::names::{self, Rank};
use crate::runtime::events::{self, Error};
use crate::span::Span;
use crate::text;

verus! {

/// The first character that is no underscore.
pub open spec fn first_letter(name: Seq<char>) -> Option<char>
    decreases name.len(),
{
    if name.len() == 0 {
        None
    } else if name[0] != '_' {
        Some(name[0])
    } else {
        first_letter(name.skip(1))
    }
}

/// The name is that of a token: its first letter is a capital.
pub open spec fn names_token(name: Seq<char>) -> bool {
    match first_letter(name) {
        Some(c) => 'A' <= c <= 'Z',
        None => false,
    }
}

fn initial_letter(name: &str) -> (r: Option<char>)
    ensures
        r == first_letter(name@),
{
    let cs = text::chars(name);
    let mut i: usize = 0;
    assert(cs@.skip(0) =~= cs@);
    while i < cs.len()
        invariant
            i <= cs@.len(),
            cs@ == name@,
            first_letter(cs@) == first_letter(cs@.skip(i as int)),
        decreases cs@.len() - i,
    {
        assert(cs@.skip(i as int).skip(1) =~= cs@.skip(i + 1));
        if cs[i] != '_' {
            return Some(cs[i]);
        }
        i += 1;
    }
    None
}

fn is_token_name(name: &str) -> (r: bool)
    ensures
        r == names_token(name@),
{
    match initial_letter(name) {
        Some(c) => 'A' <= c && c <= 'Z',
        None => false,
    }
}

/// The quantifiers behind an expression.
pub open spec fn quantified(s: ReadView, x: ExprView) -> (ReadView, ExprView)
    decreases reader::left(s),
{
    if reader::at_token(s, TokenKind::Question) {
        quantified(reader::stepped(s), ExprView::Opt(Box::new(x)))
    } else if reader::at_token(s, TokenKind::Star) {
        quantified(reader::stepped(s), ExprView::Star(Box::new(x)))
    } else if reader::at_token(s, TokenKind::Plus) {
        quantified(reader::stepped(s), ExprView::Plus(Box::new(x)))
    } else {
        (s, x)
    }
}

fn apply_quantifiers(r: &mut Reader, x: Expr) -> (y: Expr)
    requires
        old(r).wf(),
    ensures
        final(r).wf(),
        (final(r)@, y@) == quantified(old(r)@, x@),
        reader::onward(old(r)@, final(r)@),
{
    let ghost start = r@;
    let ghost x0 = x@;
    let mut y = x;
    loop
        invariant
            r.wf(),
            start == old(r)@,
            quantified(start, x0) == quantified(r@, y@),
            reader::onward(start, r@),
        ensures
            r.wf(),
            (r@, y@) == quantified(start, x0),
            reader::onward(start, r@),
        decreases reader::left(r@),
    {
        if r.eat_token(TokenKind::Question) {
            y = Expr::Opt(Box::new(y));
        } else if r.eat_token(TokenKind::Star) {
            y = Expr::Star(Box::new(y));
        } else if r.eat_token(TokenKind::Plus) {
            y = Expr::Plus(Box::new(y));
        } else {
            break;
        }
    }
    y
}

/// The quantifiers behind a pattern.
pub open spec fn pattern_quantified(s: ReadView, x: PatternView) -> (ReadView, PatternView)
    decreases reader::left(s),
{
    if reader::at_token(s, TokenKind::Question) {
        pattern_quantified(reader::stepped(s), PatternView::Opt(Box::new(x)))
    } else if reader::at_token(s, TokenKind::Star) {
        pattern_quantified(reader::stepped(s), PatternView::Star(Box::new(x)))
    } else if reader::at_token(s, TokenKind::Plus) {
        pattern_quantified(reader::stepped(s), PatternView::Plus(Box::new(x)))
    } else {
        (s, x)
    }
}

fn apply_pattern_quantifiers(r: &mut Reader, x: TokenPattern) -> (y: TokenPattern)
    requires
        old(r).wf(),
    ensures
        final(r).wf(),
        (final(r)@, y@) == pattern_quantified(old(r)@, x@),
        reader::onward(old(r)@, final(r)@),
{
    let ghost start = r@;
    let ghost x0 = x@;
    let mut y = x;
    loop
        invariant
            r.wf(),
            start == old(r)@,
            pattern_quantified(start, x0) == pattern_quantified(r@, y@),
            reader::onward(start, r@),
        ensures
            r.wf(),
            (r@, y@) == pattern_quantified(start, x0),
            reader::onward(start, r@),
        decreases reader::left(r@),
    {
        if r.eat_token(TokenKind::Question) {
            y = TokenPattern::Opt(Box::new(y));
        } else if r.eat_token(TokenKind::Star) {
            y = TokenPattern::Star(Box::new(y));
        } else if r.eat_token(TokenKind::Plus) {
            y = TokenPattern::Plus(Box::new(y));
        } else {
            break;
        }
    }
    y
}

/// What is said of a token that is no atom.
pub open spec fn unexpected_atom(t: Seq<char>) -> Seq<char> {
    "unexpected atom token `"@ + t + "`"@
}

/// What an atom of a rule body stands for, when it is a single token.
pub open spec fn atom_of(s: ReadView, t: TokView) -> (ReadView, ExprView) {
    if t.kind == Some(TokenKind::Ident) {
        (
            s,
            if names_token(t.text) {
                ExprView::Token(t.text)
            } else {
                ExprView::Rule(t.text)
            },
        )
    } else if t.kind == Some(TokenKind::Str) {
        (
            reader::said(
                s,
                "string literal atoms are only valid inside token declarations"@,
                t.span,
            ),
            ExprView::Empty,
        )
    } else {
        (reader::said(s, unexpected_atom(t.text), t.span), ExprView::Empty)
    }
}

/// An atom of a rule body, without quantifiers.
pub open spec fn primary_atom(s: ReadView) -> (ReadView, ExprView) {
    let a = reader::entering(s, RuleKind::Atom);
    let (b, x) = match reader::entered(a) {
        Some(RuleKind::CharPrimary) => (
            reader::said(
                reader::skipped_rule(a, RuleKind::CharPrimary),
                "character atom (char, range, or `.`) is only valid inside a token declaration"@,
                reader::place(a),
            ),
            ExprView::Empty,
        ),
        Some(RuleKind::NegClass) => (
            reader::said(
                reader::skipped_rule(a, RuleKind::NegClass),
                "`!` character negation is only valid inside a token declaration"@,
                reader::place(a),
            ),
            ExprView::Empty,
        ),
        _ => {
            let (b, t) = reader::token_next(a);
            atom_of(b, t)
        },
    };
    (reader::exiting(b, RuleKind::Atom), x)
}

fn read_primary_atom(r: &mut Reader) -> (x: Expr)
    requires
        old(r).wf(),
    ensures
        final(r).wf(),
        (final(r)@, x@) == primary_atom(old(r)@),
        reader::onward(old(r)@, final(r)@),
        reader::entered(old(r)@) == Some(RuleKind::Atom) ==> reader::left(final(r)@) < reader::left(
            old(r)@,
        ),
{
    r.expect_enter(RuleKind::Atom);
    let x = match r.peek_enter() {
        Some(RuleKind::CharPrimary) => {
            let at = r.place();
            r.skip_until_exit(RuleKind::CharPrimary);
            r.say(
                "character atom (char, range, or `.`) is only valid inside a token declaration".to_owned(),
                at,
            );
            Expr::Empty
        },
        Some(RuleKind::NegClass) => {
            let at = r.place();
            r.skip_until_exit(RuleKind::NegClass);
            r.say(
                "`!` character negation is only valid inside a token declaration".to_owned(),
                at,
            );
            Expr::Empty
        },
        _ => {
            let t = r.next_token();
            if t.kind == Some(TokenKind::Ident) {
                if is_token_name(t.text.as_str()) {
                    Expr::Token(t.text)
                } else {
                    Expr::Rule(t.text)
                }
            } else if t.kind == Some(TokenKind::Str) {
                r.say(
                    "string literal atoms are only valid inside token declarations".to_owned(),
                    t.span,
                );
                Expr::Empty
            } else {
                let msg = text::concat3("unexpected atom token `", t.text.as_str(), "`");
                r.say(msg, t.span);
                Expr::Empty
            }
        },
    };
    r.expect_exit(RuleKind::Atom);
    x
}

/// The name of a label: the token without the colon at its end.
pub open spec fn label_name(t: Seq<char>) -> Seq<char> {
    if t.len() > 0 {
        t.drop_last()
    } else {
        t
    }
}

/// The label that comes next, with its place, if there is one.
pub open spec fn label_next(s: ReadView) -> (ReadView, Option<(Seq<char>, Span)>) {
    if reader::at_token(s, TokenKind::Label) {
        match reader::peeked(s) {
            Some(events::EventView::Token(t)) => (
                reader::stepped(s),
                Some((label_name(t.text), t.span)),
            ),
            _ => (s, None),
        }
    } else {
        (s, None)
    }
}

/// The label with its place, as the contracts see it.
pub open spec fn label_view(l: Option<(String, Span)>) -> Option<(Seq<char>, Span)> {
    match l {
        Some((n, at)) => Some((n@, at)),
        None => None,
    }
}

fn peek_label(r: &mut Reader) -> (l: Option<(String, Span)>)
    requires
        old(r).wf(),
    ensures
        final(r).wf(),
        (final(r)@, label_view(l)) == label_next(old(r)@),
        reader::onward(old(r)@, final(r)@),
{
    if !r.is_at(TokenKind::Label) {
        return None;
    }
    let t = r.next_token();
    let cs = text::chars(t.text.as_str());
    let mut name = String::new();
    let n = if cs.len() > 0 {
        cs.len() - 1
    } else {
        0
    };
    let mut i: usize = 0;
    assert(name@ =~= cs@.take(0));
    while i < n
        invariant
            i <= n <= cs@.len(),
            name@ == cs@.take(i as int),
        decreases n - i,
    {
        name.push(cs[i]);
        assert(cs@.take(i + 1) =~= cs@.take(i as int).push(cs@[i as int]));
        i += 1;
    }
    assert(name@ =~= label_name(t.text@));
    Some((name, t.span))
}

/// The expression with the label, if there is one.
pub open spec fn labelled(l: Option<(Seq<char>, Span)>, x: ExprView) -> ExprView {
    match l {
        Some((n, _)) => ExprView::Label(n, Box::new(x)),
        None => x,
    }
}

fn wrap_label(l: Option<(String, Span)>, x: Expr) -> (y: Expr)
    ensures
        y@ == labelled(label_view(l), x@),
{
    match l {
        Some((n, _)) => Expr::Label(n, Box::new(x)),
        None => x,
    }
}

/// What is said of a label with nothing behind it.
pub open spec fn bare_label(n: Seq<char>) -> Seq<char> {
    "label `"@ + n + ":` must be followed by an atom or group"@
}

/// Alternatives of a rule body.
pub open spec fn alt_read(s: ReadView) -> (ReadView, ExprView)
    decreases reader::left(s), 4nat,
{
    let a = reader::entering(s, RuleKind::AltExpr);
    let (b, x) = seq_read(a);
    if reader::onward(a, b) {
        let (c, xs) = alts_read(b, seq![x]);
        (reader::exiting(c, RuleKind::AltExpr), ir::alt_expr(xs))
    } else {
        (b, x)
    }
}

/// The further alternatives, behind those read.
pub open spec fn alts_read(s: ReadView, xs: Seq<ExprView>) -> (ReadView, Seq<ExprView>)
    decreases reader::left(s), 3nat,
{
    if reader::at_token(s, TokenKind::Pipe) {
        let a = reader::stepped(s);
        let (b, x) = seq_read(a);
        if reader::onward(a, b) {
            alts_read(b, xs.push(x))
        } else {
            (b, xs)
        }
    } else {
        (s, xs)
    }
}

/// A sequence of a rule body.
pub open spec fn seq_read(s: ReadView) -> (ReadView, ExprView)
    decreases reader::left(s), 2nat,
{
    let a = reader::entering(s, RuleKind::SeqExpr);
    let (b, xs) = items_read(a, Seq::empty());
    (reader::exiting(b, RuleKind::SeqExpr), ir::seq_expr(xs))
}

/// The further items of a sequence, behind those read. A label binds tighter
/// than a quantifier.
pub open spec fn items_read(s: ReadView, xs: Seq<ExprView>) -> (ReadView, Seq<ExprView>)
    decreases reader::left(s), 1nat,
{
    let (a, l) = label_next(s);
    match reader::entered(a) {
        Some(RuleKind::Atom) => {
            let (b, x) = primary_atom(a);
            let (c, y) = quantified(b, labelled(l, x));
            if reader::left(c) < reader::left(a) {
                items_read(c, xs.push(y))
            } else {
                (c, xs)
            }
        },
        Some(RuleKind::Group) => {
            let (b, x) = group_read(a);
            let (c, y) = quantified(b, labelled(l, x));
            if reader::left(c) < reader::left(a) {
                items_read(c, xs.push(y))
            } else {
                (c, xs)
            }
        },
        _ => match l {
            Some((n, at)) => (reader::said(a, bare_label(n), at), xs),
            None => (a, xs),
        },
    }
}

/// A group of a rule body, without quantifiers.
pub open spec fn group_read(s: ReadView) -> (ReadView, ExprView)
    decreases reader::left(s), 0nat,
{
    if reader::entered(s) == Some(RuleKind::Group) {
        let a = reader::entering(s, RuleKind::Group);
        let b = reader::token_next(a).0;
        proof {
            reader::lemma_token_onward(a);
        }
        let (c, x) = alt_read(b);
        (reader::exiting(reader::token_next(c).0, RuleKind::Group), x)
    } else {
        (s, ExprView::Empty)
    }
}

fn read_alt(r: &mut Reader) -> (x: Expr)
    requires
        old(r).wf(),
    ensures
        final(r).wf(),
        (final(r)@, x@) == alt_read(old(r)@),
        reader::onward(old(r)@, final(r)@),
    decreases reader::left(old(r)@), 4nat,
{
    let ghost start = r@;
    r.expect_enter(RuleKind::AltExpr);
    let first = read_seq(r);
    let ghost b = r@;
    let ghost f = first@;
    let mut xs: Vec<Expr> = vec![first];
    assert(ir::exprs_view(xs@) =~= seq![f]);
    let mut more = r.eat_token(TokenKind::Pipe);
    while more
        invariant
            r.wf(),
            start == old(r)@,
            reader::onward(start, b),
            reader::onward(b, r@),
            more ==> reader::left(r@) < reader::left(start),
            more ==> alts_read(b, seq![f]) == ({
                let (d, y) = seq_read(r@);
                if reader::onward(r@, d) {
                    alts_read(d, ir::exprs_view(xs@).push(y))
                } else {
                    (d, ir::exprs_view(xs@))
                }
            }),
            !more ==> (r@, ir::exprs_view(xs@)) == alts_read(b, seq![f]),
        decreases reader::left(r@) + if more { 1nat } else { 0nat },
    {
        let ghost before = ir::exprs_view(xs@);
        let x = read_seq(r);
        let ghost xv = x@;
        xs.push(x);
        assert(ir::exprs_view(xs@) =~= before.push(xv));
        more = r.eat_token(TokenKind::Pipe);
    }
    r.expect_exit(RuleKind::AltExpr);
    Expr::alt(xs)
}

fn read_seq(r: &mut Reader) -> (x: Expr)
    requires
        old(r).wf(),
    ensures
        final(r).wf(),
        (final(r)@, x@) == seq_read(old(r)@),
        reader::onward(old(r)@, final(r)@),
    decreases reader::left(old(r)@), 2nat,
{
    let ghost start = r@;
    r.expect_enter(RuleKind::SeqExpr);
    let ghost a = r@;
    let mut xs: Vec<Expr> = Vec::new();
    assert(ir::exprs_view(xs@) =~= Seq::<ExprView>::empty());
    loop
        invariant_except_break
            items_read(a, Seq::empty()) == items_read(r@, ir::exprs_view(xs@)),
        invariant
            r.wf(),
            start == old(r)@,
            reader::onward(start, a),
            reader::onward(a, r@),
        ensures
            items_read(a, Seq::empty()) == (r@, ir::exprs_view(xs@)),
        decreases reader::left(r@),
    {
        let ghost before = ir::exprs_view(xs@);
        let label = peek_label(r);
        match r.peek_enter() {
            Some(RuleKind::Atom) => {
                let x = read_primary_atom(r);
                let y = apply_quantifiers(r, wrap_label(label, x));
                let ghost yv = y@;
                xs.push(y);
                assert(ir::exprs_view(xs@) =~= before.push(yv));
            },
            Some(RuleKind::Group) => {
                let x = read_group_inner(r);
                let y = apply_quantifiers(r, wrap_label(label, x));
                let ghost yv = y@;
                xs.push(y);
                assert(ir::exprs_view(xs@) =~= before.push(yv));
            },
            _ => {
                if let Some((n, at)) = label {
                    r.say(
                        text::concat3(
                            "label `",
                            n.as_str(),
                            ":` must be followed by an atom or group",
                        ),
                        at,
                    );
                }
                break;
            },
        }
    }
    r.expect_exit(RuleKind::SeqExpr);
    Expr::seq(xs)
}

fn read_group_inner(r: &mut Reader) -> (x: Expr)
    requires
        old(r).wf(),
        reader::entered(old(r)@) == Some(RuleKind::Group),
    ensures
        final(r).wf(),
        (final(r)@, x@) == group_read(old(r)@),
        reader::onward(old(r)@, final(r)@),
        reader::left(final(r)@) < reader::left(old(r)@),
    decreases reader::left(old(r)@), 0nat,
{
    r.expect_enter(RuleKind::Group);
    let _lparen = r.next_token();
    let x = read_alt(r);
    let _rparen = r.next_token();
    r.expect_exit(RuleKind::Group);
    x
}

/// With the issues of a literal.
pub open spec fn noted(s: ReadView, messages: Seq<Seq<char>>, at: Span) -> ReadView {
    ReadView { issues: s.issues + literal::issues_at(messages, at), ..s }
}

/// Every character.
pub open spec fn any_char() -> PatternView {
    PatternView::Class(ClassView { negated: true, items: Seq::empty() })
}

/// A character, a range of characters, or `.`.
pub open spec fn char_primary(s: ReadView) -> (ReadView, PatternView) {
    let a = reader::entering(s, RuleKind::CharPrimary);
    let (b, t) = reader::token_next(a);
    let (c, p) = if t.kind == Some(TokenKind::Dot) {
        (b, any_char())
    } else if t.kind == Some(TokenKind::Char) {
        let (lo, m) = literal::char_literal(t.text);
        let d = noted(b, literal::one_message(m), t.span);
        if reader::at_token(d, TokenKind::Dotdot) {
            let (e, u) = reader::token_next(reader::stepped(d));
            let (hi, n) = literal::char_literal(u.text);
            (
                noted(e, literal::one_message(n), u.span),
                PatternView::Class(
                    ClassView { negated: false, items: seq![ClassItem::Range(lo, hi)] },
                ),
            )
        } else {
            (d, PatternView::Literal(seq![lo as char]))
        }
    } else {
        (reader::said(b, unexpected_atom(t.text), t.span), PatternView::Empty)
    };
    (reader::exiting(c, RuleKind::CharPrimary), p)
}

fn read_char_primary(r: &mut Reader) -> (p: TokenPattern)
    requires
        old(r).wf(),
    ensures
        final(r).wf(),
        (final(r)@, p@) == char_primary(old(r)@),
        reader::onward(old(r)@, final(r)@),
        reader::entered(old(r)@) == Some(RuleKind::CharPrimary) ==> reader::left(final(r)@)
            < reader::left(old(r)@),
{
    r.expect_enter(RuleKind::CharPrimary);
    let t = r.next_token();
    let p = if t.kind == Some(TokenKind::Dot) {
        let items: Vec<ClassItem> = Vec::new();
        assert(items@ =~= Seq::<ClassItem>::empty());
        TokenPattern::Class(CharClass { negated: true, items })
    } else if t.kind == Some(TokenKind::Char) {
        let lo = r.unquote_char(t.text.as_str(), t.span);
        if r.eat_token(TokenKind::Dotdot) {
            let u = r.next_token();
            let hi = r.unquote_char(u.text.as_str(), u.span);
            let items = vec![ClassItem::Range(lo, hi)];
            assert(items@ =~= seq![ClassItem::Range(lo, hi)]);
            TokenPattern::Class(CharClass { negated: false, items })
        } else {
            let mut buf = String::new();
            proof {
                literal::lemma_char_scalar(t.text@);
            }
            if let Some(ch) = char::from_u32(lo) {
                buf.push(ch);
                proof {
                    vstd::utf8::char_u32_cast(ch, lo);
                    assert(buf@ =~= seq![lo as char]);
                }
            }
            TokenPattern::Literal(buf)
        }
    } else {
        let msg = text::concat3("unexpected atom token `", t.text.as_str(), "`");
        r.say(msg, t.span);
        TokenPattern::Empty
    };
    r.expect_exit(RuleKind::CharPrimary);
    p
}

/// What a negation lists so far: single characters and ranges, and strings.
pub ghost struct NegView {
    pub read: ReadView,
    pub items: Seq<ClassItem>,
    pub strings: Seq<Seq<char>>,
}

/// One more string of a negation. One of a single character counts as the
/// character.
pub open spec fn neg_string(n: NegView, t: Seq<char>, at: Span) -> NegView {
    if t.len() == 0 {
        NegView {
            read: reader::said(
                n.read,
                "cannot negate empty string; an empty literal can never start at a position"@,
                at,
            ),
            ..n
        }
    } else if t.len() == 1 {
        NegView { items: n.items.push(ClassItem::Char(t[0] as u32)), ..n }
    } else {
        NegView { strings: n.strings.push(t), ..n }
    }
}

/// One more character atom of a negation.
pub open spec fn neg_char(n: NegView, p: PatternView, at: Span) -> NegView {
    match p {
        PatternView::Class(c) => if c.negated && c.items.len() == 0 {
            NegView {
                read: reader::said(
                    n.read,
                    "cannot negate `.` (any char); the resulting set is empty"@,
                    at,
                ),
                ..n
            }
        } else {
            NegView { items: n.items + c.items, ..n }
        },
        PatternView::Literal(t) => if t.len() > 0 {
            NegView { items: n.items.push(ClassItem::Char(t[0] as u32)), ..n }
        } else {
            n
        },
        _ => NegView {
            read: reader::said(n.read, "expected a character primary or string in negation"@, at),
            ..n
        },
    }
}

/// One more atom of a negation.
pub open spec fn neg_atom(n: NegView, at: Span) -> NegView {
    if reader::at_token(n.read, TokenKind::Str) {
        let (a, t) = reader::token_next(n.read);
        let (x, l) = literal::string_literal(t.text);
        neg_string(NegView { read: noted(a, l, t.span), ..n }, x, t.span)
    } else {
        let (a, p) = char_primary(n.read);
        neg_char(NegView { read: a, ..n }, p, at)
    }
}

/// An atom of a negation and those behind it.
pub open spec fn neg_atoms(n: NegView, at: Span) -> NegView
    decreases reader::left(n.read),
{
    let m = neg_atom(n, at);
    if reader::at_token(m.read, TokenKind::Pipe) && reader::onward(n.read, m.read) {
        neg_atoms(NegView { read: reader::stepped(m.read), ..m }, at)
    } else {
        m
    }
}

/// Some item is a range.
pub open spec fn has_range(items: Seq<ClassItem>) -> bool {
    exists|i: int| 0 <= i < items.len() && (#[trigger] items[i]) is Range
}

/// A negation.
pub open spec fn neg_class(s: ReadView) -> (ReadView, PatternView) {
    let a = reader::entering(s, RuleKind::NegClass);
    let (b, bang) = reader::token_next(a);
    let none = NegView { read: b, items: Seq::empty(), strings: Seq::empty() };
    let n = if reader::at_token(b, TokenKind::Lparen) {
        let m = neg_atoms(NegView { read: reader::stepped(b), ..none }, bang.span);
        NegView { read: reader::eaten(m.read, TokenKind::Rparen), ..m }
    } else {
        neg_atom(none, bang.span)
    };
    let c = reader::exiting(n.read, RuleKind::NegClass);
    let chars = ClassView { negated: true, items: n.items };
    if n.strings.len() == 0 {
        (c, PatternView::Class(chars))
    } else {
        (
            if has_range(n.items) {
                reader::said(
                    c,
                    "character ranges are not supported alongside string atoms inside `!(...)`; split the negation into a separate `!('a'..'z')` group"@,
                    bang.span,
                )
            } else {
                c
            },
            PatternView::NegLook(chars, n.strings),
        )
    }
}

/// What a negation lists so far, as the contracts see it.
pub open spec fn neg_view(r: Reader, items: Vec<ClassItem>, strings: Vec<String>) -> NegView {
    NegView { read: r@, items: items@, strings: names::list_view(strings@) }
}

fn collect_neg_atom(
    r: &mut Reader,
    items: &mut Vec<ClassItem>,
    strings: &mut Vec<String>,
    at: Span,
)
    requires
        old(r).wf(),
    ensures
        final(r).wf(),
        neg_view(*final(r), *final(items), *final(strings)) == neg_atom(
            neg_view(*old(r), *old(items), *old(strings)),
            at,
        ),
        reader::onward(old(r)@, final(r)@),
{
    if r.is_at(TokenKind::Str) {
        let t = r.next_token();
        let s = r.unquote_string(t.text.as_str(), t.span);
        let cs = text::chars(s.as_str());
        if cs.len() == 0 {
            r.say(
                "cannot negate empty string; an empty literal can never start at a position".to_owned(),
                t.span,
            );
        } else if cs.len() == 1 {
            items.push(ClassItem::Char(cs[0] as u32));
        } else {
            let ghost before = names::list_view(strings@);
            let ghost sv = s@;
            strings.push(s);
            assert(names::list_view(strings@) =~= before.push(sv));
        }
        return;
    }
    let p = read_char_primary(r);
    match p {
        TokenPattern::Class(c) => {
            if c.negated && c.items.len() == 0 {
                r.say(
                    "cannot negate `.` (any char); the resulting set is empty".to_owned(),
                    at,
                );
            } else {
                let ghost before = items@;
                let mut i: usize = 0;
                assert(items@ =~= before + c.items@.take(0));
                while i < c.items.len()
                    invariant
                        i <= c.items@.len(),
                        items@ == before + c.items@.take(i as int),
                    decreases c.items@.len() - i,
                {
                    items.push(c.items[i]);
                    assert(c.items@.take(i + 1) =~= c.items@.take(i as int).push(
                        c.items@[i as int],
                    ));
                    i += 1;
                }
                assert(c.items@.take(i as int) =~= c.items@);
            }
        },
        TokenPattern::Literal(s) => {
            let cs = text::chars(s.as_str());
            if cs.len() > 0 {
                items.push(ClassItem::Char(cs[0] as u32));
            }
        },
        _ => {
            r.say("expected a character primary or string in negation".to_owned(), at);
        },
    }
}

fn any_range(items: &Vec<ClassItem>) -> (b: bool)
    ensures
        b == has_range(items@),
{
    let mut i: usize = 0;
    while i < items.len()
        invariant
            i <= items@.len(),
            forall|k: int| 0 <= k < i ==> !((#[trigger] items@[k]) is Range),
        decreases items@.len() - i,
    {
        if matches!(items[i], ClassItem::Range(_, _)) {
            assert(items@[i as int] is Range);
            return true;
        }
        i += 1;
    }
    false
}

fn read_neg_class(r: &mut Reader) -> (p: TokenPattern)
    requires
        old(r).wf(),
    ensures
        final(r).wf(),
        (final(r)@, p@) == neg_class(old(r)@),
        reader::onward(old(r)@, final(r)@),
{
    let ghost start = r@;
    r.expect_enter(RuleKind::NegClass);
    let bang = r.next_token();
    let mut items: Vec<ClassItem> = Vec::new();
    let mut strings: Vec<String> = Vec::new();
    assert(items@ =~= Seq::<ClassItem>::empty());
    assert(names::list_view(strings@) =~= Seq::<Seq<char>>::empty());
    let ghost none = neg_view(*r, items, strings);
    if r.eat_token(TokenKind::Lparen) {
        let ghost first = neg_view(*r, items, strings);
        let mut more = true;
        while more
            invariant
                r.wf(),
                reader::onward(start, r@),
                neg_atoms(first, bang.span) == if more {
                    neg_atoms(neg_view(*r, items, strings), bang.span)
                } else {
                    neg_view(*r, items, strings)
                },
            decreases reader::left(r@) + if more { 1nat } else { 0nat },
        {
            collect_neg_atom(r, &mut items, &mut strings, bang.span);
            more = r.eat_token(TokenKind::Pipe);
        }
        r.eat_token(TokenKind::Rparen);
    } else {
        collect_neg_atom(r, &mut items, &mut strings, bang.span);
    }
    r.expect_exit(RuleKind::NegClass);
    assert(names::list_view(strings@).len() == strings@.len());
    if strings.len() == 0 {
        return TokenPattern::Class(CharClass { negated: true, items });
    }
    if any_range(&items) {
        r.say(
            "character ranges are not supported alongside string atoms inside `!(...)`; split the negation into a separate `!('a'..'z')` group".to_owned(),
            bang.span,
        );
    }
    TokenPattern::NegLook { chars: CharClass { negated: true, items }, strings }
}

/// An atom of a token pattern, without quantifiers, when it is a single token.
pub open spec fn pattern_atom(s: ReadView, t: TokView) -> (ReadView, PatternView) {
    if t.kind == Some(TokenKind::Ident) {
        (s, PatternView::Ref(t.text))
    } else if t.kind == Some(TokenKind::Str) {
        let (x, l) = literal::string_literal(t.text);
        (noted(s, l, t.span), PatternView::Literal(x))
    } else {
        (reader::said(s, unexpected_atom(t.text), t.span), PatternView::Empty)
    }
}

/// An atom of a token pattern with its quantifiers.
pub open spec fn pattern_primary(s: ReadView) -> (ReadView, PatternView) {
    let a = reader::entering(s, RuleKind::Atom);
    let (b, p) = match reader::entered(a) {
        Some(RuleKind::CharPrimary) => char_primary(a),
        Some(RuleKind::NegClass) => neg_class(a),
        _ => {
            let (b, t) = reader::token_next(a);
            pattern_atom(b, t)
        },
    };
    pattern_quantified(reader::exiting(b, RuleKind::Atom), p)
}

fn read_pattern_primary(r: &mut Reader) -> (p: TokenPattern)
    requires
        old(r).wf(),
    ensures
        final(r).wf(),
        (final(r)@, p@) == pattern_primary(old(r)@),
        reader::onward(old(r)@, final(r)@),
        reader::entered(old(r)@) == Some(RuleKind::Atom) ==> reader::left(final(r)@) < reader::left(
            old(r)@,
        ),
{
    r.expect_enter(RuleKind::Atom);
    let p = match r.peek_enter() {
        Some(RuleKind::CharPrimary) => read_char_primary(r),
        Some(RuleKind::NegClass) => read_neg_class(r),
        _ => {
            let t = r.next_token();
            if t.kind == Some(TokenKind::Ident) {
                TokenPattern::Ref(t.text)
            } else if t.kind == Some(TokenKind::Str) {
                TokenPattern::Literal(r.unquote_string(t.text.as_str(), t.span))
            } else {
                let msg = text::concat3("unexpected atom token `", t.text.as_str(), "`");
                r.say(msg, t.span);
                TokenPattern::Empty
            }
        },
    };
    r.expect_exit(RuleKind::Atom);
    apply_pattern_quantifiers(r, p)
}

/// Alternatives of a token pattern.
pub open spec fn pattern_alt(s: ReadView) -> (ReadView, PatternView)
    decreases reader::left(s), 4nat,
{
    let a = reader::entering(s, RuleKind::AltExpr);
    let (b, x) = pattern_seq(a);
    if reader::onward(a, b) {
        let (c, xs) = pattern_alts(b, seq![x]);
        (reader::exiting(c, RuleKind::AltExpr), ir::alt_pattern(xs))
    } else {
        (b, x)
    }
}

/// The further alternatives, behind those read.
pub open spec fn pattern_alts(s: ReadView, xs: Seq<PatternView>) -> (ReadView, Seq<PatternView>)
    decreases reader::left(s), 3nat,
{
    if reader::at_token(s, TokenKind::Pipe) {
        let a = reader::stepped(s);
        let (b, x) = pattern_seq(a);
        if reader::onward(a, b) {
            pattern_alts(b, xs.push(x))
        } else {
            (b, xs)
        }
    } else {
        (s, xs)
    }
}

/// A sequence of a token pattern.
pub open spec fn pattern_seq(s: ReadView) -> (ReadView, PatternView)
    decreases reader::left(s), 2nat,
{
    let a = reader::entering(s, RuleKind::SeqExpr);
    let (b, xs) = pattern_items(a, Seq::empty());
    (reader::exiting(b, RuleKind::SeqExpr), ir::seq_pattern(xs))
}

/// The further items of a sequence, behind those read.
pub open spec fn pattern_items(s: ReadView, xs: Seq<PatternView>) -> (ReadView, Seq<PatternView>)
    decreases reader::left(s), 1nat,
{
    match reader::entered(s) {
        Some(RuleKind::Atom) => {
            let (b, x) = pattern_primary(s);
            if reader::left(b) < reader::left(s) {
                pattern_items(b, xs.push(x))
            } else {
                (b, xs)
            }
        },
        Some(RuleKind::Group) => {
            let (b, x) = pattern_group(s);
            if reader::left(b) < reader::left(s) {
                pattern_items(b, xs.push(x))
            } else {
                (b, xs)
            }
        },
        _ => (s, xs),
    }
}

/// A group of a token pattern with its quantifiers.
pub open spec fn pattern_group(s: ReadView) -> (ReadView, PatternView)
    decreases reader::left(s), 0nat,
{
    if reader::entered(s) == Some(RuleKind::Group) {
        let a = reader::entering(s, RuleKind::Group);
        let b = reader::token_next(a).0;
        proof {
            reader::lemma_token_onward(a);
        }
        let (c, x) = pattern_alt(b);
        pattern_quantified(reader::exiting(reader::token_next(c).0, RuleKind::Group), x)
    } else {
        (s, PatternView::Empty)
    }
}

fn read_pattern_alt(r: &mut Reader) -> (x: TokenPattern)
    requires
        old(r).wf(),
    ensures
        final(r).wf(),
        (final(r)@, x@) == pattern_alt(old(r)@),
        reader::onward(old(r)@, final(r)@),
    decreases reader::left(old(r)@), 4nat,
{
    let ghost start = r@;
    r.expect_enter(RuleKind::AltExpr);
    let first = read_pattern_seq(r);
    let ghost b = r@;
    let ghost f = first@;
    let mut xs: Vec<TokenPattern> = vec![first];
    assert(ir::patterns_view(xs@) =~= seq![f]);
    let mut more = r.eat_token(TokenKind::Pipe);
    while more
        invariant
            r.wf(),
            start == old(r)@,
            reader::onward(start, b),
            reader::onward(b, r@),
            more ==> reader::left(r@) < reader::left(start),
            more ==> pattern_alts(b, seq![f]) == ({
                let (d, y) = pattern_seq(r@);
                if reader::onward(r@, d) {
                    pattern_alts(d, ir::patterns_view(xs@).push(y))
                } else {
                    (d, ir::patterns_view(xs@))
                }
            }),
            !more ==> (r@, ir::patterns_view(xs@)) == pattern_alts(b, seq![f]),
        decreases reader::left(r@) + if more { 1nat } else { 0nat },
    {
        let ghost before = ir::patterns_view(xs@);
        let x = read_pattern_seq(r);
        let ghost xv = x@;
        xs.push(x);
        assert(ir::patterns_view(xs@) =~= before.push(xv));
        more = r.eat_token(TokenKind::Pipe);
    }
    r.expect_exit(RuleKind::AltExpr);
    TokenPattern::alt(xs)
}

fn read_pattern_seq(r: &mut Reader) -> (x: TokenPattern)
    requires
        old(r).wf(),
    ensures
        final(r).wf(),
        (final(r)@, x@) == pattern_seq(old(r)@),
        reader::onward(old(r)@, final(r)@),
    decreases reader::left(old(r)@), 2nat,
{
    let ghost start = r@;
    r.expect_enter(RuleKind::SeqExpr);
    let ghost a = r@;
    let mut xs: Vec<TokenPattern> = Vec::new();
    assert(ir::patterns_view(xs@) =~= Seq::<PatternView>::empty());
    loop
        invariant_except_break
            pattern_items(a, Seq::empty()) == pattern_items(r@, ir::patterns_view(xs@)),
        invariant
            r.wf(),
            start == old(r)@,
            reader::onward(start, a),
            reader::onward(a, r@),
        ensures
            pattern_items(a, Seq::empty()) == (r@, ir::patterns_view(xs@)),
        decreases reader::left(r@),
    {
        let ghost before = ir::patterns_view(xs@);
        match r.peek_enter() {
            Some(RuleKind::Atom) => {
                let x = read_pattern_primary(r);
                let ghost xv = x@;
                xs.push(x);
                assert(ir::patterns_view(xs@) =~= before.push(xv));
            },
            Some(RuleKind::Group) => {
                let x = read_pattern_group(r);
                let ghost xv = x@;
                xs.push(x);
                assert(ir::patterns_view(xs@) =~= before.push(xv));
            },
            _ => {
                break;
            },
        }
    }
    r.expect_exit(RuleKind::SeqExpr);
    TokenPattern::seq(xs)
}

fn read_pattern_group(r: &mut Reader) -> (x: TokenPattern)
    requires
        old(r).wf(),
        reader::entered(old(r)@) == Some(RuleKind::Group),
    ensures
        final(r).wf(),
        (final(r)@, x@) == pattern_group(old(r)@),
        reader::onward(old(r)@, final(r)@),
        reader::left(final(r)@) < reader::left(old(r)@),
    decreases reader::left(old(r)@), 0nat,
{
    r.expect_enter(RuleKind::Group);
    let _lparen = r.next_token();
    let x = read_pattern_alt(r);
    let _rparen = r.next_token();
    r.expect_exit(RuleKind::Group);
    apply_pattern_quantifiers(r, x)
}

/// One action behind `->`, before it is looked at more closely.
struct RawAction {
    name: String,
    arg: Option<String>,
    span: Span,
}

/// What a raw action says.
pub ghost struct ActionView {
    pub name: Seq<char>,
    pub arg: Option<Seq<char>>,
    pub span: Span,
}

spec fn raw_view(a: RawAction) -> ActionView {
    ActionView {
        name: a.name@,
        arg: match a.arg {
            Some(x) => Some(x@),
            None => None,
        },
        span: a.span,
    }
}

spec fn raws_view(v: Seq<RawAction>) -> Seq<ActionView> {
    Seq::new(v.len(), |i: int| raw_view(v[i]))
}

/// One action.
pub open spec fn action_read(s: ReadView) -> (ReadView, ActionView) {
    let a = reader::entering(s, RuleKind::Action);
    let (b, t) = reader::token_next(a);
    let (c, arg) = if reader::entered(b) == Some(RuleKind::ActionArg) {
        let d = reader::entering(b, RuleKind::ActionArg);
        let e = reader::token_next(d).0;
        let (f, u) = reader::token_next(e);
        let g = reader::token_next(f).0;
        (reader::exiting(g, RuleKind::ActionArg), Some(u.text))
    } else {
        (b, None)
    };
    (reader::exiting(c, RuleKind::Action), ActionView { name: t.text, arg, span: t.span })
}

fn read_action(r: &mut Reader) -> (x: RawAction)
    requires
        old(r).wf(),
    ensures
        final(r).wf(),
        (final(r)@, raw_view(x)) == action_read(old(r)@),
        reader::onward(old(r)@, final(r)@),
        reader::entered(old(r)@) == Some(RuleKind::Action) ==> reader::left(final(r)@)
            < reader::left(old(r)@),
{
    r.expect_enter(RuleKind::Action);
    let t = r.next_token();
    let arg = if r.peek_enter() == Some(RuleKind::ActionArg) {
        r.expect_enter(RuleKind::ActionArg);
        let _lparen = r.next_token();
        let u = r.next_token();
        let _rparen = r.next_token();
        r.expect_exit(RuleKind::ActionArg);
        Some(u.text)
    } else {
        None
    };
    r.expect_exit(RuleKind::Action);
    RawAction { name: t.text, arg, span: t.span }
}

/// The further actions, behind those read.
pub open spec fn more_actions(s: ReadView, xs: Seq<ActionView>) -> (ReadView, Seq<ActionView>)
    decreases reader::left(s),
{
    if reader::entered(s) == Some(RuleKind::Action) {
        let (a, x) = action_read(s);
        if reader::at_token(a, TokenKind::Comma) && reader::left(a) < reader::left(s) {
            more_actions(reader::stepped(a), xs.push(x))
        } else {
            (a, xs.push(x))
        }
    } else {
        (s, xs)
    }
}

/// The actions of a declaration.
pub open spec fn actions_read(s: ReadView) -> (ReadView, Seq<ActionView>) {
    if reader::entered(s) == Some(RuleKind::Actions) {
        let a = reader::entering(s, RuleKind::Actions);
        let b = reader::token_next(a).0;
        let (c, xs) = more_actions(b, Seq::empty());
        (reader::exiting(c, RuleKind::Actions), xs)
    } else {
        (s, Seq::empty())
    }
}

fn read_actions(r: &mut Reader) -> (out: Vec<RawAction>)
    requires
        old(r).wf(),
    ensures
        final(r).wf(),
        (final(r)@, raws_view(out@)) == actions_read(old(r)@),
        reader::onward(old(r)@, final(r)@),
{
    let ghost start = r@;
    let mut out: Vec<RawAction> = Vec::new();
    assert(raws_view(out@) =~= Seq::<ActionView>::empty());
    if r.peek_enter() != Some(RuleKind::Actions) {
        return out;
    }
    r.expect_enter(RuleKind::Actions);
    let _arrow = r.next_token();
    let ghost b = r@;
    let mut more = true;
    while more
        invariant
            r.wf(),
            reader::onward(start, r@),
            more_actions(b, Seq::empty()) == if more {
                more_actions(r@, raws_view(out@))
            } else {
                (r@, raws_view(out@))
            },
        decreases reader::left(r@) + if more { 1nat } else { 0nat },
    {
        if r.peek_enter() == Some(RuleKind::Action) {
            let ghost before = raws_view(out@);
            let x = read_action(r);
            let ghost xv = raw_view(x);
            out.push(x);
            assert(raws_view(out@) =~= before.push(xv));
            more = r.eat_token(TokenKind::Comma);
        } else {
            more = false;
        }
    }
    r.expect_exit(RuleKind::Actions);
    out
}

/// What the actions of a declaration come to.
pub ghost struct Effects {
    pub read: ReadView,
    pub skip: bool,
    pub skip_span: Option<Span>,
    pub mode_actions: Seq<ModeActionView>,
    pub mode_span: Option<Span>,
}

/// The place of the first of several.
pub open spec fn first_span(a: Option<Span>, b: Span) -> Option<Span> {
    if a is Some {
        a
    } else {
        Some(b)
    }
}

/// With an issue more.
pub open spec fn effects_said(e: Effects, m: Seq<char>, at: Span) -> Effects {
    Effects { read: reader::said(e.read, m, at), ..e }
}

/// What is said of an action that is not known.
pub open spec fn unknown_action(n: Seq<char>) -> Seq<char> {
    "unknown action `"@ + n + "`; supported actions: skip, push(mode), pop"@
}

/// With one more action.
pub open spec fn effect_of(e: Effects, a: ActionView) -> Effects {
    if a.name == "skip"@ {
        let f = if a.arg is Some {
            effects_said(e, "`skip` action takes no argument"@, a.span)
        } else {
            e
        };
        let g = if e.skip {
            effects_said(f, "duplicate `skip` action"@, a.span)
        } else {
            f
        };
        Effects { skip: true, skip_span: first_span(e.skip_span, a.span), ..g }
    } else if a.name == "push"@ {
        match a.arg {
            Some(m) => Effects {
                mode_actions: e.mode_actions.push(ModeActionView::Push(m)),
                mode_span: first_span(e.mode_span, a.span),
                ..e
            },
            None => effects_said(
                e,
                "`push` action requires a mode name argument: `push(mode)`"@,
                a.span,
            ),
        }
    } else if a.name == "pop"@ {
        let f = if a.arg is Some {
            effects_said(e, "`pop` action takes no argument"@, a.span)
        } else {
            e
        };
        Effects {
            mode_actions: e.mode_actions.push(ModeActionView::Pop),
            mode_span: first_span(e.mode_span, a.span),
            ..f
        }
    } else {
        effects_said(e, unknown_action(a.name), a.span)
    }
}

/// What the first `n` actions come to.
pub open spec fn effects_upto(s: ReadView, l: Seq<ActionView>, n: nat) -> Effects
    decreases n,
{
    if n == 0 || n > l.len() {
        Effects {
            read: s,
            skip: false,
            skip_span: None,
            mode_actions: Seq::empty(),
            mode_span: None,
        }
    } else {
        effect_of(effects_upto(s, l, (n - 1) as nat), l[n - 1])
    }
}

/// What the actions of a declaration come to. A token that is skipped has no
/// mode actions.
pub open spec fn effects(s: ReadView, l: Seq<ActionView>) -> Effects {
    let e = effects_upto(s, l, l.len());
    if e.skip && e.mode_actions.len() > 0 {
        effects_said(
            e,
            "`skip` cannot be combined with `push` or `pop` on the same token"@,
            e.mode_span->0,
        )
    } else {
        e
    }
}

struct Resolved {
    skip: bool,
    skip_span: Option<Span>,
    mode_actions: Vec<ModeAction>,
    mode_span: Option<Span>,
}

spec fn resolved_view(r: Reader, x: Resolved) -> Effects {
    Effects {
        read: r@,
        skip: x.skip,
        skip_span: x.skip_span,
        mode_actions: ir::actions_view(x.mode_actions@),
        mode_span: x.mode_span,
    }
}

fn keep_first(a: Option<Span>, b: Span) -> (r: Option<Span>)
    ensures
        r == first_span(a, b),
{
    if a.is_some() {
        a
    } else {
        Some(b)
    }
}

fn same(a: &str, b: &str) -> (r: bool)
    ensures
        r == (a@ == b@),
{
    names::rank_str(a, b) == Rank::Same
}

fn push_action(v: &mut Vec<ModeAction>, a: ModeAction)
    ensures
        ir::actions_view(final(v)@) == ir::actions_view(old(v)@).push(a@),
{
    v.push(a);
    assert(ir::actions_view(v@) =~= ir::actions_view(old(v)@).push(a@));
}

fn resolve_action(r: &mut Reader, x: &mut Resolved, raw: &RawAction)
    requires
        old(r).wf(),
    ensures
        final(r).wf(),
        resolved_view(*final(r), *final(x)) == effect_of(
            resolved_view(*old(r), *old(x)),
            raw_view(*raw),
        ),
        final(r)@.pos == old(r)@.pos,
        final(r)@.events == old(r)@.events,
{
    if same(raw.name.as_str(), "skip") {
        if raw.arg.is_some() {
            r.say("`skip` action takes no argument".to_owned(), raw.span);
        }
        if x.skip {
            r.say("duplicate `skip` action".to_owned(), raw.span);
        }
        x.skip = true;
        x.skip_span = keep_first(x.skip_span, raw.span);
    } else if same(raw.name.as_str(), "push") {
        match &raw.arg {
            Some(m) => {
                push_action(&mut x.mode_actions, ModeAction::Push(m.clone()));
                x.mode_span = keep_first(x.mode_span, raw.span);
            },
            None => {
                r.say(
                    "`push` action requires a mode name argument: `push(mode)`".to_owned(),
                    raw.span,
                );
            },
        }
    } else if same(raw.name.as_str(), "pop") {
        if raw.arg.is_some() {
            r.say("`pop` action takes no argument".to_owned(), raw.span);
        }
        push_action(&mut x.mode_actions, ModeAction::Pop);
        x.mode_span = keep_first(x.mode_span, raw.span);
    } else {
        r.say(
            text::concat3(
                "unknown action `",
                raw.name.as_str(),
                "`; supported actions: skip, push(mode), pop",
            ),
            raw.span,
        );
    }
}

/// Once there is a mode action there is a place for it.
proof fn lemma_mode_span(s: ReadView, l: Seq<ActionView>, n: nat)
    ensures
        effects_upto(s, l, n).mode_actions.len() > 0 ==> effects_upto(s, l, n).mode_span is Some,
    decreases n,
{
    if n > 0 && n <= l.len() {
        lemma_mode_span(s, l, (n - 1) as nat);
    }
}

fn resolve_actions(r: &mut Reader, raws: &Vec<RawAction>) -> (x: Resolved)
    requires
        old(r).wf(),
    ensures
        final(r).wf(),
        resolved_view(*final(r), x) == effects(old(r)@, raws_view(raws@)),
        reader::onward(old(r)@, final(r)@),
{
    let ghost start = r@;
    let ghost l = raws_view(raws@);
    let mut x = Resolved {
        skip: false,
        skip_span: None,
        mode_actions: Vec::new(),
        mode_span: None,
    };
    assert(ir::actions_view(x.mode_actions@) =~= Seq::<ModeActionView>::empty());
    let mut i: usize = 0;
    while i < raws.len()
        invariant
            i <= raws@.len(),
            r.wf(),
            l == raws_view(raws@),
            resolved_view(*r, x) == effects_upto(start, l, i as nat),
            r@.pos == start.pos,
            r@.events == start.events,
        decreases raws@.len() - i,
    {
        assert(l[i as int] == raw_view(raws@[i as int]));
        resolve_action(r, &mut x, &raws[i]);
        i += 1;
    }
    proof {
        lemma_mode_span(start, l, l.len());
        assert(ir::actions_view(x.mode_actions@).len() == x.mode_actions@.len());
    }
    if x.skip && x.mode_actions.len() > 0 {
        if let Some(at) = x.mode_span {
            r.say(
                "`skip` cannot be combined with `push` or `pop` on the same token".to_owned(),
                at,
            );
        }
    }
    x
}

/// What a grammar holds.
pub ghost struct GrammarView {
    pub tokens: Seq<(Seq<char>, ir::TokenView)>,
    pub rules: Seq<(Seq<char>, RuleView)>,
}

/// What the grammar holds.
pub open spec fn grammar_view(g: Grammar) -> GrammarView {
    GrammarView { tokens: g.token_map(), rules: g.rule_map() }
}

/// With the issue, if the condition holds.
pub open spec fn said_if(s: ReadView, cond: bool, m: Seq<char>, at: Span) -> ReadView {
    if cond {
        reader::said(s, m, at)
    } else {
        s
    }
}

/// What a declaration of a token adds.
pub open spec fn token_added(
    e: Effects,
    g: GrammarView,
    name: TokView,
    pattern: PatternView,
    modes: Seq<Seq<char>>,
    at: Span,
) -> (ReadView, GrammarView) {
    let is_fragment = name.text.len() > 0 && name.text[0] == '_';
    let a = said_if(
        e.read,
        e.skip && is_fragment,
        "token `"@ + name.text + "` is both marked `skip` and `_`-prefixed (fragment); pick one"@,
        name.span,
    );
    let b = said_if(
        a,
        ir::lookup(g.tokens, name.text) is Some,
        "duplicate token: "@ + name.text,
        at,
    );
    let def = ir::TokenView {
        name: name.text,
        pattern,
        skip: e.skip,
        is_fragment,
        modes: if modes.len() == 0 {
            seq!["default"@]
        } else {
            modes
        },
        mode_actions: e.mode_actions,
        span: at,
    };
    (b, GrammarView { tokens: ir::put(g.tokens, name.text, def), ..g })
}

/// What a declaration of a rule adds.
pub open spec fn rule_added(
    e: Effects,
    g: GrammarView,
    name: TokView,
    body: ExprView,
    modes: Seq<Seq<char>>,
    at: Span,
) -> (ReadView, GrammarView) {
    let n = name.text;
    let a = said_if(
        e.read,
        e.skip_span is Some,
        "action `skip` only applies to tokens, not rules; drop it on `"@ + n + "`"@,
        e.skip_span->0,
    );
    let b = said_if(
        a,
        e.mode_span is Some,
        "actions `push`/`pop` only apply to tokens, not rules; drop them on `"@ + n + "`"@,
        e.mode_span->0,
    );
    let c = said_if(
        b,
        modes.len() > 0,
        "`@mode(...)` only applies to tokens, not rules; drop it on `"@ + n + "`"@,
        name.span,
    );
    let d = said_if(c, ir::lookup(g.rules, n) is Some, "duplicate rule: "@ + n, at);
    let def = RuleView { name: n, body, is_fragment: n.len() > 0 && n[0] == '_', span: at };
    (d, GrammarView { rules: ir::put(g.rules, n, def), ..g })
}

/// A declaration: a token if the first letter of its name is a capital, a
/// rule if it is another letter, and nothing if there is no letter.
pub open spec fn decl_read(s: ReadView, g: GrammarView, modes: Seq<Seq<char>>) -> (
    ReadView,
    GrammarView,
) {
    let a = reader::entering(s, RuleKind::Decl);
    let (b, name) = reader::token_next(a);
    let c = reader::token_next(b).0;
    let is_token = names_token(name.text);
    let d = if is_token {
        pattern_alt(c).0
    } else {
        alt_read(c).0
    };
    let (f, raws) = actions_read(d);
    let (h, semi) = reader::token_next(f);
    let e = effects(reader::exiting(h, RuleKind::Decl), raws);
    let at = Span { start: name.span.start, end: semi.span.end };
    if is_token {
        token_added(e, g, name, pattern_alt(c).1, modes, at)
    } else if first_letter(name.text) is Some {
        rule_added(e, g, name, alt_read(c).1, modes, at)
    } else {
        (
            reader::said(
                e.read,
                "declaration name `"@ + name.text + "` has no letter to determine kind"@,
                name.span,
            ),
            g,
        )
    }
}

fn starts_low(name: &str) -> (r: bool)
    ensures
        r == (name@.len() > 0 && name@[0] == '_'),
{
    let cs = text::chars(name);
    cs.len() > 0 && cs[0] == '_'
}

fn concat2(a: &str, b: &str) -> (r: String)
    ensures
        r@ == a@ + b@,
{
    let mut r = a.to_owned();
    r.append(b);
    r
}

fn add_token(
    r: &mut Reader,
    g: &mut Grammar,
    x: Resolved,
    name: SyntaxToken,
    pattern: TokenPattern,
    modes: &Vec<String>,
    at: Span,
)
    requires
        old(r).wf(),
    ensures
        final(r).wf(),
        final(g).name == old(g).name,
        (final(r)@, grammar_view(*final(g))) == token_added(
            resolved_view(*old(r), x),
            grammar_view(*old(g)),
            name@,
            pattern@,
            names::list_view(modes@),
            at,
        ),
        reader::onward(old(r)@, final(r)@),
{
    let is_fragment = starts_low(name.text.as_str());
    if x.skip && is_fragment {
        r.say(
            text::concat3(
                "token `",
                name.text.as_str(),
                "` is both marked `skip` and `_`-prefixed (fragment); pick one",
            ),
            name.span,
        );
    }
    if g.token(name.text.as_str()).is_some() {
        r.say(concat2("duplicate token: ", name.text.as_str()), at);
    }
    let list = if modes.len() == 0 {
        let v = vec!["default".to_owned()];
        assert(names::list_view(v@) =~= seq!["default"@]);
        v
    } else {
        ir::clone_names(modes)
    };
    let def = TokenDef {
        name: name.text,
        pattern,
        skip: x.skip,
        is_fragment,
        modes: list,
        mode_actions: x.mode_actions,
        span: at,
    };
    g.add_token(def);
}

fn add_rule(
    r: &mut Reader,
    g: &mut Grammar,
    x: Resolved,
    name: SyntaxToken,
    body: Expr,
    modes: &Vec<String>,
    at: Span,
)
    requires
        old(r).wf(),
    ensures
        final(r).wf(),
        final(g).name == old(g).name,
        (final(r)@, grammar_view(*final(g))) == rule_added(
            resolved_view(*old(r), x),
            grammar_view(*old(g)),
            name@,
            body@,
            names::list_view(modes@),
            at,
        ),
        reader::onward(old(r)@, final(r)@),
{
    if let Some(place) = x.skip_span {
        r.say(
            text::concat3(
                "action `skip` only applies to tokens, not rules; drop it on `",
                name.text.as_str(),
                "`",
            ),
            place,
        );
    }
    if let Some(place) = x.mode_span {
        r.say(
            text::concat3(
                "actions `push`/`pop` only apply to tokens, not rules; drop them on `",
                name.text.as_str(),
                "`",
            ),
            place,
        );
    }
    if modes.len() > 0 {
        r.say(
            text::concat3(
                "`@mode(...)` only applies to tokens, not rules; drop it on `",
                name.text.as_str(),
                "`",
            ),
            name.span,
        );
    }
    if g.rule(name.text.as_str()).is_some() {
        r.say(concat2("duplicate rule: ", name.text.as_str()), at);
    }
    let is_fragment = starts_low(name.text.as_str());
    g.add_rule(RuleDef { name: name.text, body, is_fragment, span: at });
}

fn read_decl(r: &mut Reader, g: &mut Grammar, modes: &Vec<String>)
    requires
        old(r).wf(),
    ensures
        final(r).wf(),
        final(g).name == old(g).name,
        (final(r)@, grammar_view(*final(g))) == decl_read(
            old(r)@,
            grammar_view(*old(g)),
            names::list_view(modes@),
        ),
        reader::onward(old(r)@, final(r)@),
{
    r.expect_enter(RuleKind::Decl);
    let name = r.next_token();
    let _eq = r.next_token();
    if is_token_name(name.text.as_str()) {
        let pattern = read_pattern_alt(r);
        let raws = read_actions(r);
        let semi = r.next_token();
        r.expect_exit(RuleKind::Decl);
        let at = Span::join(name.span, semi.span);
        let x = resolve_actions(r, &raws);
        add_token(r, g, x, name, pattern, modes, at);
        return;
    }
    let body = read_alt(r);
    let raws = read_actions(r);
    let semi = r.next_token();
    r.expect_exit(RuleKind::Decl);
    let at = Span::join(name.span, semi.span);
    let x = resolve_actions(r, &raws);
    if initial_letter(name.text.as_str()).is_some() {
        add_rule(r, g, x, name, body, modes, at);
    } else {
        r.say(
            text::concat3(
                "declaration name `",
                name.text.as_str(),
                "` has no letter to determine kind",
            ),
            name.span,
        );
    }
}

/// The further names of a list, behind those read.
pub open spec fn more_names(s: ReadView, xs: Seq<Seq<char>>) -> (ReadView, Seq<Seq<char>>)
    decreases reader::left(s),
{
    if reader::at_token(s, TokenKind::Comma) {
        let a = reader::stepped(s);
        let (b, t) = reader::token_next(a);
        proof {
            reader::lemma_token_onward(a);
        }
        more_names(b, xs.push(t.text))
    } else {
        (s, xs)
    }
}

/// What stands before a declaration: `@mode(..)` with its names.
pub open spec fn mode_pre(s: ReadView) -> (ReadView, Seq<Seq<char>>) {
    let a = reader::entering(s, RuleKind::ModePre);
    let b = reader::token_next(a).0;
    let (c, name) = reader::token_next(b);
    let d = reader::token_next(c).0;
    let (e, first) = reader::token_next(d);
    let (f, xs) = more_names(e, seq![first.text]);
    let h = reader::exiting(reader::token_next(f).0, RuleKind::ModePre);
    (
        said_if(
            h,
            name.text != "mode"@,
            "unknown pre-annotation `@"@ + name.text + "`; supported pre-annotations: mode"@,
            name.span,
        ),
        xs,
    )
}

fn read_mode_pre(r: &mut Reader) -> (xs: Vec<String>)
    requires
        old(r).wf(),
    ensures
        final(r).wf(),
        (final(r)@, names::list_view(xs@)) == mode_pre(old(r)@),
        reader::onward(old(r)@, final(r)@),
{
    let ghost start = r@;
    r.expect_enter(RuleKind::ModePre);
    let _at = r.next_token();
    let name = r.next_token();
    let _lparen = r.next_token();
    let first = r.next_token();
    let ghost e = r@;
    let ghost f = first.text@;
    let mut xs: Vec<String> = vec![first.text];
    assert(names::list_view(xs@) =~= seq![f]);
    let mut more = r.eat_token(TokenKind::Comma);
    while more
        invariant
            r.wf(),
            reader::onward(start, r@),
            more_names(e, seq![f]) == if more {
                let (b, t) = reader::token_next(r@);
                more_names(b, names::list_view(xs@).push(t.text))
            } else {
                (r@, names::list_view(xs@))
            },
        decreases reader::left(r@) + if more { 1nat } else { 0nat },
    {
        let ghost before = names::list_view(xs@);
        let t = r.next_token();
        let ghost tv = t.text@;
        xs.push(t.text);
        assert(names::list_view(xs@) =~= before.push(tv));
        more = r.eat_token(TokenKind::Comma);
    }
    let _rparen = r.next_token();
    r.expect_exit(RuleKind::ModePre);
    if !same(name.text.as_str(), "mode") {
        r.say(
            text::concat3(
                "unknown pre-annotation `@",
                name.text.as_str(),
                "`; supported pre-annotations: mode",
            ),
            name.span,
        );
    }
    xs
}

/// A declaration with what stands before it.
pub open spec fn item_read(s: ReadView, g: GrammarView) -> (ReadView, GrammarView) {
    let a = reader::entering(s, RuleKind::Item);
    let (b, modes) = if reader::entered(a) == Some(RuleKind::ModePre) {
        mode_pre(a)
    } else {
        (a, Seq::empty())
    };
    let (c, h) = decl_read(b, g, modes);
    (reader::exiting(c, RuleKind::Item), h)
}

fn read_item(r: &mut Reader, g: &mut Grammar)
    requires
        old(r).wf(),
    ensures
        final(r).wf(),
        final(g).name == old(g).name,
        (final(r)@, grammar_view(*final(g))) == item_read(old(r)@, grammar_view(*old(g))),
        reader::onward(old(r)@, final(r)@),
        reader::entered(old(r)@) == Some(RuleKind::Item) ==> reader::left(final(r)@) < reader::left(
            old(r)@,
        ),
{
    r.expect_enter(RuleKind::Item);
    let modes = if r.peek_enter() == Some(RuleKind::ModePre) {
        read_mode_pre(r)
    } else {
        let none: Vec<String> = Vec::new();
        assert(names::list_view(none@) =~= Seq::<Seq<char>>::empty());
        none
    };
    read_decl(r, g, &modes);
    r.expect_exit(RuleKind::Item);
}

/// The items of a file.
pub open spec fn items_of(s: ReadView, g: GrammarView) -> (ReadView, GrammarView)
    decreases reader::left(s),
{
    if reader::entered(s) == Some(RuleKind::Item) {
        let (a, h) = item_read(s, g);
        if reader::left(a) < reader::left(s) {
            items_of(a, h)
        } else {
            (a, h)
        }
    } else {
        (s, g)
    }
}

/// A file.
pub open spec fn file_read(s: ReadView) -> (ReadView, GrammarView) {
    let a = reader::entering(s, RuleKind::File);
    let (b, g) = items_of(a, GrammarView { tokens: Seq::empty(), rules: Seq::empty() });
    (reader::exiting(b, RuleKind::File), g)
}

/// What the events of a parse of a grammar file come to: the grammar if
/// nothing is wrong, or else what is.
pub open spec fn grammar_of(
    l: Seq<SyntaxView>,
    r: Result<Grammar, Vec<Error>>,
) -> bool {
    let (s, g) = file_read(
        ReadView { events: reader::significant(l), pos: 0, issues: Seq::empty() },
    );
    match r {
        Ok(x) => s.issues.len() == 0 && grammar_view(x) == g && x.name@ == Seq::<char>::empty(),
        Err(v) => s.issues.len() > 0 && events::errors_view(v@) == s.issues,
    }
}

/// Tokens and rules stand under their names, none twice; tokens have the names
/// of tokens and rules others; and a fragment is what begins with an underscore.
pub open spec fn named_well(g: GrammarView) -> bool {
    &&& check::well_named(g.tokens)
    &&& forall|i: int|
        0 <= i < g.tokens.len() ==> names_token((#[trigger] g.tokens[i]).0)
            && g.tokens[i].1.is_fragment == low(g.tokens[i].0)
    &&& forall|i: int| 0 <= i < g.rules.len() ==> (#[trigger] g.rules[i]).0 == g.rules[i].1.name
    &&& forall|i: int, j: int|
        0 <= i < j < g.rules.len() ==> (#[trigger] g.rules[i]).0 != (#[trigger] g.rules[j]).0
    &&& forall|i: int|
        0 <= i < g.rules.len() ==> !names_token((#[trigger] g.rules[i]).0)
            && g.rules[i].1.is_fragment == low(g.rules[i].0)
}

/// The name begins with an underscore.
pub open spec fn low(name: Seq<char>) -> bool {
    name.len() > 0 && name[0] == '_'
}

proof fn lemma_put_apart<A>(l: Seq<(Seq<char>, A)>, n: Seq<char>, x: A)
    requires
        forall|i: int, j: int| 0 <= i < j < l.len() ==> (#[trigger] l[i]).0 != (#[trigger] l[j]).0,
    ensures
        forall|i: int, j: int|
            0 <= i < j < ir::put(l, n, x).len() ==> (#[trigger] ir::put(l, n, x)[i]).0 != (
            #[trigger] ir::put(l, n, x)[j]).0,
        forall|i: int|
            0 <= i < ir::put(l, n, x).len() ==> (#[trigger] ir::put(l, n, x)[i]) == (n, x) || (i
                < l.len() && ir::put(l, n, x)[i] == l[i]),
{
    ir::lemma_position(l, n);
    let next = ir::put(l, n, x);
    assert forall|i: int, j: int| 0 <= i < j < next.len() implies (#[trigger] next[i]).0 != (
    #[trigger] next[j]).0 by {
        if j < l.len() {
            assert(next[i].0 == l[i].0 && next[j].0 == l[j].0);
        } else {
            assert(next[i] == l[i]);
            assert(l[i].0 != n);
        }
    }
}

proof fn lemma_item_named(s: ReadView, g: GrammarView)
    requires
        named_well(g),
    ensures
        named_well(item_read(s, g).1),
{
    let a = reader::entering(s, RuleKind::Item);
    let (b, modes) = if reader::entered(a) == Some(RuleKind::ModePre) {
        mode_pre(a)
    } else {
        (a, Seq::empty())
    };
    let h = decl_read(b, g, modes).1;
    let name = reader::token_next(reader::entering(b, RuleKind::Decl)).1.text;
    if names_token(name) {
        lemma_put_apart(g.tokens, name, h.tokens[ir::position(g.tokens, name)].1);
        ir::lemma_position(g.tokens, name);
    } else if first_letter(name) is Some {
        lemma_put_apart(g.rules, name, h.rules[ir::position(g.rules, name)].1);
        ir::lemma_position(g.rules, name);
    }
}

proof fn lemma_items_named(s: ReadView, g: GrammarView)
    requires
        named_well(g),
    ensures
        named_well(items_of(s, g).1),
    decreases reader::left(s),
{
    if reader::entered(s) == Some(RuleKind::Item) {
        lemma_item_named(s, g);
        let (a, h) = item_read(s, g);
        if reader::left(a) < reader::left(s) {
            lemma_items_named(a, h);
        }
    }
}

/// In a grammar that is read from events, tokens and rules stand under their
/// names, none twice. A token has a capital as its first letter, a rule has
/// none, and a fragment is what begins with an underscore.
pub proof fn law_read_grammars_are_named_well(l: Seq<SyntaxView>, g: Grammar)
    requires
        grammar_of(l, Ok(g)),
    ensures
        named_well(grammar_view(g)),
{
    let s = ReadView { events: reader::significant(l), pos: 0, issues: Seq::empty() };
    lemma_items_named(
        reader::entering(s, RuleKind::File),
        GrammarView { tokens: Seq::empty(), rules: Seq::empty() },
    );
}

/// Read the events of a parse of a grammar file.
pub fn read_grammar(all: Vec<SyntaxEvent>) -> (res: Result<
    Grammar,
    Vec<Error>,
>)
    ensures
        grammar_of(events::events_view(all@), res),
{
    let mut r = Reader::new(all);
    let mut g = Grammar::default();
    r.expect_enter(RuleKind::File);
    let ghost a = r@;
    let ghost g0 = grammar_view(g);
    while r.peek_enter() == Some(RuleKind::Item)
        invariant
            r.wf(),
            g.name@ == Seq::<char>::empty(),
            items_of(a, g0) == items_of(r@, grammar_view(g)),
        decreases reader::left(r@),
    {
        read_item(&mut r, &mut g);
    }
    r.expect_exit(RuleKind::File);
    if r.has_issues() {
        Err(r.into_issues())
    } else {
        Ok(g)
    }
}

/// What the text of a grammar file comes to: what the events of a parse come
/// to. The table is what the grammar of the notation is lowered to; where the
/// grammar cannot be analysed and lowered, it is the one that is kept as numbers.
pub open spec fn parsed(source: Seq<char>, r: Result<Grammar, Vec<Error>>) -> bool {
    ||| exists|st: StateTable, i: int| #[trigger]
        file_table::is_file_table(st, i) && grammar_of(
            syntax::file_events(st, st.entry_states@[i].1, source),
            r,
        )
    ||| (exists|g: Grammar, o: AnalysisOutcome| #[trigger] file_table::notation_fails(g, o)) && (
    exists|st: StateTable| #[trigger]
        notation::is_notation_table(st) && grammar_of(
            syntax::file_events(st, notation::notation().entry, source),
            r,
        ))
}

/// The same of a grammar that is parsed from a file.
pub proof fn law_parsed_grammars_are_named_well(source: Seq<char>, g: Grammar)
    requires
        parsed(source, Ok(g)),
    ensures
        named_well(grammar_view(g)),
{
    let l = choose|l: Seq<SyntaxView>| #[trigger] grammar_of(l, Ok(g));
    law_read_grammars_are_named_well(l, g);
}

/// Parse a grammar file into a [`Grammar`].
///
/// All that is wrong with the syntax is returned, not only the first error.
/// Semantic checks come later, in the analysis. The file is shorter than
/// 4 GiB: positions have 32 bits.
pub fn parse_grammar(source: &str) -> (r: Result<Grammar, Vec<Error>>)
    requires
        vstd::utf8::encode_utf8(source@).len() < u32::MAX - 1,
    ensures
        parsed(source@, r),
{
    match file_table::file_table() {
        Some((st, i)) => {
            assert(file_table::is_file_table(st, i as int));
            let all = syntax::parse_file(&st, st.entry_states[i].1, source);
            read_grammar(all)
        },
        None => {
            let (st, entry) = notation::notation_table();
            let all = syntax::parse_file(&st, entry, source);
            assert(notation::is_notation_table(st));
            read_grammar(all)
        },
    }
}

} // verus!
