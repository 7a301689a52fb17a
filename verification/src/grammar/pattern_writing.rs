//! Token patterns written down as the events that they are read from.
use vstd::prelude::*;

use crate::codegen::common;
use crate::grammar::ir::{ClassItem, ClassView, PatternView};
use crate::grammar::literal;
use crate::grammar::literal_laws;
use crate::grammar::parser::{self, NegView};
use crate::grammar::reader::{self, ReadView};
use crate::grammar::rule_writing::{self, Form};
use crate::grammar::syntax::{RuleKind, SyntaxView, TokenKind};
use crate::runtime::events::EventView;
use crate::span::Span;
use crate::text;

verus! {

/// In which order the forms of a pattern are made of each other.
pub open spec fn level(e: PatternView, f: Form) -> nat {
    match e {
        PatternView::Alt(_) => match f {
            Form::Sequence => 5,
            Form::Item => 4,
            Form::Primary => 3,
            Form::Alternatives => 2,
        },
        PatternView::Concat(_) | PatternView::Empty => match f {
            Form::Item => 5,
            Form::Primary => 4,
            Form::Alternatives => 3,
            Form::Sequence => 2,
        },
        PatternView::Opt(_) | PatternView::Star(_) | PatternView::Plus(_) => match f {
            Form::Primary => 5,
            Form::Alternatives => 4,
            Form::Sequence => 3,
            Form::Item => 2,
        },
        _ => match f {
            Form::Alternatives => 5,
            Form::Sequence => 4,
            Form::Item => 3,
            Form::Primary => 2,
        },
    }
}

/// A character in single quotes.
pub open spec fn char_text(c: u32) -> Seq<char> {
    literal_laws::quoted_unicode(text::hex(c as nat, false))
}

/// A string in double quotes.
pub open spec fn string_text(s: Seq<char>) -> Seq<char> {
    literal_laws::quoted_text(common::escaped_upto(s, s.len(), true))
}

/// A character or a range of characters.
pub open spec fn wrote_chars(i: ClassItem, at: Span) -> Seq<SyntaxView> {
    match i {
        ClassItem::Char(c) => rule_writing::enter(RuleKind::CharPrimary, at) + rule_writing::tok(
            TokenKind::Char,
            char_text(c),
            at,
        ) + rule_writing::exit(RuleKind::CharPrimary, at),
        ClassItem::Range(lo, hi) => rule_writing::enter(RuleKind::CharPrimary, at) + rule_writing::tok(
            TokenKind::Char,
            char_text(lo),
            at,
        ) + rule_writing::tok(TokenKind::Dotdot, seq!['.', '.'], at) + rule_writing::tok(TokenKind::Char, char_text(hi), at)
            + rule_writing::exit(RuleKind::CharPrimary, at),
    }
}

/// The `i`th of what a negation lists: characters and ranges, then strings.
pub open spec fn wrote_negated(
    items: Seq<ClassItem>,
    strings: Seq<Seq<char>>,
    i: int,
    at: Span,
) -> Seq<SyntaxView> {
    if i < items.len() {
        wrote_chars(items[i], at)
    } else {
        rule_writing::tok(TokenKind::Str, string_text(strings[i - items.len()]), at)
    }
}

/// The first `n` of what a negation lists, with bars between them.
pub open spec fn wrote_list(
    items: Seq<ClassItem>,
    strings: Seq<Seq<char>>,
    at: Span,
    n: nat,
) -> Seq<SyntaxView>
    decreases n,
{
    if n == 0 {
        Seq::empty()
    } else {
        wrote_list(items, strings, at, (n - 1) as nat) + (if n > 1 {
            rule_writing::tok(TokenKind::Pipe, seq!['|'], at)
        } else {
            Seq::empty()
        }) + wrote_negated(items, strings, n - 1, at)
    }
}

/// A negation.
pub open spec fn wrote_negation(
    items: Seq<ClassItem>,
    strings: Seq<Seq<char>>,
    at: Span,
) -> Seq<SyntaxView> {
    rule_writing::enter(RuleKind::NegClass, at) + rule_writing::tok(TokenKind::Bang, seq!['!'], at) + rule_writing::tok(
        TokenKind::Lparen,
        seq!['('],
        at,
    ) + wrote_list(items, strings, at, items.len() + strings.len()) + rule_writing::tok(
        TokenKind::Rparen,
        seq![')'],
        at,
    ) + rule_writing::exit(RuleKind::NegClass, at)
}

/// What stands in an atom.
pub open spec fn wrote_atom(p: PatternView, at: Span) -> Seq<SyntaxView> {
    match p {
        PatternView::Literal(s) => rule_writing::tok(TokenKind::Str, string_text(s), at),
        PatternView::Ref(n) => rule_writing::tok(TokenKind::Ident, n, at),
        PatternView::Class(c) => if !c.negated {
            wrote_chars(c.items[0], at)
        } else if c.items.len() == 0 {
            rule_writing::enter(RuleKind::CharPrimary, at) + rule_writing::tok(TokenKind::Dot, seq!['.'], at) + rule_writing::exit(
                RuleKind::CharPrimary,
                at,
            )
        } else {
            wrote_negation(c.items, Seq::empty(), at)
        },
        PatternView::NegLook(c, strings) => wrote_negation(c.items, strings, at),
        _ => Seq::empty(),
    }
}

/// A pattern in a form.
pub open spec fn wrote(e: PatternView, f: Form, at: Span) -> Seq<SyntaxView>
    decreases e, level(e, f),
{
    match f {
        Form::Alternatives => {
            let inside = match e {
                PatternView::Alt(xs) => wrote_all(xs, Form::Sequence, at, xs.len()),
                _ => wrote(e, Form::Sequence, at),
            };
            rule_writing::enter(RuleKind::AltExpr, at) + inside + rule_writing::exit(RuleKind::AltExpr, at)
        },
        Form::Sequence => {
            let inside = match e {
                PatternView::Concat(xs) => wrote_all(xs, Form::Item, at, xs.len()),
                PatternView::Empty => Seq::empty(),
                _ => wrote(e, Form::Item, at),
            };
            rule_writing::enter(RuleKind::SeqExpr, at) + inside + rule_writing::exit(RuleKind::SeqExpr, at)
        },
        Form::Item => match e {
            PatternView::Opt(x) => wrote(*x, Form::Item, at) + rule_writing::tok(TokenKind::Question, seq!['?'], at),
            PatternView::Star(x) => wrote(*x, Form::Item, at) + rule_writing::tok(TokenKind::Star, seq!['*'], at),
            PatternView::Plus(x) => wrote(*x, Form::Item, at) + rule_writing::tok(TokenKind::Plus, seq!['+'], at),
            _ => wrote(e, Form::Primary, at),
        },
        Form::Primary => match e {
            PatternView::Literal(_) | PatternView::Ref(_) | PatternView::Class(_)
            | PatternView::NegLook(_, _) => rule_writing::enter(RuleKind::Atom, at) + wrote_atom(e, at) + rule_writing::exit(
                RuleKind::Atom,
                at,
            ),
            _ => rule_writing::enter(RuleKind::Group, at) + rule_writing::tok(TokenKind::Lparen, seq!['('], at) + wrote(
                e,
                Form::Alternatives,
                at,
            ) + rule_writing::tok(TokenKind::Rparen, seq![')'], at) + rule_writing::exit(RuleKind::Group, at),
        },
    }
}

/// The first `n` of the patterns in a form; sequences with bars between them.
pub open spec fn wrote_all(xs: Seq<PatternView>, f: Form, at: Span, n: nat) -> Seq<SyntaxView>
    decreases xs, n,
{
    if n == 0 || n > xs.len() {
        Seq::empty()
    } else {
        wrote_all(xs, f, at, (n - 1) as nat) + rule_writing::between(f, at, n) + wrote(xs[n - 1], f, at)
    }
}

/// The codepoints are those of characters.
pub open spec fn chars_right(i: ClassItem) -> bool {
    match i {
        ClassItem::Char(c) => vstd::utf8::is_scalar(c),
        ClassItem::Range(lo, hi) => vstd::utf8::is_scalar(lo) && vstd::utf8::is_scalar(hi),
    }
}

/// The pattern is one that can be written: sequences and alternations have at
/// least two parts, a class is one range or a negation, and a negation with
/// strings, which are longer than a character, lists no range.
pub open spec fn writable(p: PatternView) -> bool
    decreases p,
{
    match p {
        PatternView::Empty => true,
        PatternView::Literal(_) => true,
        PatternView::Ref(_) => true,
        PatternView::Class(c) => {
            &&& !c.negated ==> c.items.len() == 1 && c.items[0] is Range
            &&& forall|i: int| 0 <= i < c.items.len() ==> chars_right(#[trigger] c.items[i])
        },
        PatternView::NegLook(c, strings) => {
            &&& c.negated
            &&& strings.len() > 0
            &&& forall|i: int|
                0 <= i < c.items.len() ==> chars_right(#[trigger] c.items[i]) && c.items[i] is Char
            &&& forall|i: int| 0 <= i < strings.len() ==> (#[trigger] strings[i]).len() >= 2
        },
        PatternView::Concat(xs) => xs.len() >= 2 && forall|i: int|
            0 <= i < xs.len() ==> writable(#[trigger] xs[i]),
        PatternView::Alt(xs) => xs.len() >= 2 && forall|i: int|
            0 <= i < xs.len() ==> writable(#[trigger] xs[i]),
        PatternView::Opt(x) => writable(*x),
        PatternView::Star(x) => writable(*x),
        PatternView::Plus(x) => writable(*x),
    }
}

/// An item with its quantifiers.
pub open spec fn item_of(s: ReadView) -> (ReadView, PatternView) {
    if reader::entered(s) == Some(RuleKind::Atom) {
        parser::pattern_primary(s)
    } else {
        parser::pattern_group(s)
    }
}

/// What reading what was written gives.
pub open spec fn read_back(e: PatternView, f: Form, at: Span, s: ReadView) -> bool {
    let t = rule_writing::behind(s, wrote(e, f, at).len());
    match f {
        Form::Alternatives => parser::pattern_alt(s) == (t, e),
        Form::Sequence => parser::pattern_seq(s) == (t, e),
        _ => {
            &&& reader::entered(s) == Some(RuleKind::Atom) || reader::entered(s) == Some(
                RuleKind::Group,
            )
            &&& item_of(s) == parser::pattern_quantified(t, e)
            &&& s.pos < t.pos
        },
    }
}

proof fn lemma_written_front(e: PatternView, f: Form, at: Span)
    requires
        f == Form::Item || f == Form::Primary,
    ensures
        wrote(e, f, at).len() > 0,
        match wrote(e, f, at)[0] {
            EventView::Enter(k, _) => k == RuleKind::Atom || k == RuleKind::Group,
            _ => false,
        },
    decreases e, level(e, f),
{
    match f {
        Form::Item => match e {
            PatternView::Opt(x) => lemma_written_front(*x, f, at),
            PatternView::Star(x) => lemma_written_front(*x, f, at),
            PatternView::Plus(x) => lemma_written_front(*x, f, at),
            _ => lemma_written_front(e, Form::Primary, at),
        },
        _ => {},
    }
}

/// The first of several are written first.
proof fn lemma_first_of_all(xs: Seq<PatternView>, f: Form, at: Span, i: nat, n: nat) -> (rest: Seq<
    SyntaxView,
>)
    requires
        i <= n <= xs.len(),
    ensures
        wrote_all(xs, f, at, n) == wrote_all(xs, f, at, i) + rest,
    decreases n,
{
    if i == n {
        assert(wrote_all(xs, f, at, n) =~= wrote_all(xs, f, at, i) + Seq::empty());
        Seq::empty()
    } else {
        let r = lemma_first_of_all(xs, f, at, i, (n - 1) as nat);
        let more = rule_writing::between(f, at, n) + wrote(xs[n - 1], f, at);
        assert(wrote_all(xs, f, at, n) =~= wrote_all(xs, f, at, i) + (r + more));
        r + more
    }
}

/// Where the `i`th of several begins, and what comes behind it.
proof fn lemma_one_of_all(
    xs: Seq<PatternView>,
    f: Form,
    at: Span,
    i: nat,
    s: ReadView,
    last: Seq<SyntaxView>,
)
    requires
        i < xs.len(),
        rule_writing::holds(s, wrote_all(xs, f, at, xs.len()) + last),
    ensures
        ({
            let a = rule_writing::behind(s, wrote_all(xs, f, at, i).len());
            let b = rule_writing::behind(a, rule_writing::between(f, at, i + 1).len());
            &&& rule_writing::holds(a, rule_writing::between(f, at, i + 1))
            &&& rule_writing::holds(b, wrote(xs[i as int], f, at))
            &&& rule_writing::behind(b, wrote(xs[i as int], f, at).len()) == rule_writing::behind(
                s,
                wrote_all(xs, f, at, i + 1).len(),
            )
        }),
{
    let all = wrote_all(xs, f, at, xs.len());
    rule_writing::lemma_holds(s, all, last);
    let rest = lemma_first_of_all(xs, f, at, i + 1, xs.len());
    rule_writing::lemma_holds(s, wrote_all(xs, f, at, i + 1), rest);
    let x = wrote(xs[i as int], f, at);
    let m = rule_writing::between(f, at, i + 1);
    let p = wrote_all(xs, f, at, i);
    assert(wrote_all(xs, f, at, i + 1) == p + m + x);
    rule_writing::lemma_holds(s, p + m, x);
    rule_writing::lemma_holds(s, p, m);
}

/// What comes behind the last of several.
proof fn lemma_behind_all(
    xs: Seq<PatternView>,
    f: Form,
    at: Span,
    i: nat,
    s: ReadView,
    last: SyntaxView,
)
    requires
        i <= xs.len(),
        rule_writing::holds(s, wrote_all(xs, f, at, xs.len()) + seq![last]),
    ensures
        ({
            let a = rule_writing::behind(s, wrote_all(xs, f, at, i).len());
            if i == xs.len() {
                reader::peeked(a) == Some(last)
            } else if f == Form::Item || f == Form::Primary {
                reader::peeked(a) == Some(wrote(xs[i as int], f, at)[0])
            } else {
                true
            }
        }),
{
    if i == xs.len() {
        rule_writing::lemma_holds(s, wrote_all(xs, f, at, xs.len()), seq![last]);
        rule_writing::lemma_next(rule_writing::behind(s, wrote_all(xs, f, at, i).len()), last);
    } else if f == Form::Item || f == Form::Primary {
        lemma_one_of_all(xs, f, at, i, s, seq![last]);
        let a = rule_writing::behind(s, wrote_all(xs, f, at, i).len());
        let x = wrote(xs[i as int], f, at);
        lemma_written_front(xs[i as int], f, at);
        assert(rule_writing::behind(a, 0) == a);
        assert(x =~= seq![x[0]] + x.skip(1));
        rule_writing::lemma_holds(a, seq![x[0]], x.skip(1));
        rule_writing::lemma_next(a, x[0]);
    }
}

/// Behind an item that no quantifier follows, the reading of a sequence goes on.
proof fn lemma_item_read(e: PatternView, at: Span, s: ReadView, acc: Seq<PatternView>)
    requires
        read_back(e, Form::Item, at, s),
        s.pos + wrote(e, Form::Item, at).len() <= s.events.len(),
        ({
            let t = rule_writing::behind(s, wrote(e, Form::Item, at).len());
            !reader::at_token(t, TokenKind::Question) && !reader::at_token(t, TokenKind::Star)
                && !reader::at_token(t, TokenKind::Plus)
        }),
    ensures
        parser::pattern_items(s, acc) == parser::pattern_items(
            rule_writing::behind(s, wrote(e, Form::Item, at).len()),
            acc.push(e),
        ),
{
    let t = rule_writing::behind(s, wrote(e, Form::Item, at).len());
    assert(parser::pattern_quantified(t, e) == (t, e));
    assert(reader::left(t) < reader::left(s));
}

/// The items of a sequence are read one after the other.
proof fn lemma_items(xs: Seq<PatternView>, at: Span, s: ReadView, last: SyntaxView, i: nat)
    requires
        i <= xs.len(),
        forall|j: int| 0 <= j < xs.len() ==> writable(#[trigger] xs[j]),
        rule_writing::holds(s, wrote_all(xs, Form::Item, at, xs.len()) + seq![last]),
        last matches EventView::Exit(_, _),
    ensures
        parser::pattern_items(
            rule_writing::behind(s, wrote_all(xs, Form::Item, at, i).len()),
            xs.take(i as int),
        ) == (rule_writing::behind(s, wrote_all(xs, Form::Item, at, xs.len()).len()), xs),
    decreases xs, xs.len() - i, 0nat,
{
    let f = Form::Item;
    let a = rule_writing::behind(s, wrote_all(xs, f, at, i).len());
    lemma_behind_all(xs, f, at, i, s, last);
    if i == xs.len() {
        assert(xs.take(i as int) =~= xs);
    } else {
        let x = xs[i as int];
        let b = rule_writing::behind(s, wrote_all(xs, f, at, i + 1).len());
        lemma_one_of_all(xs, f, at, i, s, seq![last]);
        assert(rule_writing::behind(a, 0) == a);
        lemma_reads(x, f, at, a);
        lemma_behind_all(xs, f, at, i + 1, s, last);
        if i + 1 < xs.len() {
            lemma_written_front(xs[i as int + 1], f, at);
        }
        lemma_item_read(x, at, a, xs.take(i as int));
        assert(xs.take(i as int).push(x) =~= xs.take(i as int + 1));
        lemma_items(xs, at, s, last, i + 1);
    }
}

/// Further alternatives are read one after the other.
proof fn lemma_alts(xs: Seq<PatternView>, at: Span, s: ReadView, last: SyntaxView, i: nat)
    requires
        1 <= i <= xs.len(),
        forall|j: int| 0 <= j < xs.len() ==> writable(#[trigger] xs[j]),
        rule_writing::holds(s, wrote_all(xs, Form::Sequence, at, xs.len()) + seq![last]),
        last matches EventView::Exit(_, _),
    ensures
        parser::pattern_alts(
            rule_writing::behind(s, wrote_all(xs, Form::Sequence, at, i).len()),
            xs.take(i as int),
        ) == (rule_writing::behind(s, wrote_all(xs, Form::Sequence, at, xs.len()).len()), xs),
    decreases xs, xs.len() - i, 0nat,
{
    let f = Form::Sequence;
    let a = rule_writing::behind(s, wrote_all(xs, f, at, i).len());
    lemma_behind_all(xs, f, at, i, s, last);
    if i == xs.len() {
        assert(xs.take(i as int) =~= xs);
    } else {
        let x = xs[i as int];
        lemma_one_of_all(xs, f, at, i, s, seq![last]);
        rule_writing::lemma_next(a, rule_writing::between(f, at, i + 1)[0]);
        let b = rule_writing::behind(a, 1);
        lemma_reads(x, f, at, b);
        assert(xs.take(i as int).push(x) =~= xs.take(i as int + 1));
        lemma_alts(xs, at, s, last, i + 1);
    }
}

/// Reading what was written gives the pattern back.
pub proof fn lemma_reads(e: PatternView, f: Form, at: Span, s: ReadView)
    requires
        writable(e),
        rule_writing::holds(s, wrote(e, f, at)),
    ensures
        read_back(e, f, at, s),
    decreases e, level(e, f), 1nat,
{
    match f {
        Form::Alternatives => lemma_reads_alt(e, at, s),
        Form::Sequence => lemma_reads_seq(e, at, s),
        Form::Item => lemma_reads_item(e, at, s),
        Form::Primary => lemma_reads_primary(e, at, s),
    }
}

proof fn lemma_reads_alt(e: PatternView, at: Span, s: ReadView)
    requires
        writable(e),
        rule_writing::holds(s, wrote(e, Form::Alternatives, at)),
    ensures
        read_back(e, Form::Alternatives, at, s),
    decreases e, level(e, Form::Alternatives), 0nat,
{
    let open = rule_writing::enter(RuleKind::AltExpr, at);
    let close = rule_writing::exit(RuleKind::AltExpr, at);
    let a = rule_writing::behind(s, 1);
    match e {
        PatternView::Alt(xs) => {
            let inside = wrote_all(xs, Form::Sequence, at, xs.len());
            assert(wrote(e, Form::Alternatives, at) =~= open + (inside + close));
            rule_writing::lemma_holds(s, open, inside + close);
            rule_writing::lemma_next(s, open[0]);
            lemma_one_of_all(xs, Form::Sequence, at, 0, a, close);
            assert(wrote_all(xs, Form::Sequence, at, 0).len() == 0);
            assert(rule_writing::behind(rule_writing::behind(a, 0), 0) == a);
            lemma_reads(xs[0], Form::Sequence, at, a);
            assert(xs.take(1) =~= seq![xs[0]]);
            lemma_alts(xs, at, a, close[0], 1);
            rule_writing::lemma_holds(a, inside, close);
            rule_writing::lemma_next(rule_writing::behind(a, inside.len()), close[0]);
        },
        _ => {
            let inside = wrote(e, Form::Sequence, at);
            assert(wrote(e, Form::Alternatives, at) =~= open + (inside + close));
            rule_writing::lemma_holds(s, open, inside + close);
            rule_writing::lemma_next(s, open[0]);
            rule_writing::lemma_holds(a, inside, close);
            lemma_reads(e, Form::Sequence, at, a);
            rule_writing::lemma_next(rule_writing::behind(a, inside.len()), close[0]);
        },
    }
}

proof fn lemma_reads_seq(e: PatternView, at: Span, s: ReadView)
    requires
        writable(e),
        rule_writing::holds(s, wrote(e, Form::Sequence, at)),
    ensures
        read_back(e, Form::Sequence, at, s),
    decreases e, level(e, Form::Sequence), 0nat,
{
    let open = rule_writing::enter(RuleKind::SeqExpr, at);
    let close = rule_writing::exit(RuleKind::SeqExpr, at);
    let a = rule_writing::behind(s, 1);
    match e {
        PatternView::Concat(xs) => {
            let inside = wrote_all(xs, Form::Item, at, xs.len());
            assert(wrote(e, Form::Sequence, at) =~= open + (inside + close));
            rule_writing::lemma_holds(s, open, inside + close);
            rule_writing::lemma_next(s, open[0]);
            assert(wrote_all(xs, Form::Item, at, 0).len() == 0);
            assert(rule_writing::behind(a, 0) == a);
            assert(xs.take(0) =~= Seq::empty());
            lemma_items(xs, at, a, close[0], 0);
            rule_writing::lemma_holds(a, inside, close);
            rule_writing::lemma_next(rule_writing::behind(a, inside.len()), close[0]);
        },
        PatternView::Empty => {
            assert(wrote(e, Form::Sequence, at) =~= open + close);
            rule_writing::lemma_holds(s, open, close);
            rule_writing::lemma_next(s, open[0]);
            rule_writing::lemma_next(a, close[0]);
        },
        _ => {
            let inside = wrote(e, Form::Item, at);
            assert(wrote(e, Form::Sequence, at) =~= open + (inside + close));
            rule_writing::lemma_holds(s, open, inside + close);
            rule_writing::lemma_next(s, open[0]);
            rule_writing::lemma_holds(a, inside, close);
            lemma_reads(e, Form::Item, at, a);
            let t = rule_writing::behind(a, inside.len());
            rule_writing::lemma_next(t, close[0]);
            lemma_item_read(e, at, a, Seq::empty());
            assert(parser::pattern_items(t, Seq::empty().push(e)) == (t, Seq::empty().push(e)));
        },
    }
}

proof fn lemma_reads_item(e: PatternView, at: Span, s: ReadView)
    requires
        writable(e),
        rule_writing::holds(s, wrote(e, Form::Item, at)),
    ensures
        read_back(e, Form::Item, at, s),
    decreases e, level(e, Form::Item), 0nat,
{
    let t = rule_writing::behind(s, wrote(e, Form::Item, at).len());
    match e {
        PatternView::Opt(x) => {
            let q = rule_writing::tok(TokenKind::Question, seq!['?'], at);
            rule_writing::lemma_holds(s, wrote(*x, Form::Item, at), q);
            lemma_reads(*x, Form::Item, at, s);
            rule_writing::lemma_next(rule_writing::behind(s, wrote(*x, Form::Item, at).len()), q[0]);
        },
        PatternView::Star(x) => {
            let q = rule_writing::tok(TokenKind::Star, seq!['*'], at);
            rule_writing::lemma_holds(s, wrote(*x, Form::Item, at), q);
            lemma_reads(*x, Form::Item, at, s);
            rule_writing::lemma_next(rule_writing::behind(s, wrote(*x, Form::Item, at).len()), q[0]);
        },
        PatternView::Plus(x) => {
            let q = rule_writing::tok(TokenKind::Plus, seq!['+'], at);
            rule_writing::lemma_holds(s, wrote(*x, Form::Item, at), q);
            lemma_reads(*x, Form::Item, at, s);
            rule_writing::lemma_next(rule_writing::behind(s, wrote(*x, Form::Item, at).len()), q[0]);
        },
        _ => {
            lemma_reads(e, Form::Primary, at, s);
        },
    }
}

proof fn lemma_reads_primary(e: PatternView, at: Span, s: ReadView)
    requires
        writable(e),
        rule_writing::holds(s, wrote(e, Form::Primary, at)),
    ensures
        read_back(e, Form::Primary, at, s),
    decreases e, level(e, Form::Primary), 0nat,
{
    match e {
        PatternView::Literal(_) | PatternView::Ref(_) | PatternView::Class(_)
        | PatternView::NegLook(_, _) => {
            let open = rule_writing::enter(RuleKind::Atom, at);
            let inside = wrote_atom(e, at);
            let close = rule_writing::exit(RuleKind::Atom, at);
            assert(wrote(e, Form::Primary, at) =~= open + (inside + close));
            rule_writing::lemma_holds(s, open, inside + close);
            rule_writing::lemma_next(s, open[0]);
            let a = rule_writing::behind(s, 1);
            rule_writing::lemma_holds(a, inside, close);
            rule_writing::lemma_next(rule_writing::behind(a, inside.len()), close[0]);
            lemma_reads_atom(e, at, a);
        },
        _ => {
            let open = rule_writing::enter(RuleKind::Group, at);
            let left = rule_writing::tok(TokenKind::Lparen, seq!['('], at);
            let inside = wrote(e, Form::Alternatives, at);
            let right = rule_writing::tok(TokenKind::Rparen, seq![')'], at);
            let close = rule_writing::exit(RuleKind::Group, at);
            assert(wrote(e, Form::Primary, at) =~= open + (left + (inside + (right + close))));
            rule_writing::lemma_holds(s, open, left + (inside + (right + close)));
            rule_writing::lemma_next(s, open[0]);
            let a = rule_writing::behind(s, 1);
            rule_writing::lemma_holds(a, left, inside + (right + close));
            rule_writing::lemma_next(a, left[0]);
            let b = rule_writing::behind(a, 1);
            rule_writing::lemma_holds(b, inside, right + close);
            lemma_reads(e, Form::Alternatives, at, b);
            let c = rule_writing::behind(b, inside.len());
            rule_writing::lemma_holds(c, right, close);
            rule_writing::lemma_next(c, right[0]);
            rule_writing::lemma_next(rule_writing::behind(c, 1), close[0]);
        },
    }
}

/// What stands in an atom, as it is read.
pub open spec fn atom_of(a: ReadView) -> (ReadView, PatternView) {
    match reader::entered(a) {
        Some(RuleKind::CharPrimary) => parser::char_primary(a),
        Some(RuleKind::NegClass) => parser::neg_class(a),
        _ => {
            let (b, t) = reader::token_next(a);
            parser::pattern_atom(b, t)
        },
    }
}

proof fn lemma_char_text(c: u32)
    requires
        vstd::utf8::is_scalar(c),
    ensures
        literal::char_literal(char_text(c)) == (c, None::<Seq<char>>),
{
    let ds = text::hex(c as nat, false);
    literal_laws::law_hexadecimal_is_positional(c as nat, false);
    assert forall|i: int| 0 <= i < ds.len() implies #[trigger] ds[i] != '}' by {
        assert(literal_laws::digit_value(ds[i]) < 16);
    }
    literal_laws::law_unicode_escapes_are_hexadecimal(ds);
}

proof fn lemma_noted(s: ReadView, at: Span)
    ensures
        parser::noted(s, Seq::empty(), at) == s,
        parser::noted(s, literal::one_message(None), at) == s,
{
    assert(parser::noted(s, Seq::empty(), at).issues =~= s.issues);
    assert(literal::one_message(None) =~= Seq::<Seq<char>>::empty());
}

proof fn lemma_reads_chars(i: ClassItem, at: Span, s: ReadView)
    requires
        chars_right(i),
        rule_writing::holds(s, wrote_chars(i, at)),
    ensures
        reader::entered(s) == Some(RuleKind::CharPrimary),
        parser::char_primary(s) == (
            rule_writing::behind(s, wrote_chars(i, at).len()),
            match i {
                ClassItem::Char(c) => PatternView::Literal(seq![c as char]),
                ClassItem::Range(_, _) => PatternView::Class(
                    ClassView { negated: false, items: seq![i] },
                ),
            },
        ),
{
    let open = rule_writing::enter(RuleKind::CharPrimary, at);
    let close = rule_writing::exit(RuleKind::CharPrimary, at);
    match i {
        ClassItem::Char(c) => {
            let one = rule_writing::tok(TokenKind::Char, char_text(c), at);
            rule_writing::lemma_holds(s, open + one, close);
            rule_writing::lemma_holds(s, open, one);
            rule_writing::lemma_next(s, open[0]);
            rule_writing::lemma_next(rule_writing::behind(s, 1), one[0]);
            rule_writing::lemma_next(rule_writing::behind(s, 2), close[0]);
            lemma_char_text(c);
            lemma_noted(rule_writing::behind(s, 2), at);
        },
        ClassItem::Range(lo, hi) => {
            let one = rule_writing::tok(TokenKind::Char, char_text(lo), at);
            let dots = rule_writing::tok(TokenKind::Dotdot, seq!['.', '.'], at);
            let two = rule_writing::tok(TokenKind::Char, char_text(hi), at);
            rule_writing::lemma_holds(s, open + one + dots + two, close);
            rule_writing::lemma_holds(s, open + one + dots, two);
            rule_writing::lemma_holds(s, open + one, dots);
            rule_writing::lemma_holds(s, open, one);
            rule_writing::lemma_next(s, open[0]);
            rule_writing::lemma_next(rule_writing::behind(s, 1), one[0]);
            rule_writing::lemma_next(rule_writing::behind(s, 2), dots[0]);
            rule_writing::lemma_next(rule_writing::behind(s, 3), two[0]);
            rule_writing::lemma_next(rule_writing::behind(s, 4), close[0]);
            lemma_char_text(lo);
            lemma_char_text(hi);
            lemma_noted(rule_writing::behind(s, 2), at);
            lemma_noted(rule_writing::behind(s, 4), at);
        },
    }
}

/// What a negation lists after the first `n`.
spec fn listed(
    s: ReadView,
    items: Seq<ClassItem>,
    strings: Seq<Seq<char>>,
    at: Span,
    n: nat,
) -> NegView {
    NegView {
        read: rule_writing::behind(s, wrote_list(items, strings, at, n).len()),
        items: if n <= items.len() {
            items.take(n as int)
        } else {
            items
        },
        strings: if n <= items.len() {
            Seq::empty()
        } else {
            strings.take(n - items.len())
        },
    }
}

/// What a negation can list.
spec fn list_right(items: Seq<ClassItem>, strings: Seq<Seq<char>>) -> bool {
    &&& items.len() + strings.len() > 0
    &&& forall|i: int| 0 <= i < items.len() ==> chars_right(#[trigger] items[i])
    &&& forall|i: int| 0 <= i < strings.len() ==> (#[trigger] strings[i]).len() >= 2
}

proof fn lemma_list_front(
    items: Seq<ClassItem>,
    strings: Seq<Seq<char>>,
    at: Span,
    i: nat,
    n: nat,
) -> (rest: Seq<SyntaxView>)
    requires
        i <= n,
    ensures
        wrote_list(items, strings, at, n) == wrote_list(items, strings, at, i) + rest,
    decreases n,
{
    if i == n {
        assert(wrote_list(items, strings, at, n) =~= wrote_list(items, strings, at, i)
            + Seq::empty());
        Seq::empty()
    } else {
        let r = lemma_list_front(items, strings, at, i, (n - 1) as nat);
        let bar = if n > 1 {
            rule_writing::tok(TokenKind::Pipe, seq!['|'], at)
        } else {
            Seq::empty()
        };
        let more = bar + wrote_negated(items, strings, n - 1, at);
        assert(wrote_list(items, strings, at, n) =~= wrote_list(items, strings, at, i) + (r
            + more));
        r + more
    }
}

/// One of what a negation lists is read.
proof fn lemma_reads_negated(
    s: ReadView,
    items: Seq<ClassItem>,
    strings: Seq<Seq<char>>,
    at: Span,
    i: nat,
    n: NegView,
)
    requires
        list_right(items, strings),
        i < items.len() + strings.len(),
        rule_writing::holds(n.read, wrote_negated(items, strings, i as int, at)),
        n.items == listed(s, items, strings, at, i).items,
        n.strings == listed(s, items, strings, at, i).strings,
    ensures
        parser::neg_atom(n, at) == (NegView {
            read: rule_writing::behind(n.read, wrote_negated(items, strings, i as int, at).len()),
            items: listed(s, items, strings, at, i + 1).items,
            strings: listed(s, items, strings, at, i + 1).strings,
        }),
{
    if i < items.len() {
        let x = items[i as int];
        let open = rule_writing::enter(RuleKind::CharPrimary, at);
        let all = wrote_chars(x, at);
        assert(all =~= open + all.skip(1));
        rule_writing::lemma_holds(n.read, open, all.skip(1));
        rule_writing::lemma_next(n.read, open[0]);
        lemma_reads_chars(x, at, n.read);
        assert(items.take(i as int).push(x) =~= items.take(i as int + 1));
        match x {
            ClassItem::Char(c) => {
                let l = seq![c as char];
                assert(l[0] as u32 == c);
            },
            ClassItem::Range(lo, hi) => {
                assert(items.take(i as int) + seq![x] =~= items.take(i as int + 1));
            },
        }
        if i + 1 == items.len() {
            assert(items.take(i as int + 1) =~= items);
        }
    } else {
        let j = i - items.len();
        let t = strings[j];
        let one = rule_writing::tok(TokenKind::Str, string_text(t), at);
        rule_writing::lemma_next(n.read, one[0]);
        literal_laws::law_escaped_strings_are_read_back(t);
        lemma_noted(rule_writing::behind(n.read, 1), at);
        if i == items.len() {
            assert(items.take(i as int) =~= items);
            assert(strings.take(0) =~= Seq::empty());
        }
        assert(strings.take(j).push(t) =~= strings.take(j + 1));
    }
}

/// What a negation lists is read one after the other.
proof fn lemma_reads_list(
    s: ReadView,
    items: Seq<ClassItem>,
    strings: Seq<Seq<char>>,
    at: Span,
    i: nat,
    n: NegView,
    last: SyntaxView,
)
    requires
        list_right(items, strings),
        i < items.len() + strings.len(),
        rule_writing::holds(
            s,
            wrote_list(items, strings, at, items.len() + strings.len()) + seq![last],
        ),
        last matches EventView::Token(t) && t.kind == Some(TokenKind::Rparen),
        n.read == rule_writing::behind(
            s,
            (wrote_list(items, strings, at, i).len() + (if i > 0 {
                1int
            } else {
                0
            })) as nat,
        ),
        n.items == listed(s, items, strings, at, i).items,
        n.strings == listed(s, items, strings, at, i).strings,
    ensures
        parser::neg_atoms(n, at) == listed(s, items, strings, at, items.len() + strings.len()),
    decreases items.len() + strings.len() - i,
{
    let total = items.len() + strings.len();
    let all = wrote_list(items, strings, at, total);
    let bar = rule_writing::tok(TokenKind::Pipe, seq!['|'], at);
    let x = wrote_negated(items, strings, i as int, at);
    let front = wrote_list(items, strings, at, i);
    rule_writing::lemma_holds(s, all, seq![last]);
    let rest = lemma_list_front(items, strings, at, i + 1, total);
    let upto = wrote_list(items, strings, at, i + 1);
    rule_writing::lemma_holds(s, upto, rest);
    let gap = if i + 1 > 1 {
        bar
    } else {
        Seq::empty()
    };
    assert(upto == front + gap + x);
    rule_writing::lemma_holds(s, front + gap, x);
    assert(n.read == rule_writing::behind(s, (front + gap).len()));
    lemma_reads_negated(s, items, strings, at, i, n);
    let m = parser::neg_atom(n, at);
    assert(m.read == rule_writing::behind(s, upto.len()));
    if i + 1 < total {
        let rest2 = lemma_list_front(items, strings, at, i + 2, total);
        rule_writing::lemma_holds(s, wrote_list(items, strings, at, i + 2), rest2);
        let y = wrote_negated(items, strings, i as int + 1, at);
        assert(wrote_list(items, strings, at, i + 2) == upto + bar + y);
        rule_writing::lemma_holds(s, upto + bar, y);
        rule_writing::lemma_holds(s, upto, bar);
        rule_writing::lemma_next(m.read, bar[0]);
        let next = NegView { read: reader::stepped(m.read), ..m };
        lemma_reads_list(s, items, strings, at, i + 1, next, last);
        assert(parser::neg_atoms(n, at) == parser::neg_atoms(next, at));
    } else {
        rule_writing::lemma_next(rule_writing::behind(s, all.len()), last);
        assert(m.read == rule_writing::behind(s, all.len()));
        assert(m == listed(s, items, strings, at, total));
    }
}

proof fn lemma_reads_negation(
    items: Seq<ClassItem>,
    strings: Seq<Seq<char>>,
    at: Span,
    s: ReadView,
)
    requires
        list_right(items, strings),
        strings.len() > 0 ==> !parser::has_range(items),
        rule_writing::holds(s, wrote_negation(items, strings, at)),
    ensures
        reader::entered(s) == Some(RuleKind::NegClass),
        parser::neg_class(s) == (
            rule_writing::behind(s, wrote_negation(items, strings, at).len()),
            if strings.len() == 0 {
                PatternView::Class(ClassView { negated: true, items })
            } else {
                PatternView::NegLook(ClassView { negated: true, items }, strings)
            },
        ),
{
    let total = items.len() + strings.len();
    let open = rule_writing::enter(RuleKind::NegClass, at);
    let bang = rule_writing::tok(TokenKind::Bang, seq!['!'], at);
    let left = rule_writing::tok(TokenKind::Lparen, seq!['('], at);
    let all = wrote_list(items, strings, at, total);
    let right = rule_writing::tok(TokenKind::Rparen, seq![')'], at);
    let close = rule_writing::exit(RuleKind::NegClass, at);
    assert(wrote_negation(items, strings, at) =~= open + (bang + (left + ((all + right)
        + close))));
    rule_writing::lemma_holds(s, open, bang + (left + ((all + right) + close)));
    rule_writing::lemma_next(s, open[0]);
    let a = rule_writing::behind(s, 1);
    rule_writing::lemma_holds(a, bang, left + ((all + right) + close));
    rule_writing::lemma_next(a, bang[0]);
    let b = rule_writing::behind(a, 1);
    rule_writing::lemma_holds(b, left, (all + right) + close);
    rule_writing::lemma_next(b, left[0]);
    let c = rule_writing::behind(b, 1);
    rule_writing::lemma_holds(c, all + right, close);
    rule_writing::lemma_holds(c, all, right);
    rule_writing::lemma_next(rule_writing::behind(c, all.len()), right[0]);
    rule_writing::lemma_next(rule_writing::behind(c, (all + right).len()), close[0]);
    let none = NegView { read: c, items: Seq::empty(), strings: Seq::empty() };
    assert(items.take(0) =~= Seq::empty());
    assert(wrote_list(items, strings, at, 0).len() == 0);
    lemma_reads_list(c, items, strings, at, 0, none, right[0]);
    let m = listed(c, items, strings, at, total);
    assert(m.items =~= items);
    assert(m.strings =~= strings);
}

proof fn lemma_reads_atom(p: PatternView, at: Span, s: ReadView)
    requires
        writable(p),
        p is Literal || p is Ref || p is Class || p is NegLook,
        rule_writing::holds(s, wrote_atom(p, at)),
    ensures
        atom_of(s) == (rule_writing::behind(s, wrote_atom(p, at).len()), p),
{
    match p {
        PatternView::Literal(t) => {
            let one = rule_writing::tok(TokenKind::Str, string_text(t), at);
            rule_writing::lemma_next(s, one[0]);
            literal_laws::law_escaped_strings_are_read_back(t);
            lemma_noted(rule_writing::behind(s, 1), at);
        },
        PatternView::Ref(n) => {
            let one = rule_writing::tok(TokenKind::Ident, n, at);
            rule_writing::lemma_next(s, one[0]);
        },
        PatternView::Class(c) => {
            if !c.negated {
                let x = c.items[0];
                let all = wrote_chars(x, at);
                lemma_reads_chars(x, at, s);
                assert(c.items =~= seq![x]);
            } else if c.items.len() == 0 {
                let open = rule_writing::enter(RuleKind::CharPrimary, at);
                let dot = rule_writing::tok(TokenKind::Dot, seq!['.'], at);
                let close = rule_writing::exit(RuleKind::CharPrimary, at);
                rule_writing::lemma_holds(s, open + dot, close);
                rule_writing::lemma_holds(s, open, dot);
                rule_writing::lemma_next(s, open[0]);
                rule_writing::lemma_next(rule_writing::behind(s, 1), dot[0]);
                rule_writing::lemma_next(rule_writing::behind(s, 2), close[0]);
                assert(c.items =~= Seq::empty());
            } else {
                lemma_reads_negation(c.items, Seq::empty(), at, s);
            }
        },
        PatternView::NegLook(c, strings) => {
            assert(!parser::has_range(c.items)) by {
                if parser::has_range(c.items) {
                    let i = choose|i: int|
                        0 <= i < c.items.len() && (#[trigger] c.items[i]) is Range;
                    assert(c.items[i] is Char);
                }
            }
            lemma_reads_negation(c.items, strings, at, s);
        },
        _ => {},
    }
}

/// A token pattern that is written down is read back: strings, characters,
/// ranges, negations, references, quantifiers, groups, sequences and
/// alternatives are read as what they were written for, and nothing is found
/// wrong.
pub proof fn law_written_patterns_are_read_back(
    e: PatternView,
    at: Span,
    before: Seq<SyntaxView>,
    after: Seq<SyntaxView>,
    issues: Seq<crate::runtime::events::ErrorView>,
)
    requires
        writable(e),
    ensures
        ({
            let l = wrote(e, Form::Alternatives, at);
            let events = before + l + after;
            parser::pattern_alt(ReadView { events, pos: before.len(), issues }) == (
                ReadView { events, pos: before.len() + l.len(), issues },
                e,
            )
        }),
{
    let l = wrote(e, Form::Alternatives, at);
    let s = ReadView { events: before + l + after, pos: before.len(), issues };
    assert(s.events.subrange(s.pos as int, (s.pos + l.len()) as int) =~= l);
    lemma_reads(e, Form::Alternatives, at, s);
}

} // verus!
