//! Rule bodies written down as the events that they are read from.
use vstd::prelude::*;

use crate::grammar::ir::ExprView;
use crate::grammar::parser;
use crate::grammar::reader::{self, ReadView};
use crate::grammar::syntax::{RuleKind, SyntaxView, TokenKind};
use crate::runtime::events::{EventView, TokenView};
use crate::span::Span;

verus! {

/// The mark that enters a rule of the notation.
pub open spec fn enter(k: RuleKind, at: Span) -> Seq<SyntaxView> {
    seq![EventView::Enter(k, at.start)]
}

/// The mark that leaves a rule of the notation.
pub open spec fn exit(k: RuleKind, at: Span) -> Seq<SyntaxView> {
    seq![EventView::Exit(k, at.end)]
}

/// A token of the notation.
pub open spec fn tok(k: TokenKind, text: Seq<char>, at: Span) -> Seq<SyntaxView> {
    seq![EventView::Token(TokenView { kind: Some(k), span: at, text, label: None })]
}

/// How an expression is written: as alternatives, as a sequence, as an item of a
/// sequence with its label and quantifiers, or as what these stand around.
pub ghost enum Form {
    Alternatives,
    Sequence,
    Item,
    Primary,
}

/// In which order the forms of an expression are made of each other.
pub open spec fn level(e: ExprView, f: Form) -> nat {
    match e {
        ExprView::Alt(_) => match f {
            Form::Sequence => 5,
            Form::Item => 4,
            Form::Primary => 3,
            Form::Alternatives => 2,
        },
        ExprView::Concat(_) | ExprView::Empty => match f {
            Form::Item => 5,
            Form::Primary => 4,
            Form::Alternatives => 3,
            Form::Sequence => 2,
        },
        ExprView::Token(_) | ExprView::Rule(_) => match f {
            Form::Alternatives => 5,
            Form::Sequence => 4,
            Form::Item => 3,
            Form::Primary => 2,
        },
        _ => match f {
            Form::Primary => 5,
            Form::Alternatives => 4,
            Form::Sequence => 3,
            Form::Item => 2,
        },
    }
}

/// An expression in a form.
pub open spec fn wrote(e: ExprView, f: Form, at: Span) -> Seq<SyntaxView>
    decreases e, level(e, f),
{
    match f {
        Form::Alternatives => {
            let inside = match e {
                ExprView::Alt(xs) => wrote_all(xs, Form::Sequence, at, xs.len()),
                _ => wrote(e, Form::Sequence, at),
            };
            enter(RuleKind::AltExpr, at) + inside + exit(RuleKind::AltExpr, at)
        },
        Form::Sequence => {
            let inside = match e {
                ExprView::Concat(xs) => wrote_all(xs, Form::Item, at, xs.len()),
                ExprView::Empty => Seq::empty(),
                _ => wrote(e, Form::Item, at),
            };
            enter(RuleKind::SeqExpr, at) + inside + exit(RuleKind::SeqExpr, at)
        },
        Form::Item => match e {
            ExprView::Opt(x) => wrote(*x, Form::Item, at) + tok(TokenKind::Question, seq!['?'], at),
            ExprView::Star(x) => wrote(*x, Form::Item, at) + tok(TokenKind::Star, seq!['*'], at),
            ExprView::Plus(x) => wrote(*x, Form::Item, at) + tok(TokenKind::Plus, seq!['+'], at),
            ExprView::Label(n, x) => tok(TokenKind::Label, n.push(':'), at) + wrote(
                *x,
                Form::Primary,
                at,
            ),
            _ => wrote(e, Form::Primary, at),
        },
        Form::Primary => match e {
            ExprView::Token(n) => enter(RuleKind::Atom, at) + tok(TokenKind::Ident, n, at) + exit(
                RuleKind::Atom,
                at,
            ),
            ExprView::Rule(n) => enter(RuleKind::Atom, at) + tok(TokenKind::Ident, n, at) + exit(
                RuleKind::Atom,
                at,
            ),
            _ => enter(RuleKind::Group, at) + tok(TokenKind::Lparen, seq!['('], at) + wrote(
                e,
                Form::Alternatives,
                at,
            ) + tok(TokenKind::Rparen, seq![')'], at) + exit(RuleKind::Group, at),
        },
    }
}

/// The first `n` of the expressions in a form; sequences with bars between them.
pub open spec fn wrote_all(xs: Seq<ExprView>, f: Form, at: Span, n: nat) -> Seq<SyntaxView>
    decreases xs, n,
{
    if n == 0 || n > xs.len() {
        Seq::empty()
    } else {
        wrote_all(xs, f, at, (n - 1) as nat) + between(f, at, n) + wrote(xs[n - 1], f, at)
    }
}

/// What stands before the `n`th of several.
pub open spec fn between(f: Form, at: Span, n: nat) -> Seq<SyntaxView> {
    if f == Form::Sequence && n > 1 {
        tok(TokenKind::Pipe, seq!['|'], at)
    } else {
        Seq::empty()
    }
}

/// The expression is one that can be written: sequences and alternations have
/// at least two parts, and names tell tokens from rules.
pub open spec fn writable(e: ExprView) -> bool
    decreases e,
{
    match e {
        ExprView::Empty => true,
        ExprView::Token(n) => parser::names_token(n),
        ExprView::Rule(n) => !parser::names_token(n),
        ExprView::Concat(xs) => xs.len() >= 2 && forall|i: int|
            0 <= i < xs.len() ==> writable(#[trigger] xs[i]),
        ExprView::Alt(xs) => xs.len() >= 2 && forall|i: int|
            0 <= i < xs.len() ==> writable(#[trigger] xs[i]),
        ExprView::Opt(x) => writable(*x),
        ExprView::Star(x) => writable(*x),
        ExprView::Plus(x) => writable(*x),
        ExprView::Label(_, x) => writable(*x),
    }
}

/// The events come next.
pub open spec fn holds(s: ReadView, l: Seq<SyntaxView>) -> bool {
    s.pos + l.len() <= s.events.len() && s.events.subrange(s.pos as int, (s.pos + l.len()) as int)
        == l
}

/// Behind the next `n` events.
pub open spec fn behind(s: ReadView, n: nat) -> ReadView {
    ReadView { pos: s.pos + n, ..s }
}

pub proof fn lemma_holds(s: ReadView, a: Seq<SyntaxView>, b: Seq<SyntaxView>)
    requires
        holds(s, a + b),
    ensures
        holds(s, a),
        holds(behind(s, a.len()), b),
        behind(behind(s, a.len()), b.len()) == behind(s, (a + b).len()),
{
    let l = a + b;
    let ev = s.events;
    let p = s.pos as int;
    assert forall|i: int| 0 <= i < l.len() implies ev[p + i] == l[i] by {
        assert(ev.subrange(p, p + l.len())[i] == l[i]);
    }
    assert(ev.subrange(p, p + a.len()) =~= a) by {
        assert forall|i: int| 0 <= i < a.len() implies ev.subrange(p, p + a.len())[i] == a[i] by {
            assert(l[i] == a[i]);
        }
    }
    assert(ev.subrange(p + a.len(), p + a.len() + b.len()) =~= b) by {
        assert forall|i: int| 0 <= i < b.len() implies ev.subrange(
            p + a.len(),
            p + a.len() + b.len(),
        )[i] == b[i] by {
            assert(l[a.len() + i] == b[i]);
        }
    }
}

pub proof fn lemma_next(s: ReadView, e: SyntaxView)
    requires
        holds(s, seq![e]),
    ensures
        reader::peeked(s) == Some(e),
        reader::stepped(s) == behind(s, 1),
{
    assert(s.events.subrange(s.pos as int, s.pos as int + 1)[0] == e);
}

/// The label and what stands behind it, as an item begins.
pub open spec fn begun(s: ReadView) -> (ReadView, ExprView) {
    let (a, l) = parser::label_next(s);
    if reader::entered(a) == Some(RuleKind::Atom) {
        let (b, x) = parser::primary_atom(a);
        (b, parser::labelled(l, x))
    } else {
        let (b, x) = parser::group_read(a);
        (b, parser::labelled(l, x))
    }
}

/// An item comes next.
pub open spec fn at_item(s: ReadView) -> bool {
    let a = parser::label_next(s).0;
    reader::entered(a) == Some(RuleKind::Atom) || reader::entered(a) == Some(RuleKind::Group)
}

/// What reading what was written gives.
pub open spec fn read_back(e: ExprView, f: Form, at: Span, s: ReadView) -> bool {
    let t = behind(s, wrote(e, f, at).len());
    match f {
        Form::Alternatives => parser::alt_read(s) == (t, e),
        Form::Sequence => parser::seq_read(s) == (t, e),
        Form::Item => {
            &&& at_item(s)
            &&& parser::quantified(begun(s).0, begun(s).1) == parser::quantified(t, e)
            &&& parser::label_next(s).0.pos < t.pos
            &&& parser::label_next(s).0.events == s.events
        },
        Form::Primary => {
            &&& wrote(e, f, at).len() > 0
            &&& match reader::entered(s) {
                Some(RuleKind::Atom) => parser::primary_atom(s) == (t, e),
                Some(RuleKind::Group) => parser::group_read(s) == (t, e),
                _ => false,
            }
        },
    }
}

proof fn lemma_written_front(e: ExprView, f: Form, at: Span)
    requires
        f == Form::Item || f == Form::Primary,
    ensures
        wrote(e, f, at).len() > 0,
        match wrote(e, f, at)[0] {
            EventView::Enter(k, _) => k == RuleKind::Atom || k == RuleKind::Group,
            EventView::Token(t) => f == Form::Item && t.kind == Some(TokenKind::Label),
            _ => false,
        },
    decreases e, level(e, f),
{
    match f {
        Form::Item => match e {
            ExprView::Opt(x) => lemma_written_front(*x, f, at),
            ExprView::Star(x) => lemma_written_front(*x, f, at),
            ExprView::Plus(x) => lemma_written_front(*x, f, at),
            ExprView::Label(n, x) => {},
            _ => lemma_written_front(e, Form::Primary, at),
        },
        _ => {},
    }
}

/// The first of several are written first.
proof fn lemma_first_of_all(xs: Seq<ExprView>, f: Form, at: Span, i: nat, n: nat) -> (rest: Seq<
    SyntaxView,
>)
    requires
        i <= n <= xs.len(),
    ensures
        wrote_all(xs, f, at, n) == wrote_all(xs, f, at, i) + rest,
    decreases n,
{
    if i == n {
        assert(wrote_all(xs, f, at, n) =~= wrote_all(xs, f, at, i) + Seq::empty());
        Seq::empty()
    } else {
        let r = lemma_first_of_all(xs, f, at, i, (n - 1) as nat);
        let more = between(f, at, n) + wrote(xs[n - 1], f, at);
        assert(wrote_all(xs, f, at, n) =~= wrote_all(xs, f, at, i) + (r + more));
        r + more
    }
}

/// Where the `i`th of several begins, and what comes behind it.
proof fn lemma_one_of_all(
    xs: Seq<ExprView>,
    f: Form,
    at: Span,
    i: nat,
    s: ReadView,
    last: Seq<SyntaxView>,
)
    requires
        i < xs.len(),
        holds(s, wrote_all(xs, f, at, xs.len()) + last),
    ensures
        ({
            let a = behind(s, wrote_all(xs, f, at, i).len());
            let b = behind(a, between(f, at, i + 1).len());
            &&& holds(a, between(f, at, i + 1))
            &&& holds(b, wrote(xs[i as int], f, at))
            &&& behind(b, wrote(xs[i as int], f, at).len()) == behind(
                s,
                wrote_all(xs, f, at, i + 1).len(),
            )
        }),
{
    let all = wrote_all(xs, f, at, xs.len());
    lemma_holds(s, all, last);
    let rest = lemma_first_of_all(xs, f, at, i + 1, xs.len());
    lemma_holds(s, wrote_all(xs, f, at, i + 1), rest);
    let x = wrote(xs[i as int], f, at);
    let m = between(f, at, i + 1);
    let p = wrote_all(xs, f, at, i);
    assert(wrote_all(xs, f, at, i + 1) == p + m + x);
    lemma_holds(s, p + m, x);
    lemma_holds(s, p, m);
}

/// What comes behind the last of several.
proof fn lemma_behind_all(
    xs: Seq<ExprView>,
    f: Form,
    at: Span,
    i: nat,
    s: ReadView,
    last: SyntaxView,
)
    requires
        i <= xs.len(),
        holds(s, wrote_all(xs, f, at, xs.len()) + seq![last]),
    ensures
        ({
            let a = behind(s, wrote_all(xs, f, at, i).len());
            if i == xs.len() {
                reader::peeked(a) == Some(last)
            } else if f == Form::Item || f == Form::Primary {
                reader::peeked(a) == Some(wrote(xs[i as int], f, at)[0])
            } else {
                true
            }
        }),
{
    if i == xs.len() {
        lemma_holds(s, wrote_all(xs, f, at, xs.len()), seq![last]);
        lemma_next(behind(s, wrote_all(xs, f, at, i).len()), last);
    } else if f == Form::Item || f == Form::Primary {
        lemma_one_of_all(xs, f, at, i, s, seq![last]);
        let a = behind(s, wrote_all(xs, f, at, i).len());
        let x = wrote(xs[i as int], f, at);
        lemma_written_front(xs[i as int], f, at);
        assert(behind(a, 0) == a);
        assert(x =~= seq![x[0]] + x.skip(1));
        lemma_holds(a, seq![x[0]], x.skip(1));
        lemma_next(a, x[0]);
    }
}

/// Behind an item that no quantifier follows, the reading of a sequence goes on.
proof fn lemma_item_read(e: ExprView, at: Span, s: ReadView, acc: Seq<ExprView>)
    requires
        read_back(e, Form::Item, at, s),
        s.pos + wrote(e, Form::Item, at).len() <= s.events.len(),
        ({
            let t = behind(s, wrote(e, Form::Item, at).len());
            !reader::at_token(t, TokenKind::Question) && !reader::at_token(t, TokenKind::Star)
                && !reader::at_token(t, TokenKind::Plus)
        }),
    ensures
        parser::items_read(s, acc) == parser::items_read(
            behind(s, wrote(e, Form::Item, at).len()),
            acc.push(e),
        ),
{
    let t = behind(s, wrote(e, Form::Item, at).len());
    assert(parser::quantified(t, e) == (t, e));
    let (a, l) = parser::label_next(s);
    assert(reader::left(t) < reader::left(a));
}

/// The items of a sequence are read one after the other.
proof fn lemma_items(xs: Seq<ExprView>, at: Span, s: ReadView, last: SyntaxView, i: nat)
    requires
        i <= xs.len(),
        forall|j: int| 0 <= j < xs.len() ==> writable(#[trigger] xs[j]),
        holds(s, wrote_all(xs, Form::Item, at, xs.len()) + seq![last]),
        last matches EventView::Exit(_, _),
    ensures
        parser::items_read(
            behind(s, wrote_all(xs, Form::Item, at, i).len()),
            xs.take(i as int),
        ) == (behind(s, wrote_all(xs, Form::Item, at, xs.len()).len()), xs),
    decreases xs, xs.len() - i, 0nat,
{
    let f = Form::Item;
    let a = behind(s, wrote_all(xs, f, at, i).len());
    lemma_behind_all(xs, f, at, i, s, last);
    if i == xs.len() {
        assert(xs.take(i as int) =~= xs);
    } else {
        let x = xs[i as int];
        let b = behind(s, wrote_all(xs, f, at, i + 1).len());
        lemma_one_of_all(xs, f, at, i, s, seq![last]);
        assert(behind(a, 0) == a);
        lemma_reads(x, f, at, a);
        lemma_behind_all(xs, f, at, i + 1, s, last);
        if i + 1 < xs.len() {
            lemma_written_front(xs[i as int + 1], f, at);
        }
        lemma_item_read(x, at, a, xs.take(i as int));
        assert(xs.take(i as int).push(x) =~= xs.take(i as int + 1));
        lemma_items(xs, at, s, last, i + 1);
    }
}

/// Further alternatives are read one after the other.
proof fn lemma_alts(xs: Seq<ExprView>, at: Span, s: ReadView, last: SyntaxView, i: nat)
    requires
        1 <= i <= xs.len(),
        forall|j: int| 0 <= j < xs.len() ==> writable(#[trigger] xs[j]),
        holds(s, wrote_all(xs, Form::Sequence, at, xs.len()) + seq![last]),
        last matches EventView::Exit(_, _),
    ensures
        parser::alts_read(
            behind(s, wrote_all(xs, Form::Sequence, at, i).len()),
            xs.take(i as int),
        ) == (behind(s, wrote_all(xs, Form::Sequence, at, xs.len()).len()), xs),
    decreases xs, xs.len() - i, 0nat,
{
    let f = Form::Sequence;
    let a = behind(s, wrote_all(xs, f, at, i).len());
    lemma_behind_all(xs, f, at, i, s, last);
    if i == xs.len() {
        assert(xs.take(i as int) =~= xs);
    } else {
        let x = xs[i as int];
        lemma_one_of_all(xs, f, at, i, s, seq![last]);
        lemma_next(a, between(f, at, i + 1)[0]);
        let b = behind(a, 1);
        lemma_reads(x, f, at, b);
        assert(xs.take(i as int).push(x) =~= xs.take(i as int + 1));
        lemma_alts(xs, at, s, last, i + 1);
    }
}

/// Reading what was written gives the expression back.
pub proof fn lemma_reads(e: ExprView, f: Form, at: Span, s: ReadView)
    requires
        writable(e),
        holds(s, wrote(e, f, at)),
    ensures
        read_back(e, f, at, s),
    decreases e, level(e, f), 1nat,
{
    match f {
        Form::Alternatives => lemma_reads_alt(e, at, s),
        Form::Sequence => lemma_reads_seq(e, at, s),
        Form::Item => lemma_reads_item(e, at, s),
        Form::Primary => lemma_reads_primary(e, at, s),
    }
}

proof fn lemma_reads_alt(e: ExprView, at: Span, s: ReadView)
    requires
        writable(e),
        holds(s, wrote(e, Form::Alternatives, at)),
    ensures
        read_back(e, Form::Alternatives, at, s),
    decreases e, level(e, Form::Alternatives), 0nat,
{
    let open = enter(RuleKind::AltExpr, at);
    let close = exit(RuleKind::AltExpr, at);
    let a = behind(s, 1);
    match e {
        ExprView::Alt(xs) => {
            let inside = wrote_all(xs, Form::Sequence, at, xs.len());
            assert(wrote(e, Form::Alternatives, at) =~= open + (inside + close));
            lemma_holds(s, open, inside + close);
            lemma_next(s, open[0]);
            lemma_one_of_all(xs, Form::Sequence, at, 0, a, close);
            assert(wrote_all(xs, Form::Sequence, at, 0).len() == 0);
            assert(behind(behind(a, 0), 0) == a);
            lemma_reads(xs[0], Form::Sequence, at, a);
            assert(xs.take(1) =~= seq![xs[0]]);
            lemma_alts(xs, at, a, close[0], 1);
            lemma_holds(a, inside, close);
            lemma_next(behind(a, inside.len()), close[0]);
        },
        _ => {
            let inside = wrote(e, Form::Sequence, at);
            assert(wrote(e, Form::Alternatives, at) =~= open + (inside + close));
            lemma_holds(s, open, inside + close);
            lemma_next(s, open[0]);
            lemma_holds(a, inside, close);
            lemma_reads(e, Form::Sequence, at, a);
            lemma_next(behind(a, inside.len()), close[0]);
        },
    }
}

proof fn lemma_reads_seq(e: ExprView, at: Span, s: ReadView)
    requires
        writable(e),
        holds(s, wrote(e, Form::Sequence, at)),
    ensures
        read_back(e, Form::Sequence, at, s),
    decreases e, level(e, Form::Sequence), 0nat,
{
    let open = enter(RuleKind::SeqExpr, at);
    let close = exit(RuleKind::SeqExpr, at);
    let a = behind(s, 1);
    match e {
        ExprView::Concat(xs) => {
            let inside = wrote_all(xs, Form::Item, at, xs.len());
            assert(wrote(e, Form::Sequence, at) =~= open + (inside + close));
            lemma_holds(s, open, inside + close);
            lemma_next(s, open[0]);
            assert(wrote_all(xs, Form::Item, at, 0).len() == 0);
            assert(behind(a, 0) == a);
            assert(xs.take(0) =~= Seq::empty());
            lemma_items(xs, at, a, close[0], 0);
            lemma_holds(a, inside, close);
            lemma_next(behind(a, inside.len()), close[0]);
        },
        ExprView::Empty => {
            assert(wrote(e, Form::Sequence, at) =~= open + close);
            lemma_holds(s, open, close);
            lemma_next(s, open[0]);
            lemma_next(a, close[0]);
        },
        _ => {
            let inside = wrote(e, Form::Item, at);
            assert(wrote(e, Form::Sequence, at) =~= open + (inside + close));
            lemma_holds(s, open, inside + close);
            lemma_next(s, open[0]);
            lemma_holds(a, inside, close);
            lemma_reads(e, Form::Item, at, a);
            let t = behind(a, inside.len());
            lemma_next(t, close[0]);
            lemma_item_read(e, at, a, Seq::empty());
            assert(parser::items_read(t, Seq::empty().push(e)) == (t, Seq::empty().push(e)));
        },
    }
}

proof fn lemma_reads_item(e: ExprView, at: Span, s: ReadView)
    requires
        writable(e),
        holds(s, wrote(e, Form::Item, at)),
    ensures
        read_back(e, Form::Item, at, s),
    decreases e, level(e, Form::Item), 0nat,
{
    let t = behind(s, wrote(e, Form::Item, at).len());
    match e {
        ExprView::Opt(x) => {
            let q = tok(TokenKind::Question, seq!['?'], at);
            lemma_holds(s, wrote(*x, Form::Item, at), q);
            lemma_reads(*x, Form::Item, at, s);
            lemma_next(behind(s, wrote(*x, Form::Item, at).len()), q[0]);
        },
        ExprView::Star(x) => {
            let q = tok(TokenKind::Star, seq!['*'], at);
            lemma_holds(s, wrote(*x, Form::Item, at), q);
            lemma_reads(*x, Form::Item, at, s);
            lemma_next(behind(s, wrote(*x, Form::Item, at).len()), q[0]);
        },
        ExprView::Plus(x) => {
            let q = tok(TokenKind::Plus, seq!['+'], at);
            lemma_holds(s, wrote(*x, Form::Item, at), q);
            lemma_reads(*x, Form::Item, at, s);
            lemma_next(behind(s, wrote(*x, Form::Item, at).len()), q[0]);
        },
        ExprView::Label(n, x) => {
            let l = tok(TokenKind::Label, n.push(':'), at);
            lemma_holds(s, l, wrote(*x, Form::Primary, at));
            lemma_next(s, l[0]);
            assert(n.push(':').drop_last() =~= n);
            lemma_reads(*x, Form::Primary, at, behind(s, 1));
        },
        _ => {
            lemma_reads(e, Form::Primary, at, s);
            assert(parser::label_next(s) == (s, None::<(Seq<char>, Span)>));
        },
    }
}

proof fn lemma_reads_primary(e: ExprView, at: Span, s: ReadView)
    requires
        writable(e),
        holds(s, wrote(e, Form::Primary, at)),
    ensures
        read_back(e, Form::Primary, at, s),
    decreases e, level(e, Form::Primary), 0nat,
{
    match e {
        ExprView::Token(n) => lemma_reads_atom(n, at, s),
        ExprView::Rule(n) => lemma_reads_atom(n, at, s),
        _ => {
            let open = enter(RuleKind::Group, at);
            let left = tok(TokenKind::Lparen, seq!['('], at);
            let inside = wrote(e, Form::Alternatives, at);
            let right = tok(TokenKind::Rparen, seq![')'], at);
            let close = exit(RuleKind::Group, at);
            assert(wrote(e, Form::Primary, at) =~= open + (left + (inside + (right + close))));
            lemma_holds(s, open, left + (inside + (right + close)));
            lemma_next(s, open[0]);
            let a = behind(s, 1);
            lemma_holds(a, left, inside + (right + close));
            lemma_next(a, left[0]);
            let b = behind(a, 1);
            lemma_holds(b, inside, right + close);
            lemma_reads(e, Form::Alternatives, at, b);
            let c = behind(b, inside.len());
            lemma_holds(c, right, close);
            lemma_next(c, right[0]);
            lemma_next(behind(c, 1), close[0]);
        },
    }
}

proof fn lemma_reads_atom(n: Seq<char>, at: Span, s: ReadView)
    requires
        holds(
            s,
            enter(RuleKind::Atom, at) + tok(TokenKind::Ident, n, at) + exit(RuleKind::Atom, at),
        ),
    ensures
        reader::entered(s) == Some(RuleKind::Atom),
        parser::primary_atom(s) == (
            behind(s, 3),
            if parser::names_token(n) {
                ExprView::Token(n)
            } else {
                ExprView::Rule(n)
            },
        ),
{
    let open = enter(RuleKind::Atom, at);
    let name = tok(TokenKind::Ident, n, at);
    let close = exit(RuleKind::Atom, at);
    lemma_holds(s, open + name, close);
    lemma_holds(s, open, name);
    lemma_next(s, open[0]);
    lemma_next(behind(s, 1), name[0]);
    lemma_next(behind(s, 2), close[0]);
}

/// A rule body that is written down is read back: labels, quantifiers, groups,
/// sequences and alternatives are read as what they were written for, and
/// nothing is found wrong.
pub proof fn law_written_bodies_are_read_back(
    e: ExprView,
    at: Span,
    before: Seq<SyntaxView>,
    after: Seq<SyntaxView>,
    issues: Seq<crate::runtime::events::ErrorView>,
)
    requires
        writable(e),
    ensures
        ({
            let l = wrote(e, Form::Alternatives, at);
            let events = before + l + after;
            parser::alt_read(ReadView { events, pos: before.len(), issues }) == (
                ReadView { events, pos: before.len() + l.len(), issues },
                e,
            )
        }),
{
    let l = wrote(e, Form::Alternatives, at);
    let s = ReadView { events: before + l + after, pos: before.len(), issues };
    assert(s.events.subrange(s.pos as int, (s.pos + l.len()) as int) =~= l);
    lemma_reads(e, Form::Alternatives, at, s);
}

} // verus!
