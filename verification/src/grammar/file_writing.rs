//! Grammar files written down as the events that they are read from.
use vstd::prelude::*;

use crate::grammar::ir::{self, ModeActionView, RuleView, TokenView};
use crate::grammar::parser::{self, ActionView, Effects, GrammarView};
use crate::grammar::pattern_writing;
use crate::grammar::reader::{self, ReadView};
use crate::grammar::rule_writing::{self, Form};
use crate::grammar::syntax::{RuleKind, SyntaxView, TokenKind};
use crate::runtime::events::EventView;
use crate::span::Span;

verus! {

/// A declaration of a token or of a rule.
pub ghost enum Def {
    Token(TokenView),
    Rule(RuleView),
}

/// One action of a token: its name, and the mode that it is for.
pub open spec fn wrote_action(name: Seq<char>, arg: Option<Seq<char>>, at: Span) -> Seq<SyntaxView> {
    let inside = match arg {
        None => Seq::empty(),
        Some(m) => rule_writing::enter(RuleKind::ActionArg, at) + rule_writing::tok(TokenKind::Lparen, seq!['('], at) + rule_writing::tok(
            TokenKind::Ident,
            m,
            at,
        ) + rule_writing::tok(TokenKind::Rparen, seq![')'], at) + rule_writing::exit(RuleKind::ActionArg, at),
    };
    rule_writing::enter(RuleKind::Action, at) + rule_writing::tok(TokenKind::Ident, name, at) + inside + rule_writing::exit(
        RuleKind::Action,
        at,
    )
}

/// The name of a mode action, and the mode that it is for.
pub open spec fn action_parts(a: ModeActionView) -> (Seq<char>, Option<Seq<char>>) {
    match a {
        ModeActionView::Push(m) => ("push"@, Some(m)),
        ModeActionView::Pop => ("pop"@, None),
    }
}

/// The names and modes of the actions of a token.
pub open spec fn parts_of(t: TokenView) -> Seq<(Seq<char>, Option<Seq<char>>)> {
    if t.skip {
        seq![("skip"@, None::<Seq<char>>)]
    } else {
        Seq::new(t.mode_actions.len(), |i: int| action_parts(t.mode_actions[i]))
    }
}

/// The first `n` actions with commas between them.
pub open spec fn wrote_actions(
    l: Seq<(Seq<char>, Option<Seq<char>>)>,
    at: Span,
    n: nat,
) -> Seq<SyntaxView>
    decreases n,
{
    if n == 0 || n > l.len() {
        Seq::empty()
    } else {
        wrote_actions(l, at, (n - 1) as nat) + comma(at, n) + wrote_action(
            l[n - 1].0,
            l[n - 1].1,
            at,
        )
    }
}

/// What stands before the `n`th of several.
pub open spec fn comma(at: Span, n: nat) -> Seq<SyntaxView> {
    if n > 1 {
        rule_writing::tok(TokenKind::Comma, seq![','], at)
    } else {
        Seq::empty()
    }
}

/// The actions of a token behind an arrow, if it has any.
pub open spec fn wrote_tail(
    l: Seq<(Seq<char>, Option<Seq<char>>)>,
    at: Span,
) -> Seq<SyntaxView> {
    if l.len() == 0 {
        Seq::empty()
    } else {
        rule_writing::enter(RuleKind::Actions, at) + rule_writing::tok(TokenKind::Arrow, seq!['-', '>'], at) + wrote_actions(
            l,
            at,
            l.len(),
        ) + rule_writing::exit(RuleKind::Actions, at)
    }
}

/// The names from the second on, each behind a comma.
pub open spec fn wrote_names(l: Seq<Seq<char>>, at: Span, n: nat) -> Seq<SyntaxView>
    decreases n,
{
    if n <= 1 || n > l.len() {
        Seq::empty()
    } else {
        wrote_names(l, at, (n - 1) as nat) + (rule_writing::tok(TokenKind::Comma, seq![','], at) + rule_writing::tok(
            TokenKind::Ident,
            l[n - 1],
            at,
        ))
    }
}

/// What names the modes of a token, unless it is in the default mode alone.
pub open spec fn wrote_modes(l: Seq<Seq<char>>, at: Span) -> Seq<SyntaxView> {
    if l == seq!["default"@] {
        Seq::empty()
    } else {
        rule_writing::enter(RuleKind::ModePre, at) + (rule_writing::tok(TokenKind::At, seq!['@'], at) + (rule_writing::tok(
            TokenKind::Ident,
            "mode"@,
            at,
        ) + (rule_writing::tok(TokenKind::Lparen, seq!['('], at) + (rule_writing::tok(TokenKind::Ident, l[0], at) + (
        wrote_names(l, at, l.len()) + (rule_writing::tok(TokenKind::Rparen, seq![')'], at) + rule_writing::exit(
            RuleKind::ModePre,
            at,
        )))))))
    }
}

/// A declaration without what stands before it.
pub open spec fn wrote_decl(
    name: Seq<char>,
    body: Seq<SyntaxView>,
    tail: Seq<SyntaxView>,
    at: Span,
) -> Seq<SyntaxView> {
    rule_writing::enter(RuleKind::Decl, at) + (rule_writing::tok(TokenKind::Ident, name, at) + (rule_writing::tok(
        TokenKind::Equals,
        seq!['='],
        at,
    ) + (body + (tail + (rule_writing::tok(TokenKind::Semi, seq![';'], at) + rule_writing::exit(RuleKind::Decl, at))))))
}

/// A declaration.
pub open spec fn wrote_def(d: Def) -> Seq<SyntaxView> {
    match d {
        Def::Token(t) => rule_writing::enter(RuleKind::Item, t.span) + (wrote_modes(t.modes, t.span) + (
        wrote_decl(
            t.name,
            pattern_writing::wrote(t.pattern, Form::Alternatives, t.span),
            wrote_tail(parts_of(t), t.span),
            t.span,
        ) + rule_writing::exit(RuleKind::Item, t.span))),
        Def::Rule(r) => rule_writing::enter(RuleKind::Item, r.span) + (Seq::empty() + (wrote_decl(
            r.name,
            rule_writing::wrote(r.body, Form::Alternatives, r.span),
            Seq::empty(),
            r.span,
        ) + rule_writing::exit(RuleKind::Item, r.span))),
    }
}

/// The first `n` declarations.
pub open spec fn wrote_defs(ds: Seq<Def>, n: nat) -> Seq<SyntaxView>
    decreases n,
{
    if n == 0 || n > ds.len() {
        Seq::empty()
    } else {
        wrote_defs(ds, (n - 1) as nat) + wrote_def(ds[n - 1])
    }
}

/// A file of declarations.
pub open spec fn wrote_file(ds: Seq<Def>, at: Span) -> Seq<SyntaxView> {
    rule_writing::enter(RuleKind::File, at) + wrote_defs(ds, ds.len()) + rule_writing::exit(RuleKind::File, at)
}

/// The declaration is one that can be written: the name tells whether it is a
/// token, and whether it is a fragment. What is skipped is no fragment and does
/// nothing else.
pub open spec fn writable(d: Def) -> bool {
    match d {
        Def::Token(t) => {
            &&& parser::names_token(t.name)
            &&& t.is_fragment == (t.name[0] == '_')
            &&& t.skip ==> !t.is_fragment && t.mode_actions.len() == 0
            &&& t.modes.len() > 0
            &&& pattern_writing::writable(t.pattern)
        },
        Def::Rule(r) => {
            &&& parser::first_letter(r.name) is Some
            &&& !parser::names_token(r.name)
            &&& r.is_fragment == (r.name[0] == '_')
            &&& rule_writing::writable(r.body)
        },
    }
}

/// The tokens among the first `n` declarations, under their names.
pub open spec fn tokens_of(ds: Seq<Def>, n: nat) -> Seq<(Seq<char>, TokenView)>
    decreases n,
{
    if n == 0 || n > ds.len() {
        Seq::empty()
    } else {
        match ds[n - 1] {
            Def::Token(t) => tokens_of(ds, (n - 1) as nat).push((t.name, t)),
            Def::Rule(_) => tokens_of(ds, (n - 1) as nat),
        }
    }
}

/// The rules among the first `n` declarations, under their names.
pub open spec fn rules_of(ds: Seq<Def>, n: nat) -> Seq<(Seq<char>, RuleView)>
    decreases n,
{
    if n == 0 || n > ds.len() {
        Seq::empty()
    } else {
        match ds[n - 1] {
            Def::Rule(r) => rules_of(ds, (n - 1) as nat).push((r.name, r)),
            Def::Token(_) => rules_of(ds, (n - 1) as nat),
        }
    }
}

/// The name of a declaration.
pub open spec fn def_name(d: Def) -> Seq<char> {
    match d {
        Def::Token(t) => t.name,
        Def::Rule(r) => r.name,
    }
}

/// No two declarations have the same name.
pub open spec fn apart(ds: Seq<Def>) -> bool {
    forall|i: int, j: int|
        0 <= i < j < ds.len() ==> def_name(#[trigger] ds[i]) != def_name(#[trigger] ds[j])
}

proof fn lemma_reads_action(
    name: Seq<char>,
    arg: Option<Seq<char>>,
    at: Span,
    s: ReadView,
)
    requires
        rule_writing::holds(s, wrote_action(name, arg, at)),
    ensures
        reader::entered(s) == Some(RuleKind::Action),
        parser::action_read(s) == (
            rule_writing::behind(s, wrote_action(name, arg, at).len()),
            ActionView { name, arg, span: at },
        ),
        wrote_action(name, arg, at).len() > 0,
{
    let open = rule_writing::enter(RuleKind::Action, at);
    let id = rule_writing::tok(TokenKind::Ident, name, at);
    let close = rule_writing::exit(RuleKind::Action, at);
    match arg {
        None => {
            assert(wrote_action(name, arg, at) =~= open + (id + close));
            rule_writing::lemma_holds(s, open, id + close);
            rule_writing::lemma_next(s, open[0]);
            rule_writing::lemma_holds(rule_writing::behind(s, 1), id, close);
            rule_writing::lemma_next(rule_writing::behind(s, 1), id[0]);
            rule_writing::lemma_next(rule_writing::behind(s, 2), close[0]);
        },
        Some(m) => {
            let aopen = rule_writing::enter(RuleKind::ActionArg, at);
            let left = rule_writing::tok(TokenKind::Lparen, seq!['('], at);
            let mode = rule_writing::tok(TokenKind::Ident, m, at);
            let right = rule_writing::tok(TokenKind::Rparen, seq![')'], at);
            let aclose = rule_writing::exit(RuleKind::ActionArg, at);
            assert(wrote_action(name, arg, at) =~= open + (id + (aopen + (left + (mode + (right + (
            aclose + close)))))));
            rule_writing::lemma_holds(s, open, id + (aopen + (left + (mode + (right + (aclose + close))))));
            rule_writing::lemma_next(s, open[0]);
            rule_writing::lemma_holds(rule_writing::behind(s, 1), id, aopen + (left + (mode + (right + (aclose + close)))));
            rule_writing::lemma_next(rule_writing::behind(s, 1), id[0]);
            rule_writing::lemma_holds(rule_writing::behind(s, 2), aopen, left + (mode + (right + (aclose + close))));
            rule_writing::lemma_next(rule_writing::behind(s, 2), aopen[0]);
            rule_writing::lemma_holds(rule_writing::behind(s, 3), left, mode + (right + (aclose + close)));
            rule_writing::lemma_next(rule_writing::behind(s, 3), left[0]);
            rule_writing::lemma_holds(rule_writing::behind(s, 4), mode, right + (aclose + close));
            rule_writing::lemma_next(rule_writing::behind(s, 4), mode[0]);
            rule_writing::lemma_holds(rule_writing::behind(s, 5), right, aclose + close);
            rule_writing::lemma_next(rule_writing::behind(s, 5), right[0]);
            rule_writing::lemma_holds(rule_writing::behind(s, 6), aclose, close);
            rule_writing::lemma_next(rule_writing::behind(s, 6), aclose[0]);
            rule_writing::lemma_next(rule_writing::behind(s, 7), close[0]);
        },
    }
}

/// The actions as they are read.
spec fn raws(l: Seq<(Seq<char>, Option<Seq<char>>)>, at: Span) -> Seq<ActionView> {
    Seq::new(l.len(), |i: int| ActionView { name: l[i].0, arg: l[i].1, span: at })
}

proof fn lemma_actions_front(
    l: Seq<(Seq<char>, Option<Seq<char>>)>,
    at: Span,
    i: nat,
    n: nat,
) -> (rest: Seq<SyntaxView>)
    requires
        i <= n <= l.len(),
    ensures
        wrote_actions(l, at, n) == wrote_actions(l, at, i) + rest,
    decreases n,
{
    if i == n {
        assert(wrote_actions(l, at, n) =~= wrote_actions(l, at, i) + Seq::empty());
        Seq::empty()
    } else {
        let r = lemma_actions_front(l, at, i, (n - 1) as nat);
        let more = comma(at, n) + wrote_action(l[n - 1].0, l[n - 1].1, at);
        assert(wrote_actions(l, at, n) =~= wrote_actions(l, at, i) + (r + more));
        r + more
    }
}

proof fn lemma_reads_actions(
    l: Seq<(Seq<char>, Option<Seq<char>>)>,
    at: Span,
    s: ReadView,
    i: nat,
    last: SyntaxView,
)
    requires
        i < l.len(),
        rule_writing::holds(s, wrote_actions(l, at, l.len()) + seq![last]),
        last matches EventView::Exit(_, _),
    ensures
        parser::more_actions(
            rule_writing::behind(s, (wrote_actions(l, at, i).len() + comma(at, i + 1).len()) as nat),
            raws(l, at).take(i as int),
        ) == (rule_writing::behind(s, wrote_actions(l, at, l.len()).len()), raws(l, at)),
    decreases l.len() - i,
{
    let all = wrote_actions(l, at, l.len());
    let rv = raws(l, at);
    let a = rule_writing::behind(s, (wrote_actions(l, at, i).len() + comma(at, i + 1).len()) as nat);
    let upto = wrote_actions(l, at, i + 1);
    let x = wrote_action(l[i as int].0, l[i as int].1, at);
    rule_writing::lemma_holds(s, all, seq![last]);
    let rest = lemma_actions_front(l, at, i + 1, l.len());
    rule_writing::lemma_holds(s, upto, rest);
    assert(upto == wrote_actions(l, at, i) + comma(at, i + 1) + x);
    rule_writing::lemma_holds(s, wrote_actions(l, at, i) + comma(at, i + 1), x);
    lemma_reads_action(l[i as int].0, l[i as int].1, at, a);
    let b = rule_writing::behind(s, upto.len());
    assert(rv.take(i as int).push(rv[i as int]) =~= rv.take(i as int + 1));
    if i + 1 < l.len() {
        let rest2 = lemma_actions_front(l, at, i + 2, l.len());
        rule_writing::lemma_holds(s, wrote_actions(l, at, i + 2), rest2);
        let y = wrote_action(l[i as int + 1].0, l[i as int + 1].1, at);
        let c = comma(at, i + 2);
        assert(wrote_actions(l, at, i + 2) == upto + c + y);
        rule_writing::lemma_holds(s, upto + c, y);
        rule_writing::lemma_holds(s, upto, c);
        rule_writing::lemma_next(b, c[0]);
        lemma_reads_actions(l, at, s, i + 1, last);
    } else {
        rule_writing::lemma_next(rule_writing::behind(s, all.len()), last);
        assert(rv.take(i as int + 1) =~= rv);
    }
}

proof fn lemma_reads_tail(
    l: Seq<(Seq<char>, Option<Seq<char>>)>,
    at: Span,
    s: ReadView,
    next: SyntaxView,
)
    requires
        rule_writing::holds(s, wrote_tail(l, at) + seq![next]),
        next matches EventView::Token(_),
    ensures
        parser::actions_read(s) == (rule_writing::behind(s, wrote_tail(l, at).len()), raws(l, at)),
{
    if l.len() == 0 {
        assert(wrote_tail(l, at) + seq![next] =~= seq![next]);
        rule_writing::lemma_next(s, next);
        assert(raws(l, at) =~= Seq::empty());
    } else {
        let open = rule_writing::enter(RuleKind::Actions, at);
        let arrow = rule_writing::tok(TokenKind::Arrow, seq!['-', '>'], at);
        let all = wrote_actions(l, at, l.len());
        let close = rule_writing::exit(RuleKind::Actions, at);
        rule_writing::lemma_holds(s, wrote_tail(l, at), seq![next]);
        assert(wrote_tail(l, at) =~= open + (arrow + (all + close)));
        rule_writing::lemma_holds(s, open, arrow + (all + close));
        rule_writing::lemma_next(s, open[0]);
        rule_writing::lemma_holds(rule_writing::behind(s, 1), arrow, all + close);
        rule_writing::lemma_next(rule_writing::behind(s, 1), arrow[0]);
        let c = rule_writing::behind(s, 2);
        assert(raws(l, at).take(0) =~= Seq::empty());
        lemma_reads_actions(l, at, c, 0, close[0]);
        rule_writing::lemma_holds(c, all, close);
        rule_writing::lemma_next(rule_writing::behind(c, all.len()), close[0]);
    }
}

proof fn lemma_effects(s: ReadView, t: TokenView, at: Span, n: nat)
    requires
        !t.skip,
        n <= t.mode_actions.len(),
    ensures
        ({
            let e = parser::effects_upto(s, raws(parts_of(t), at), n);
            &&& e.read == s
            &&& !e.skip
            &&& e.skip_span is None
            &&& e.mode_actions == t.mode_actions.take(n as int)
            &&& e.mode_span is Some <==> n > 0
        }),
    decreases n,
{
    if n > 0 {
        lemma_effects(s, t, at, (n - 1) as nat);
        reveal_strlit("skip");
        reveal_strlit("push");
        reveal_strlit("pop");
        let a = t.mode_actions[n - 1];
        assert("skip"@[0] == 's' && "push"@[0] == 'p' && "pop"@.len() == 3 && "push"@.len() == 4);
        assert(raws(parts_of(t), at)[n - 1].name == action_parts(a).0);
        assert(t.mode_actions.take(n - 1).push(a) =~= t.mode_actions.take(n as int));
    } else {
        assert(t.mode_actions.take(0) =~= Seq::empty());
    }
}

/// What the actions of a token come to.
proof fn lemma_token_effects(s: ReadView, t: TokenView, at: Span)
    requires
        t.skip ==> t.mode_actions.len() == 0,
    ensures
        ({
            let e = parser::effects(s, raws(parts_of(t), at));
            &&& e.read == s
            &&& e.skip == t.skip
            &&& e.mode_actions == t.mode_actions
        }),
{
    let l = raws(parts_of(t), at);
    if t.skip {
        reveal_with_fuel(parser::effects_upto, 2);
        assert(l.len() == 1);
        assert(l[0].name == "skip"@);
        assert(t.mode_actions =~= Seq::empty());
    } else {
        lemma_effects(s, t, at, t.mode_actions.len());
        assert(t.mode_actions.take(t.mode_actions.len() as int) =~= t.mode_actions);
    }
}

proof fn lemma_names_front(l: Seq<Seq<char>>, at: Span, i: nat, n: nat) -> (rest: Seq<SyntaxView>)
    requires
        1 <= i <= n <= l.len(),
    ensures
        wrote_names(l, at, n) == wrote_names(l, at, i) + rest,
    decreases n,
{
    if i == n {
        assert(wrote_names(l, at, n) =~= wrote_names(l, at, i) + Seq::empty());
        Seq::empty()
    } else {
        let r = lemma_names_front(l, at, i, (n - 1) as nat);
        let more = rule_writing::tok(TokenKind::Comma, seq![','], at) + rule_writing::tok(TokenKind::Ident, l[n - 1], at);
        assert(wrote_names(l, at, n) =~= wrote_names(l, at, i) + (r + more));
        r + more
    }
}

proof fn lemma_reads_names(l: Seq<Seq<char>>, at: Span, s: ReadView, i: nat, last: SyntaxView)
    requires
        1 <= i <= l.len(),
        rule_writing::holds(s, wrote_names(l, at, l.len()) + seq![last]),
        last matches EventView::Token(t) && t.kind == Some(TokenKind::Rparen),
    ensures
        parser::more_names(rule_writing::behind(s, wrote_names(l, at, i).len()), l.take(i as int)) == (
            rule_writing::behind(s, wrote_names(l, at, l.len()).len()),
            l,
        ),
    decreases l.len() - i,
{
    let all = wrote_names(l, at, l.len());
    rule_writing::lemma_holds(s, all, seq![last]);
    let a = rule_writing::behind(s, wrote_names(l, at, i).len());
    if i == l.len() {
        rule_writing::lemma_next(a, last);
        assert(l.take(i as int) =~= l);
    } else {
        let rest = lemma_names_front(l, at, i + 1, l.len());
        rule_writing::lemma_holds(s, wrote_names(l, at, i + 1), rest);
        let c = rule_writing::tok(TokenKind::Comma, seq![','], at);
        let x = rule_writing::tok(TokenKind::Ident, l[i as int], at);
        rule_writing::lemma_holds(s, wrote_names(l, at, i), c + x);
        rule_writing::lemma_holds(a, c, x);
        rule_writing::lemma_next(a, c[0]);
        rule_writing::lemma_next(rule_writing::behind(a, 1), x[0]);
        assert(l.take(i as int).push(l[i as int]) =~= l.take(i as int + 1));
        lemma_reads_names(l, at, s, i + 1, last);
    }
}

proof fn lemma_reads_modes(l: Seq<Seq<char>>, at: Span, s: ReadView)
    requires
        l.len() > 0,
        l != seq!["default"@],
        rule_writing::holds(s, wrote_modes(l, at)),
    ensures
        reader::entered(s) == Some(RuleKind::ModePre),
        parser::mode_pre(s) == (rule_writing::behind(s, wrote_modes(l, at).len()), l),
{
    let open = rule_writing::enter(RuleKind::ModePre, at);
    let sign = rule_writing::tok(TokenKind::At, seq!['@'], at);
    let word = rule_writing::tok(TokenKind::Ident, "mode"@, at);
    let left = rule_writing::tok(TokenKind::Lparen, seq!['('], at);
    let first = rule_writing::tok(TokenKind::Ident, l[0], at);
    let more = wrote_names(l, at, l.len());
    let right = rule_writing::tok(TokenKind::Rparen, seq![')'], at);
    let close = rule_writing::exit(RuleKind::ModePre, at);
    let r6 = more + (right + close);
    let r5 = first + r6;
    let r4 = left + r5;
    let r3 = word + r4;
    let r2 = sign + r3;
    rule_writing::lemma_holds(s, open, r2);
    rule_writing::lemma_next(s, open[0]);
    rule_writing::lemma_holds(rule_writing::behind(s, 1), sign, r3);
    rule_writing::lemma_next(rule_writing::behind(s, 1), sign[0]);
    rule_writing::lemma_holds(rule_writing::behind(s, 2), word, r4);
    rule_writing::lemma_next(rule_writing::behind(s, 2), word[0]);
    rule_writing::lemma_holds(rule_writing::behind(s, 3), left, r5);
    rule_writing::lemma_next(rule_writing::behind(s, 3), left[0]);
    rule_writing::lemma_holds(rule_writing::behind(s, 4), first, r6);
    rule_writing::lemma_next(rule_writing::behind(s, 4), first[0]);
    let a = rule_writing::behind(s, 5);
    assert(r6 =~= (more + right) + close);
    rule_writing::lemma_holds(a, more + right, close);
    assert(wrote_names(l, at, 1).len() == 0);
    assert(l.take(1) =~= seq![l[0]]);
    lemma_reads_names(l, at, a, 1, right[0]);
    rule_writing::lemma_holds(a, more, right);
    rule_writing::lemma_next(rule_writing::behind(a, more.len()), right[0]);
    rule_writing::lemma_next(rule_writing::behind(a, (more + right).len()), close[0]);
}

/// A declaration is read, whatever was declared before it.
proof fn lemma_reads_def(d: Def, s: ReadView, g: GrammarView)
    requires
        writable(d),
        rule_writing::holds(s, wrote_def(d)),
        d matches Def::Token(t) ==> ir::lookup(g.tokens, t.name) is None,
        d matches Def::Rule(r) ==> ir::lookup(g.rules, r.name) is None,
    ensures
        reader::entered(s) == Some(RuleKind::Item),
        wrote_def(d).len() > 0,
        parser::item_read(s, g) == (
            rule_writing::behind(s, wrote_def(d).len()),
            match d {
                Def::Token(t) => GrammarView { tokens: g.tokens.push((t.name, t)), ..g },
                Def::Rule(r) => GrammarView { rules: g.rules.push((r.name, r)), ..g },
            },
        ),
{
    match d {
        Def::Token(t) => {
            let at = t.span;
            let open = rule_writing::enter(RuleKind::Item, at);
            let pre = wrote_modes(t.modes, at);
            let body = pattern_writing::wrote(t.pattern, Form::Alternatives, at);
            let tail = wrote_tail(parts_of(t), at);
            let decl = wrote_decl(t.name, body, tail, at);
            let close = rule_writing::exit(RuleKind::Item, at);
            rule_writing::lemma_holds(s, open, pre + (decl + close));
            rule_writing::lemma_next(s, open[0]);
            let a = rule_writing::behind(s, 1);
            rule_writing::lemma_holds(a, pre, decl + close);
            let b = rule_writing::behind(a, pre.len());
            rule_writing::lemma_holds(b, decl, close);
            lemma_decl_front(t.name, body, tail, at, b);
            if t.modes == seq!["default"@] {
                assert(rule_writing::behind(a, 0) == a);
            } else {
                lemma_reads_modes(t.modes, at, a);
            }
            let c = rule_writing::behind(b, 3);
            lemma_decl_parts(t.name, body, tail, at, b);
            pattern_writing::lemma_reads(t.pattern, Form::Alternatives, at, c);
            let semi = rule_writing::tok(TokenKind::Semi, seq![';'], at);
            lemma_reads_tail(parts_of(t), at, rule_writing::behind(c, body.len()), semi[0]);
            let end = rule_writing::behind(b, decl.len());
            rule_writing::lemma_next(end, close[0]);
            lemma_token_effects(end, t, at);
            assert(t.name.len() > 0);
            ir::lemma_position(g.tokens, t.name);
            assert(at == Span { start: at.start, end: at.end });
        },
        Def::Rule(r) => {
            let at = r.span;
            let open = rule_writing::enter(RuleKind::Item, at);
            let pre = Seq::<SyntaxView>::empty();
            let body = rule_writing::wrote(r.body, Form::Alternatives, at);
            let tail = Seq::<SyntaxView>::empty();
            let decl = wrote_decl(r.name, body, tail, at);
            let close = rule_writing::exit(RuleKind::Item, at);
            let none = Seq::<(Seq<char>, Option<Seq<char>>)>::empty();
            rule_writing::lemma_holds(s, open, pre + (decl + close));
            rule_writing::lemma_next(s, open[0]);
            let a = rule_writing::behind(s, 1);
            rule_writing::lemma_holds(a, pre, decl + close);
            assert(rule_writing::behind(a, 0) == a);
            rule_writing::lemma_holds(a, decl, close);
            lemma_decl_front(r.name, body, tail, at, a);
            let c = rule_writing::behind(a, 3);
            lemma_decl_parts(r.name, body, tail, at, a);
            rule_writing::lemma_reads(r.body, Form::Alternatives, at, c);
            let semi = rule_writing::tok(TokenKind::Semi, seq![';'], at);
            assert(wrote_tail(none, at) == tail);
            lemma_reads_tail(none, at, rule_writing::behind(c, body.len()), semi[0]);
            let end = rule_writing::behind(a, decl.len());
            rule_writing::lemma_next(end, close[0]);
            assert(raws(none, at) =~= Seq::empty());
            assert(parser::effects(end, Seq::empty()) == (Effects {
                read: end,
                skip: false,
                skip_span: None,
                mode_actions: Seq::empty(),
                mode_span: None,
            }));
            assert(r.name.len() > 0);
            ir::lemma_position(g.rules, r.name);
            assert(at == Span { start: at.start, end: at.end });
        },
    }
}

/// How a declaration begins.
proof fn lemma_decl_front(
    name: Seq<char>,
    body: Seq<SyntaxView>,
    tail: Seq<SyntaxView>,
    at: Span,
    s: ReadView,
)
    requires
        rule_writing::holds(s, wrote_decl(name, body, tail, at)),
    ensures
        reader::entered(s) == Some(RuleKind::Decl),
        reader::entering(s, RuleKind::Decl) == rule_writing::behind(s, 1),
        reader::token_next(rule_writing::behind(s, 1)) == (
            rule_writing::behind(s, 2),
            rule_writing::tok(TokenKind::Ident, name, at)[0]->Token_0,
        ),
        reader::token_next(rule_writing::behind(s, 2)).0 == rule_writing::behind(s, 3),
{
    let open = rule_writing::enter(RuleKind::Decl, at);
    let id = rule_writing::tok(TokenKind::Ident, name, at);
    let eq = rule_writing::tok(TokenKind::Equals, seq!['='], at);
    let semi = rule_writing::tok(TokenKind::Semi, seq![';'], at);
    let close = rule_writing::exit(RuleKind::Decl, at);
    let r3 = body + (tail + (semi + close));
    let r2 = eq + r3;
    let r1 = id + r2;
    rule_writing::lemma_holds(s, open, r1);
    rule_writing::lemma_next(s, open[0]);
    rule_writing::lemma_holds(rule_writing::behind(s, 1), id, r2);
    rule_writing::lemma_next(rule_writing::behind(s, 1), id[0]);
    rule_writing::lemma_holds(rule_writing::behind(s, 2), eq, r3);
    rule_writing::lemma_next(rule_writing::behind(s, 2), eq[0]);
}

/// How a declaration goes on and ends.
proof fn lemma_decl_parts(
    name: Seq<char>,
    body: Seq<SyntaxView>,
    tail: Seq<SyntaxView>,
    at: Span,
    s: ReadView,
)
    requires
        rule_writing::holds(s, wrote_decl(name, body, tail, at)),
    ensures
        ({
            let c = rule_writing::behind(s, 3);
            let d = rule_writing::behind(c, body.len());
            let f = rule_writing::behind(d, tail.len());
            let semi = rule_writing::tok(TokenKind::Semi, seq![';'], at);
            &&& rule_writing::holds(c, body)
            &&& rule_writing::holds(d, tail + semi)
            &&& reader::token_next(f) == (rule_writing::behind(f, 1), semi[0]->Token_0)
            &&& reader::exiting(rule_writing::behind(f, 1), RuleKind::Decl) == rule_writing::behind(
                s,
                wrote_decl(name, body, tail, at).len(),
            )
        }),
{
    let open = rule_writing::enter(RuleKind::Decl, at);
    let id = rule_writing::tok(TokenKind::Ident, name, at);
    let eq = rule_writing::tok(TokenKind::Equals, seq!['='], at);
    let semi = rule_writing::tok(TokenKind::Semi, seq![';'], at);
    let close = rule_writing::exit(RuleKind::Decl, at);
    let r3 = body + (tail + (semi + close));
    let r2 = eq + r3;
    let r1 = id + r2;
    rule_writing::lemma_holds(s, open, r1);
    rule_writing::lemma_holds(rule_writing::behind(s, 1), id, r2);
    rule_writing::lemma_holds(rule_writing::behind(s, 2), eq, r3);
    let c = rule_writing::behind(s, 3);
    rule_writing::lemma_holds(c, body, tail + (semi + close));
    let d = rule_writing::behind(c, body.len());
    assert(tail + (semi + close) =~= (tail + semi) + close);
    rule_writing::lemma_holds(d, tail + semi, close);
    rule_writing::lemma_holds(d, tail, semi);
    let f = rule_writing::behind(d, tail.len());
    rule_writing::lemma_next(f, semi[0]);
    rule_writing::lemma_next(rule_writing::behind(f, 1), close[0]);
}

proof fn lemma_defs_front(ds: Seq<Def>, i: nat, n: nat) -> (rest: Seq<SyntaxView>)
    requires
        i <= n <= ds.len(),
    ensures
        wrote_defs(ds, n) == wrote_defs(ds, i) + rest,
    decreases n,
{
    if i == n {
        assert(wrote_defs(ds, n) =~= wrote_defs(ds, i) + Seq::empty());
        Seq::empty()
    } else {
        let r = lemma_defs_front(ds, i, (n - 1) as nat);
        assert(wrote_defs(ds, n) =~= wrote_defs(ds, i) + (r + wrote_def(ds[n - 1])));
        r + wrote_def(ds[n - 1])
    }
}

/// A name that no earlier declaration has is not there yet.
proof fn lemma_new_name(ds: Seq<Def>, n: nat, name: Seq<char>)
    requires
        n <= ds.len(),
        forall|i: int| 0 <= i < n ==> def_name(#[trigger] ds[i]) != name,
    ensures
        ir::lookup(tokens_of(ds, n), name) is None,
        ir::lookup(rules_of(ds, n), name) is None,
        forall|i: int| 0 <= i < tokens_of(ds, n).len() ==> (#[trigger] tokens_of(ds, n)[i]).0 != name,
        forall|i: int| 0 <= i < rules_of(ds, n).len() ==> (#[trigger] rules_of(ds, n)[i]).0 != name,
    decreases n,
{
    if n > 0 {
        lemma_new_name(ds, (n - 1) as nat, name);
        assert(def_name(ds[n - 1]) != name);
    }
    ir::lemma_position(tokens_of(ds, n), name);
    ir::lemma_position(rules_of(ds, n), name);
}

proof fn lemma_reads_defs(ds: Seq<Def>, s: ReadView, i: nat, last: SyntaxView)
    requires
        i <= ds.len(),
        apart(ds),
        forall|j: int| 0 <= j < ds.len() ==> writable(#[trigger] ds[j]),
        rule_writing::holds(s, wrote_defs(ds, ds.len()) + seq![last]),
        last matches EventView::Exit(_, _),
    ensures
        parser::items_of(
            rule_writing::behind(s, wrote_defs(ds, i).len()),
            GrammarView { tokens: tokens_of(ds, i), rules: rules_of(ds, i) },
        ) == (
            rule_writing::behind(s, wrote_defs(ds, ds.len()).len()),
            GrammarView { tokens: tokens_of(ds, ds.len()), rules: rules_of(ds, ds.len()) },
        ),
    decreases ds.len() - i,
{
    let all = wrote_defs(ds, ds.len());
    rule_writing::lemma_holds(s, all, seq![last]);
    let a = rule_writing::behind(s, wrote_defs(ds, i).len());
    if i == ds.len() {
        rule_writing::lemma_next(a, last);
    } else {
        let rest = lemma_defs_front(ds, i + 1, ds.len());
        rule_writing::lemma_holds(s, wrote_defs(ds, i + 1), rest);
        rule_writing::lemma_holds(s, wrote_defs(ds, i), wrote_def(ds[i as int]));
        lemma_new_name(ds, i, def_name(ds[i as int]));
        lemma_reads_def(
            ds[i as int],
            a,
            GrammarView { tokens: tokens_of(ds, i), rules: rules_of(ds, i) },
        );
        lemma_reads_defs(ds, s, i + 1, last);
    }
}

/// A grammar file that is written down is read back: the tokens and the rules
/// in their order, each with its body, its modes and its actions. Nothing is
/// found wrong.
pub proof fn law_written_files_are_read_back(ds: Seq<Def>, at: Span)
    requires
        apart(ds),
        forall|j: int| 0 <= j < ds.len() ==> writable(#[trigger] ds[j]),
    ensures
        ({
            let events = wrote_file(ds, at);
            parser::file_read(ReadView { events, pos: 0, issues: Seq::empty() }) == (
                ReadView { events, pos: events.len(), issues: Seq::empty() },
                GrammarView { tokens: tokens_of(ds, ds.len()), rules: rules_of(ds, ds.len()) },
            )
        }),
{
    let events = wrote_file(ds, at);
    let s = ReadView { events, pos: 0, issues: Seq::empty() };
    let open = rule_writing::enter(RuleKind::File, at);
    let all = wrote_defs(ds, ds.len());
    let close = rule_writing::exit(RuleKind::File, at);
    assert(events =~= open + (all + close));
    assert(s.events.subrange(0, events.len() as int) =~= events);
    rule_writing::lemma_holds(s, open, all + close);
    rule_writing::lemma_next(s, open[0]);
    let a = rule_writing::behind(s, 1);
    lemma_reads_defs(ds, a, 0, close[0]);
    rule_writing::lemma_holds(a, all, close);
    rule_writing::lemma_next(rule_writing::behind(a, all.len()), close[0]);
    assert(rule_writing::behind(a, 0) == a);
}

/// Blanks and comments make no difference, and nothing else is passed over.
pub proof fn law_blanks_make_no_difference(
    a: Seq<SyntaxView>,
    e: SyntaxView,
    b: Seq<SyntaxView>,
)
    ensures
        ({
            let blank = e matches EventView::Token(t) && (t.kind == Some(TokenKind::Ws) || t.kind
                == Some(TokenKind::Comment));
            reader::significant(a + seq![e] + b) == (if blank {
                reader::significant(a + b)
            } else {
                reader::significant(a) + seq![e] + reader::significant(b)
            })
        }),
{
    lemma_significant(a + seq![e], b);
    lemma_significant(a, seq![e]);
    lemma_significant(a, b);
    assert(seq![e].drop_last() =~= Seq::empty());
    assert(reader::significant(Seq::<SyntaxView>::empty()) =~= Seq::empty());
    if reader::trivial(e) {
        assert(reader::significant(seq![e]) =~= Seq::empty());
        assert(reader::significant(a) + Seq::<SyntaxView>::empty() =~= reader::significant(a));
    } else {
        assert(reader::significant(seq![e]) =~= seq![e]);
    }
}

proof fn lemma_significant(a: Seq<SyntaxView>, b: Seq<SyntaxView>)
    ensures
        reader::significant(a + b) == reader::significant(a) + reader::significant(b),
    decreases b.len(),
{
    if b.len() == 0 {
        assert(a + b =~= a);
        assert(reader::significant(b) =~= Seq::empty());
        assert(reader::significant(a) + reader::significant(b) =~= reader::significant(a));
    } else {
        lemma_significant(a, b.drop_last());
        assert((a + b).drop_last() =~= a + b.drop_last());
        assert((a + b).last() == b.last());
        assert(reader::significant(a + b) =~= reader::significant(a) + reader::significant(b));
    }
}

} // verus!
