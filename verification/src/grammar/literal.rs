//! What the quoted literals of a grammar file stand for.
use vstd::prelude::*;

use crate::runtime::events::{self, Error, ErrorView};
use crate::span::Span;
use crate::text;

verus! {

/// What an escape comes to: the codepoint, where it ends, and what is wrong
/// with it.
pub ghost struct EscapeView {
    pub value: u32,
    pub next: nat,
    pub issue: Option<Seq<char>>,
}

/// The digits of a `\u{..}` escape from position `i` on, when `digits` of
/// them with the value `cp` have been read.
pub open spec fn escape_digits(cs: Seq<char>, i: nat, cp: nat, digits: nat) -> EscapeView
    decreases cs.len() - i,
{
    if i >= cs.len() {
        EscapeView { value: 0, next: i, issue: Some("unterminated \\u{...} escape"@) }
    } else if cs[i as int] == '}' {
        if digits == 0 {
            EscapeView {
                value: 0,
                next: i + 1,
                issue: Some("\\u{} escape must contain at least one hex digit"@),
            }
        } else if !vstd::utf8::is_scalar(cp as u32) {
            EscapeView {
                value: 0,
                next: i + 1,
                issue: Some("\\u{"@ + text::hex(cp, true) + "} is not a valid Unicode codepoint"@),
            }
        } else {
            EscapeView { value: cp as u32, next: i + 1, issue: None }
        }
    } else {
        match text::hex_value(cs[i as int]) {
            None => EscapeView {
                value: 0,
                next: i + 1,
                issue: Some(
                    "invalid hex digit `"@ + seq![cs[i as int]] + "` in \\u{...} escape"@,
                ),
            },
            Some(d) => if digits >= 6 {
                EscapeView {
                    value: 0,
                    next: i + 1,
                    issue: Some("\\u{...} escape has too many hex digits (max 6)"@),
                }
            } else {
                escape_digits(cs, i + 1, cp * 16 + d as nat, digits + 1)
            },
        }
    }
}

/// What follows the `\u` of an escape.
pub open spec fn unicode_escape(cs: Seq<char>, i: nat) -> EscapeView {
    if i < cs.len() && cs[i as int] == '{' {
        escape_digits(cs, i + 1, 0, 0)
    } else {
        EscapeView {
            value: 0,
            next: if i < cs.len() {
                i + 1
            } else {
                i
            },
            issue: Some("expected `{` after `\\u` in escape"@),
        }
    }
}

/// The character that a backslash and `c` stand for.
pub open spec fn simple_escape(c: char) -> Option<char> {
    if c == 'n' {
        Some('\n')
    } else if c == 'r' {
        Some('\r')
    } else if c == 't' {
        Some('\t')
    } else if c == '\\' || c == '\'' || c == '"' {
        Some(c)
    } else if c == '0' {
        Some('\0')
    } else {
        None
    }
}

/// What stands between the quotes.
pub open spec fn inner(lit: Seq<char>) -> Seq<char> {
    if lit.len() >= 2 {
        lit.subrange(1, lit.len() - 1)
    } else {
        Seq::empty()
    }
}

/// What is said of an escape that is not known.
pub open spec fn unknown_escape(c: char) -> Seq<char> {
    "unknown escape `\\"@ + seq![c] + "`"@
}

/// The codepoint of a character literal, and what is wrong with it.
pub open spec fn char_literal(lit: Seq<char>) -> (u32, Option<Seq<char>>) {
    let cs = inner(lit);
    if cs.len() == 0 {
        (0, Some("empty char literal"@))
    } else if cs[0] != '\\' {
        (cs[0] as u32, None)
    } else if cs.len() == 1 {
        (0, Some("dangling backslash in char literal"@))
    } else if cs[1] == 'u' {
        let e = unicode_escape(cs, 2);
        (e.value, e.issue)
    } else {
        match simple_escape(cs[1]) {
            Some(c) => (c as u32, None),
            None => (0, Some(unknown_escape(cs[1]))),
        }
    }
}

/// What the characters from `i` on stand for in a string literal, and what is
/// wrong with them. A backslash at the end stands for nothing.
pub open spec fn string_text(cs: Seq<char>, i: nat) -> (Seq<char>, Seq<Seq<char>>)
    decreases cs.len() - i,
{
    if i >= cs.len() {
        (Seq::empty(), Seq::empty())
    } else if cs[i as int] != '\\' {
        let (t, l) = string_text(cs, i + 1);
        (seq![cs[i as int]] + t, l)
    } else if i + 1 >= cs.len() {
        (Seq::empty(), Seq::empty())
    } else if cs[i as int + 1] == 'u' {
        let e = unicode_escape(cs, i + 2);
        if i < e.next <= cs.len() {
            let (t, l) = string_text(cs, e.next);
            (
                seq![e.value as char] + t,
                match e.issue {
                    Some(m) => seq![m] + l,
                    None => l,
                },
            )
        } else {
            (Seq::empty(), Seq::empty())
        }
    } else {
        let (t, l) = string_text(cs, i + 2);
        match simple_escape(cs[i as int + 1]) {
            Some(c) => (seq![c] + t, l),
            None => (t, seq![unknown_escape(cs[i as int + 1])] + l),
        }
    }
}

/// The text of a string literal, and what is wrong with it.
pub open spec fn string_literal(lit: Seq<char>) -> (Seq<char>, Seq<Seq<char>>) {
    string_text(inner(lit), 0)
}

/// The issues with the messages, all at one place.
pub open spec fn issues_at(messages: Seq<Seq<char>>, span: Span) -> Seq<ErrorView> {
    Seq::new(messages.len(), |i: int| ErrorView { message: messages[i], span })
}

/// The message in a list, if there is one.
pub open spec fn one_message(m: Option<Seq<char>>) -> Seq<Seq<char>> {
    match m {
        Some(x) => seq![x],
        None => Seq::empty(),
    }
}

/// Adds an issue.
pub(crate) fn report(issues: &mut Vec<Error>, message: String, span: Span)
    ensures
        events::errors_view(final(issues)@) == events::errors_view(old(issues)@).push(
            ErrorView { message: message@, span },
        ),
{
    issues.push(Error::new(message).at(span));
    assert(events::errors_view(issues@) =~= events::errors_view(old(issues)@).push(
        ErrorView { message: message@, span },
    ));
}

proof fn lemma_push_issue(before: Seq<ErrorView>, m: Seq<char>, span: Span)
    ensures
        before.push(ErrorView { message: m, span }) == before + issues_at(seq![m], span),
{
    assert(before.push(ErrorView { message: m, span }) =~= before + issues_at(seq![m], span));
}

proof fn lemma_escape_next(cs: Seq<char>, i: nat, cp: nat, digits: nat)
    requires
        i <= cs.len(),
    ensures
        i <= escape_digits(cs, i, cp, digits).next <= cs.len(),
        escape_digits(cs, i, cp, digits).issue is Some ==> escape_digits(
            cs,
            i,
            cp,
            digits,
        ).value == 0,
        vstd::utf8::is_scalar(escape_digits(cs, i, cp, digits).value),
    decreases cs.len() - i,
{
    if i < cs.len() && cs[i as int] != '}' {
        match text::hex_value(cs[i as int]) {
            None => {},
            Some(d) => {
                if digits < 6 {
                    lemma_escape_next(cs, i + 1, cp * 16 + d as nat, digits + 1);
                }
            },
        }
    }
}

/// A single character as text.
fn one_char(c: char) -> (r: String)
    ensures
        r@ == seq![c],
{
    let mut r = String::new();
    r.push(c);
    assert(r@ =~= seq![c]);
    r
}

/// Reads what follows the `\u` of an escape: its codepoint, and where it ends.
/// What is wrong is reported.
fn parse_unicode_escape(cs: &Vec<char>, i: usize, span: Span, issues: &mut Vec<Error>) -> (r: (
    u32,
    usize,
))
    requires
        i <= cs@.len(),
    ensures
        r.0 == unicode_escape(cs@, i as nat).value,
        r.1 == unicode_escape(cs@, i as nat).next,
        i <= r.1 <= cs@.len(),
        vstd::utf8::is_scalar(r.0),
        events::errors_view(final(issues)@) == events::errors_view(old(issues)@) + issues_at(
            one_message(unicode_escape(cs@, i as nat).issue),
            span,
        ),
{
    let ghost before = events::errors_view(issues@);
    let ghost e = unicode_escape(cs@, i as nat);
    proof {
        if i < cs@.len() {
            lemma_escape_next(cs@, (i + 1) as nat, 0, 0);
        }
        if e.issue is Some {
            lemma_push_issue(before, e.issue->0, span);
        } else {
            assert(before =~= before + issues_at(one_message(e.issue), span));
        }
    }
    if i >= cs.len() {
        report(issues, "expected `{` after `\\u` in escape".to_owned(), span);
        return (0, i);
    }
    if cs[i] != '{' {
        report(issues, "expected `{` after `\\u` in escape".to_owned(), span);
        return (0, i + 1);
    }
    let mut at: usize = i + 1;
    let mut cp: u32 = 0;
    let mut digits: u32 = 0;
    while at < cs.len() && cs[at] != '}'
        invariant
            i < at <= cs@.len(),
            i < cs@.len(),
            cs@[i as int] == '{',
            before == events::errors_view(old(issues)@),
            events::errors_view(issues@) == before,
            e == unicode_escape(cs@, i as nat),
            e == escape_digits(cs@, at as nat, cp as nat, digits as nat),
            e.issue is Some ==> before.push(ErrorView { message: e.issue->0, span }) == before
                + issues_at(one_message(e.issue), span),
            digits <= 6,
            digits == 0 ==> cp == 0,
            digits == 1 ==> cp < 0x10,
            digits == 2 ==> cp < 0x100,
            digits == 3 ==> cp < 0x1000,
            digits == 4 ==> cp < 0x1_0000,
            digits == 5 ==> cp < 0x10_0000,
            digits == 6 ==> cp < 0x100_0000,
        decreases cs@.len() - at,
    {
        let c = cs[at];
        match text::from_hex(c) {
            None => {
                let shown = one_char(c);
                let msg = text::concat3(
                    "invalid hex digit `",
                    shown.as_str(),
                    "` in \\u{...} escape",
                );
                report(issues, msg, span);
                return (0, at + 1);
            },
            Some(d) => {
                if digits >= 6 {
                    report(
                        issues,
                        "\\u{...} escape has too many hex digits (max 6)".to_owned(),
                        span,
                    );
                    return (0, at + 1);
                }
                cp = cp * 16 + d;
                digits += 1;
            },
        }
        at += 1;
    }
    if at >= cs.len() {
        report(issues, "unterminated \\u{...} escape".to_owned(), span);
        return (0, at);
    }
    if digits == 0 {
        report(issues, "\\u{} escape must contain at least one hex digit".to_owned(), span);
        return (0, at + 1);
    }
    if char::from_u32(cp).is_none() {
        let mut msg = "\\u{".to_owned();
        text::push_hex(&mut msg, cp, true);
        msg.append("} is not a valid Unicode codepoint");
        report(issues, msg, span);
        return (0, at + 1);
    }
    (cp, at + 1)
}

/// The character that a backslash and `c` stand for.
fn escape_char(c: char) -> (r: Option<char>)
    ensures
        r == simple_escape(c),
{
    if c == 'n' {
        Some('\n')
    } else if c == 'r' {
        Some('\r')
    } else if c == 't' {
        Some('\t')
    } else if c == '\\' || c == '\'' || c == '"' {
        Some(c)
    } else if c == '0' {
        Some('\0')
    } else {
        None
    }
}

/// What stands between the quotes.
fn inner_chars(lit: &str) -> (r: Vec<char>)
    ensures
        r@ == inner(lit@),
{
    let cs = text::chars(lit);
    let mut r: Vec<char> = Vec::new();
    if cs.len() < 2 {
        assert(r@ =~= inner(lit@));
        return r;
    }
    let mut i: usize = 1;
    assert(r@ =~= cs@.subrange(1, 1));
    while i < cs.len() - 1
        invariant
            1 <= i <= cs@.len() - 1,
            r@ == cs@.subrange(1, i as int),
        decreases cs@.len() - i,
    {
        r.push(cs[i]);
        assert(r@ =~= cs@.subrange(1, i + 1));
        i += 1;
    }
    r
}

/// The codepoint of a character literal. What is wrong with it is reported,
/// and it then is 0.
pub fn unquote_char(lit: &str, span: Span, issues: &mut Vec<Error>) -> (r: u32)
    ensures
        r == char_literal(lit@).0,
        events::errors_view(final(issues)@) == events::errors_view(old(issues)@) + issues_at(
            one_message(char_literal(lit@).1),
            span,
        ),
{
    let cs = inner_chars(lit);
    let ghost before = events::errors_view(issues@);
    let ghost want = char_literal(lit@);
    proof {
        if want.1 is Some {
            lemma_push_issue(before, want.1->0, span);
        } else {
            assert(before =~= before + issues_at(one_message(want.1), span));
        }
    }
    if cs.len() == 0 {
        report(issues, "empty char literal".to_owned(), span);
        return 0;
    }
    if cs[0] != '\\' {
        return cs[0] as u32;
    }
    if cs.len() == 1 {
        report(issues, "dangling backslash in char literal".to_owned(), span);
        return 0;
    }
    if cs[1] == 'u' {
        let (value, _) = parse_unicode_escape(&cs, 2, span, issues);
        return value;
    }
    match escape_char(cs[1]) {
        Some(c) => c as u32,
        None => {
            let shown = one_char(cs[1]);
            let msg = text::concat3("unknown escape `\\", shown.as_str(), "`");
            report(issues, msg, span);
            0
        },
    }
}

/// The codepoint of a character literal is one of a character.
pub proof fn lemma_char_scalar(lit: Seq<char>)
    ensures
        vstd::utf8::is_scalar(char_literal(lit).0),
{
    let cs = inner(lit);
    if cs.len() > 0 {
        vstd::utf8::char_is_scalar(cs[0]);
    }
    if cs.len() > 2 {
        lemma_escape_next(cs, 3, 0, 0);
    }
    if cs.len() > 1 && simple_escape(cs[1]) is Some {
        vstd::utf8::char_is_scalar(simple_escape(cs[1])->0);
    }
}

/// The text of a string literal. What is wrong with it is reported.
pub fn unquote_string(lit: &str, span: Span, issues: &mut Vec<Error>) -> (r: String)
    ensures
        r@ == string_literal(lit@).0,
        events::errors_view(final(issues)@) == events::errors_view(old(issues)@) + issues_at(
            string_literal(lit@).1,
            span,
        ),
{
    let cs = inner_chars(lit);
    let ghost before = events::errors_view(issues@);
    let ghost want = string_literal(lit@);
    let mut out = String::new();
    let mut i: usize = 0;
    let ghost mut said: Seq<Seq<char>> = Seq::empty();
    assert(out@ + want.0 =~= want.0);
    assert(said + want.1 =~= want.1);
    assert(before + issues_at(said, span) =~= before);
    while i < cs.len()
        invariant
            i <= cs@.len(),
            want == string_text(cs@, 0),
            before == events::errors_view(old(issues)@),
            want == string_literal(lit@),
            want.0 == out@ + string_text(cs@, i as nat).0,
            want.1 == said + string_text(cs@, i as nat).1,
            events::errors_view(issues@) == before + issues_at(said, span),
        decreases cs@.len() - i,
    {
        let ghost rest = string_text(cs@, i as nat);
        let ghost o0 = out@;
        let ghost s0 = said;
        let c = cs[i];
        if c != '\\' {
            out.push(c);
            i += 1;
            assert(o0.push(c) + string_text(cs@, i as nat).0 =~= o0 + rest.0);
            continue;
        }
        if i + 1 >= cs.len() {
            assert(o0 + rest.0 =~= o0);
            assert(s0 + rest.1 =~= s0);
            return out;
        }
        let d = cs[i + 1];
        if d == 'u' {
            let ghost e = unicode_escape(cs@, (i + 2) as nat);
            let (value, next) = parse_unicode_escape(&cs, i + 2, span, issues);
            if let Some(ch) = char::from_u32(value) {
                out.push(ch);
                proof {
                    vstd::utf8::char_u32_cast(ch, value);
                }
            }
            proof {
                said = s0 + one_message(e.issue);
                assert(before + issues_at(s0, span) + issues_at(one_message(e.issue), span)
                    =~= before + issues_at(said, span));
                assert(o0.push(e.value as char) + string_text(cs@, next as nat).0 =~= o0 + rest.0);
                assert(said + string_text(cs@, next as nat).1 =~= s0 + rest.1);
            }
            i = next;
            continue;
        }
        match escape_char(d) {
            Some(ch) => {
                out.push(ch);
                assert(o0.push(ch) + string_text(cs@, (i + 2) as nat).0 =~= o0 + rest.0);
            },
            None => {
                let shown = one_char(d);
                let msg = text::concat3("unknown escape `\\", shown.as_str(), "`");
                report(issues, msg, span);
                proof {
                    let m = unknown_escape(d);
                    said = s0.push(m);
                    assert((before + issues_at(s0, span)).push(ErrorView { message: m, span })
                        =~= before + issues_at(said, span));
                    assert(said + string_text(cs@, (i + 2) as nat).1 =~= s0 + rest.1);
                }
            },
        }
        i += 2;
    }
    assert(out@ + string_text(cs@, i as nat).0 =~= out@);
    assert(said + string_text(cs@, i as nat).1 =~= said);
    out
}

} // verus!
