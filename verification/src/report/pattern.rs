//! Token patterns as text.
use vstd::prelude::*;

use crate::grammar::ir::{self, CharClass, ClassItem, ClassView, PatternView, TokenPattern};
use crate::names;
use crate::text;

verus! {

/// A codepoint in a class.
pub open spec fn char_text(cp: u32) -> Seq<char> {
    if cp == 0x09 {
        "\\t"@
    } else if cp == 0x0A {
        "\\n"@
    } else if cp == 0x0D {
        "\\r"@
    } else if cp == 0x20 {
        "\\ "@
    } else if cp == 0x22 {
        "\\\""@
    } else if cp == 0x5C {
        "\\\\"@
    } else if cp == 0x5D {
        "\\]"@
    } else if cp == 0x2D {
        "\\-"@
    } else if 0x21 <= cp < 0x7F {
        seq![cp as char]
    } else {
        let h = text::hex(cp as nat, true);
        "\\u"@ + zeros(4, h.len()) + h
    }
}

/// The zeros that bring `n` digits to the width.
pub open spec fn zeros(width: nat, n: nat) -> Seq<char> {
    if n < width {
        Seq::new((width - n) as nat, |i: int| '0')
    } else {
        Seq::empty()
    }
}

/// Appends the number in hexadecimal capitals, with zeros up to the width.
pub fn push_hex_padded(s: &mut String, n: u32, width: usize)
    ensures
        final(s)@ == old(s)@ + zeros(width as nat, text::hex(n as nat, true).len()) + text::hex(
            n as nat,
            true,
        ),
{
    let ghost before = s@;
    let mut h = String::new();
    text::push_hex(&mut h, n, true);
    assert(h@ =~= text::hex(n as nat, true));
    let len = text::length(h.as_str());
    let mut i: usize = len;
    assert(s@ =~= before + Seq::new(0, |i: int| '0'));
    while i < width
        invariant
            len <= i,
            i <= width || i == len,
            s@ == before + Seq::new((i - len) as nat, |i: int| '0'),
        decreases width - i,
    {
        s.push('0');
        i += 1;
        assert(s@ =~= before + Seq::new((i - len) as nat, |i: int| '0'));
    }
    assert(s@ =~= before + zeros(width as nat, len as nat));
    s.append(h.as_str());
}

/// A codepoint in a class.
pub fn format_char(cp: u32) -> (r: String)
    ensures
        r@ == char_text(cp),
{
    if cp == 0x09 {
        "\\t".to_owned()
    } else if cp == 0x0A {
        "\\n".to_owned()
    } else if cp == 0x0D {
        "\\r".to_owned()
    } else if cp == 0x20 {
        "\\ ".to_owned()
    } else if cp == 0x22 {
        "\\\"".to_owned()
    } else if cp == 0x5C {
        "\\\\".to_owned()
    } else if cp == 0x5D {
        "\\]".to_owned()
    } else if cp == 0x2D {
        "\\-".to_owned()
    } else if 0x21 <= cp && cp < 0x7F {
        let mut r = String::new();
        r.push((cp as u8) as char);
        assert(r@ =~= seq![cp as char]);
        r
    } else {
        let mut r = "\\u".to_owned();
        push_hex_padded(&mut r, cp, 4);
        r
    }
}

/// One item of a class.
pub open spec fn item_text(it: ClassItem) -> Seq<char> {
    match it {
        ClassItem::Char(c) => char_text(c),
        ClassItem::Range(lo, hi) => char_text(lo) + "-"@ + char_text(hi),
    }
}

/// The first `n` items of a class.
pub open spec fn items_text(items: Seq<ClassItem>, n: nat) -> Seq<char>
    decreases n,
{
    if n == 0 || n > items.len() {
        Seq::empty()
    } else {
        items_text(items, (n - 1) as nat) + item_text(items[n - 1])
    }
}

/// A class.
pub open spec fn class_text(c: ClassView) -> Seq<char> {
    let items = items_text(c.items, c.items.len());
    if c.negated {
        "[^"@ + items + "]"@
    } else {
        "["@ + items + "]"@
    }
}

fn format_item(it: &ClassItem) -> (r: String)
    ensures
        r@ == item_text(*it),
{
    match it {
        ClassItem::Char(c) => format_char(*c),
        ClassItem::Range(lo, hi) => {
            let a = format_char(*lo);
            let b = format_char(*hi);
            text::concat3(a.as_str(), "-", b.as_str())
        },
    }
}

/// A class.
pub fn format_class(c: &CharClass) -> (r: String)
    ensures
        r@ == class_text(c@),
{
    let mut items = String::new();
    let mut i: usize = 0;
    assert(items@ =~= Seq::<char>::empty());
    while i < c.items.len()
        invariant
            i <= c.items@.len(),
            items@ == items_text(c.items@, i as nat),
        decreases c.items@.len() - i,
    {
        items.append(format_item(&c.items[i]).as_str());
        i += 1;
    }
    if c.negated {
        text::concat3("[^", items.as_str(), "]")
    } else {
        text::concat3("[", items.as_str(), "]")
    }
}

/// What a negated lookahead forbids, each by itself.
pub open spec fn forbidden_texts(c: ClassView, strings: Seq<Seq<char>>) -> Seq<Seq<char>> {
    Seq::new(
        c.items.len() + strings.len(),
        |i: int|
            if i < c.items.len() {
                item_text(c.items[i])
            } else {
                text::debug_text(strings[i - c.items.len()])
            },
    )
}

/// A pattern. Alternatives and what is quantified stand in brackets.
pub open spec fn pattern_text(p: PatternView) -> Seq<char>
    decreases p, 0nat,
{
    match p {
        PatternView::Empty => "ε"@,
        PatternView::Literal(s) => text::debug_text(s),
        PatternView::Class(c) => class_text(c),
        PatternView::Ref(n) => n,
        PatternView::NegLook(c, ss) => "!("@ + text::joined(forbidden_texts(c, ss), " | "@)
            + ")"@,
        PatternView::Concat(xs) => text::joined(patterns_text(xs), " "@),
        PatternView::Alt(xs) => "("@ + text::joined(patterns_text(xs), " | "@) + ")"@,
        PatternView::Opt(x) => unit_text(*x) + "?"@,
        PatternView::Star(x) => unit_text(*x) + "*"@,
        PatternView::Plus(x) => unit_text(*x) + "+"@,
    }
}

/// The patterns, each by itself.
pub open spec fn patterns_text(xs: Seq<PatternView>) -> Seq<Seq<char>>
    decreases xs, 0nat,
{
    Seq::new(
        xs.len(),
        |i: int|
            if 0 <= i < xs.len() {
                pattern_text(xs[i])
            } else {
                Seq::empty()
            },
    )
}

/// A pattern that something is said of: in brackets if it has several parts.
pub open spec fn unit_text(p: PatternView) -> Seq<char>
    decreases p, 1nat,
{
    match p {
        PatternView::Concat(_) => "("@ + pattern_text(p) + ")"@,
        PatternView::Alt(_) => "("@ + pattern_text(p) + ")"@,
        _ => pattern_text(p),
    }
}

fn format_forbidden(c: &CharClass, strings: &Vec<String>) -> (r: Vec<String>)
    ensures
        names::list_view(r@) == forbidden_texts(c@, names::list_view(strings@)),
{
    let ghost want = forbidden_texts(c@, names::list_view(strings@));
    let mut r: Vec<String> = Vec::new();
    let mut i: usize = 0;
    while i < c.items.len()
        invariant
            i <= c.items@.len(),
            want == forbidden_texts(c@, names::list_view(strings@)),
            r@.len() == i,
            forall|k: int| 0 <= k < i ==> (#[trigger] r@[k])@ == want[k],
        decreases c.items@.len() - i,
    {
        r.push(format_item(&c.items[i]));
        i += 1;
    }
    let mut j: usize = 0;
    while j < strings.len()
        invariant
            j <= strings@.len(),
            want == forbidden_texts(c@, names::list_view(strings@)),
            r@.len() == c.items@.len() + j,
            forall|k: int| 0 <= k < r@.len() ==> (#[trigger] r@[k])@ == want[k],
        decreases strings@.len() - j,
    {
        r.push(text::debug_str(strings[j].as_str()));
        j += 1;
    }
    assert(names::list_view(r@) =~= want);
    r
}

/// A pattern.
pub fn format_pattern(p: &TokenPattern) -> (r: String)
    ensures
        r@ == pattern_text(p@),
    decreases p, 0nat,
{
    match p {
        TokenPattern::Empty => "ε".to_owned(),
        TokenPattern::Literal(s) => text::debug_str(s.as_str()),
        TokenPattern::Class(c) => format_class(c),
        TokenPattern::Ref(n) => n.clone(),
        TokenPattern::NegLook { chars, strings } => {
            let parts = format_forbidden(chars, strings);
            let list = text::join(&parts, " | ");
            text::concat3("!(", list.as_str(), ")")
        },
        TokenPattern::Concat(xs) => {
            assert(p@->Concat_0 == ir::patterns_view(xs@));
            let parts = format_all(xs);
            text::join(&parts, " ")
        },
        TokenPattern::Alt(xs) => {
            assert(p@->Alt_0 == ir::patterns_view(xs@));
            let parts = format_all(xs);
            let list = text::join(&parts, " | ");
            text::concat3("(", list.as_str(), ")")
        },
        TokenPattern::Opt(x) => {
            let mut r = paren_if_composite(x);
            r.append("?");
            r
        },
        TokenPattern::Star(x) => {
            let mut r = paren_if_composite(x);
            r.append("*");
            r
        },
        TokenPattern::Plus(x) => {
            let mut r = paren_if_composite(x);
            r.append("+");
            r
        },
    }
}

fn format_all(xs: &Vec<TokenPattern>) -> (r: Vec<String>)
    ensures
        names::list_view(r@) == patterns_text(ir::patterns_view(xs@)),
    decreases xs, 0nat,
{
    let ghost want = patterns_text(ir::patterns_view(xs@));
    let mut r: Vec<String> = Vec::new();
    let mut i: usize = 0;
    while i < xs.len()
        invariant
            i <= xs@.len(),
            want == patterns_text(ir::patterns_view(xs@)),
            r@.len() == i,
            forall|k: int| 0 <= k < i ==> (#[trigger] r@[k])@ == want[k],
        decreases xs@.len() - i,
    {
        assert(want[i as int] == pattern_text(ir::patterns_view(xs@)[i as int]));
        r.push(format_pattern(&xs[i]));
        i += 1;
    }
    assert(names::list_view(r@) =~= want);
    r
}

fn paren_if_composite(p: &TokenPattern) -> (r: String)
    ensures
        r@ == unit_text(p@),
    decreases p, 1nat,
{
    let inner = format_pattern(p);
    match p {
        TokenPattern::Concat(_) => text::concat3("(", inner.as_str(), ")"),
        TokenPattern::Alt(_) => text::concat3("(", inner.as_str(), ")"),
        _ => inner,
    }
}

} // verus!
