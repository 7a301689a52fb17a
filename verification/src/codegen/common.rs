//! Case conversion and string escaping, shared by every backend.
use vstd::prelude::*;

use crate::grammar::ir::{self, Expr, ExprView};
use crate::names;
use crate::text;

verus! {

/// The expression and all that it is made of, each before its parts.
pub open spec fn preorder(e: ExprView) -> Seq<ExprView>
    decreases e, 0nat,
{
    seq![e] + match e {
        ExprView::Concat(xs) => preorder_all(xs, xs.len()),
        ExprView::Alt(xs) => preorder_all(xs, xs.len()),
        ExprView::Opt(x) => preorder(*x),
        ExprView::Star(x) => preorder(*x),
        ExprView::Plus(x) => preorder(*x),
        ExprView::Label(_, x) => preorder(*x),
        _ => Seq::empty(),
    }
}

/// [`preorder`] of the first `n` expressions.
pub open spec fn preorder_all(xs: Seq<ExprView>, n: nat) -> Seq<ExprView>
    decreases xs, n,
{
    if n == 0 || n > xs.len() {
        Seq::empty()
    } else {
        preorder_all(xs, (n - 1) as nat) + preorder(xs[n - 1])
    }
}

/// What the expressions say.
pub open spec fn refs_view(v: Seq<&Expr>) -> Seq<ExprView> {
    Seq::new(v.len(), |i: int| v[i]@)
}

fn visit_into<'a>(e: &'a Expr, out: &mut Vec<&'a Expr>)
    ensures
        refs_view(final(out)@) == refs_view(old(out)@) + preorder(e@),
    decreases e, 1nat,
{
    let ghost before = refs_view(out@);
    out.push(e);
    let ghost mid = refs_view(out@);
    assert(mid =~= before + seq![e@]);
    match e {
        Expr::Concat(xs) => {
            assert(e@->Concat_0 == ir::exprs_view(xs@));
            visit_all(xs, out);
            assert(mid + preorder_all(ir::exprs_view(xs@), xs@.len()) =~= before + preorder(e@));
        },
        Expr::Alt(xs) => {
            assert(e@->Alt_0 == ir::exprs_view(xs@));
            visit_all(xs, out);
            assert(mid + preorder_all(ir::exprs_view(xs@), xs@.len()) =~= before + preorder(e@));
        },
        Expr::Opt(x) => {
            visit_into(x, out);
            assert(mid + preorder(x@) =~= before + preorder(e@));
        },
        Expr::Star(x) => {
            visit_into(x, out);
            assert(mid + preorder(x@) =~= before + preorder(e@));
        },
        Expr::Plus(x) => {
            visit_into(x, out);
            assert(mid + preorder(x@) =~= before + preorder(e@));
        },
        Expr::Label(_, x) => {
            visit_into(x, out);
            assert(mid + preorder(x@) =~= before + preorder(e@));
        },
        _ => {
            assert(mid =~= before + preorder(e@));
        },
    }
}

fn visit_all<'a>(xs: &'a Vec<Expr>, out: &mut Vec<&'a Expr>)
    ensures
        refs_view(final(out)@) == refs_view(old(out)@) + preorder_all(
            ir::exprs_view(xs@),
            xs@.len(),
        ),
    decreases xs, 0nat,
{
    let ghost before = refs_view(out@);
    let ghost xv = ir::exprs_view(xs@);
    let mut i: usize = 0;
    assert(before =~= before + preorder_all(xv, 0));
    while i < xs.len()
        invariant
            i <= xs@.len(),
            xv == ir::exprs_view(xs@),
            refs_view(out@) == before + preorder_all(xv, i as nat),
        decreases xs@.len() - i,
    {
        assert(xv[i as int] == xs@[i as int]@);
        visit_into(&xs[i], out);
        assert(before + preorder_all(xv, i as nat) + preorder(xv[i as int]) =~= before
            + preorder_all(xv, (i + 1) as nat));
        i += 1;
    }
}

/// The expression and all that it is made of, each before its parts.
pub fn visit(e: &Expr) -> (r: Vec<&Expr>)
    ensures
        refs_view(r@) == preorder(e@),
{
    let mut out: Vec<&Expr> = Vec::new();
    assert(refs_view(out@) =~= Seq::<ExprView>::empty());
    visit_into(e, &mut out);
    assert(Seq::<ExprView>::empty() + preorder(e@) =~= preorder(e@));
    out
}

/// The capital form of a character.
pub uninterp spec fn upper_text(c: char) -> Seq<char>;

/// The small form of a character.
pub uninterp spec fn lower_text(c: char) -> Seq<char>;

/// `char::to_uppercase`: what [`upper_text`] names. Which characters have a
/// capital form, and what it is, is not stated.
#[verifier::external_body]
fn to_upper(c: char) -> (r: String)
    ensures
        r@ == upper_text(c),
{
    c.to_uppercase().collect()
}

/// `char::to_lowercase`: what [`lower_text`] names. Which characters have a
/// small form, and what it is, is not stated.
#[verifier::external_body]
fn to_lower(c: char) -> (r: String)
    ensures
        r@ == lower_text(c),
{
    c.to_lowercase().collect()
}

/// The first `n` characters in Pascal case, given the capital and the small
/// form of each, and whether the next one begins a word.
pub open spec fn pascal_upto(
    cs: Seq<char>,
    ups: Seq<Seq<char>>,
    lows: Seq<Seq<char>>,
    n: nat,
) -> (Seq<char>, bool)
    decreases n,
{
    if n == 0 || n > cs.len() {
        (Seq::empty(), true)
    } else {
        let (out, first) = pascal_upto(cs, ups, lows, (n - 1) as nat);
        if cs[n - 1] == '_' {
            (out, true)
        } else if first {
            (out + ups[n - 1], false)
        } else {
            (out + lows[n - 1], false)
        }
    }
}

/// A name in Pascal case, given the capital and the small form of each of its
/// characters: underscores are dropped, and what follows one, or begins the
/// name, is a capital.
pub fn pascal_cased(cs: &Vec<char>, ups: &Vec<String>, lows: &Vec<String>) -> (r: String)
    requires
        ups@.len() == cs@.len(),
        lows@.len() == cs@.len(),
    ensures
        r@ == pascal_upto(
            cs@,
            names::list_view(ups@),
            names::list_view(lows@),
            cs@.len(),
        ).0,
{
    let ghost uv = names::list_view(ups@);
    let ghost lv = names::list_view(lows@);
    let mut out = String::new();
    let mut first = true;
    let mut i: usize = 0;
    assert(out@ =~= Seq::<char>::empty());
    while i < cs.len()
        invariant
            i <= cs@.len(),
            ups@.len() == cs@.len(),
            lows@.len() == cs@.len(),
            uv == names::list_view(ups@),
            lv == names::list_view(lows@),
            (out@, first) == pascal_upto(cs@, uv, lv, i as nat),
        decreases cs@.len() - i,
    {
        if cs[i] == '_' {
            first = true;
        } else if first {
            out.append(ups[i].as_str());
            first = false;
        } else {
            out.append(lows[i].as_str());
        }
        i += 1;
    }
    out
}

/// The capital form of each character.
pub open spec fn uppers(cs: Seq<char>) -> Seq<Seq<char>> {
    Seq::new(cs.len(), |i: int| upper_text(cs[i]))
}

/// The small form of each character.
pub open spec fn lowers(cs: Seq<char>) -> Seq<Seq<char>> {
    Seq::new(cs.len(), |i: int| lower_text(cs[i]))
}

fn all_upper(cs: &Vec<char>) -> (r: Vec<String>)
    ensures
        names::list_view(r@) == uppers(cs@),
        r@.len() == cs@.len(),
{
    let mut r: Vec<String> = Vec::new();
    let mut i: usize = 0;
    while i < cs.len()
        invariant
            i <= cs@.len(),
            r@.len() == i,
            forall|k: int| 0 <= k < i ==> (#[trigger] r@[k])@ == upper_text(cs@[k]),
        decreases cs@.len() - i,
    {
        r.push(to_upper(cs[i]));
        i += 1;
    }
    assert(names::list_view(r@) =~= uppers(cs@));
    r
}

fn all_lower(cs: &Vec<char>) -> (r: Vec<String>)
    ensures
        names::list_view(r@) == lowers(cs@),
        r@.len() == cs@.len(),
{
    let mut r: Vec<String> = Vec::new();
    let mut i: usize = 0;
    while i < cs.len()
        invariant
            i <= cs@.len(),
            r@.len() == i,
            forall|k: int| 0 <= k < i ==> (#[trigger] r@[k])@ == lower_text(cs@[k]),
        decreases cs@.len() - i,
    {
        r.push(to_lower(cs[i]));
        i += 1;
    }
    assert(names::list_view(r@) =~= lowers(cs@));
    r
}

/// Convert `snake_case` to `PascalCase`.
pub fn pascal(s: &str) -> (r: String)
    ensures
        r@ == pascal_upto(s@, uppers(s@), lowers(s@), s@.len()).0,
{
    let cs = text::chars(s);
    let ups = all_upper(&cs);
    let lows = all_lower(&cs);
    pascal_cased(&cs, &ups, &lows)
}

/// The first `n` characters in capitals with underscores between words, given
/// the capital form of each, and whether the last was a small letter a to z.
pub open spec fn screaming_upto(cs: Seq<char>, ups: Seq<Seq<char>>, n: nat) -> (Seq<char>, bool)
    decreases n,
{
    if n == 0 || n > cs.len() {
        (Seq::empty(), false)
    } else {
        let (out, low) = screaming_upto(cs, ups, (n - 1) as nat);
        let c = cs[n - 1];
        if 'A' <= c <= 'Z' {
            (
                if low {
                    out.push('_').push(c)
                } else {
                    out.push(c)
                },
                false,
            )
        } else if c == '_' {
            (out.push('_'), false)
        } else {
            (out + ups[n - 1], 'a' <= c <= 'z')
        }
    }
}

/// A name in capitals with underscores between words, given the capital form
/// of each of its characters. A word begins where a capital follows a small
/// letter.
pub fn screaming_cased(cs: &Vec<char>, ups: &Vec<String>) -> (r: String)
    requires
        ups@.len() == cs@.len(),
    ensures
        r@ == screaming_upto(cs@, names::list_view(ups@), cs@.len()).0,
{
    let ghost uv = names::list_view(ups@);
    let mut out = String::new();
    let mut low = false;
    let mut i: usize = 0;
    assert(out@ =~= Seq::<char>::empty());
    while i < cs.len()
        invariant
            i <= cs@.len(),
            ups@.len() == cs@.len(),
            uv == names::list_view(ups@),
            (out@, low) == screaming_upto(cs@, uv, i as nat),
        decreases cs@.len() - i,
    {
        let c = cs[i];
        if 'A' <= c && c <= 'Z' {
            if low {
                out.push('_');
            }
            out.push(c);
            low = false;
        } else if c == '_' {
            out.push('_');
            low = false;
        } else {
            out.append(ups[i].as_str());
            low = 'a' <= c && c <= 'z';
        }
        i += 1;
    }
    out
}

/// Convert `camelCase` or `snake_case` to `SCREAMING_SNAKE`.
pub fn screaming_snake(s: &str) -> (r: String)
    ensures
        r@ == screaming_upto(s@, uppers(s@), s@.len()).0,
{
    let cs = text::chars(s);
    let ups = all_upper(&cs);
    screaming_cased(&cs, &ups)
}

/// A control character in four hexadecimal digits.
pub open spec fn four_hex(c: char) -> Seq<char> {
    let h = text::hex(c as nat, false);
    Seq::new((4 - h.len()) as nat, |i: int| '0') + h
}

/// One character of an escaped string. With `braces`, the digits of a control
/// character stand in braces.
pub open spec fn escaped_char(c: char, braces: bool) -> Seq<char> {
    if c == '\\' {
        "\\\\"@
    } else if c == '"' {
        "\\\""@
    } else if c == '\n' {
        "\\n"@
    } else if c == '\r' {
        "\\r"@
    } else if c == '\t' {
        "\\t"@
    } else if (c as u32) < 0x20 {
        if braces {
            "\\u{"@ + four_hex(c) + "}"@
        } else {
            "\\u"@ + four_hex(c)
        }
    } else {
        seq![c]
    }
}

/// The first `n` characters escaped.
pub open spec fn escaped_upto(cs: Seq<char>, n: nat, braces: bool) -> Seq<char>
    decreases n,
{
    if n == 0 || n > cs.len() {
        Seq::empty()
    } else {
        escaped_upto(cs, (n - 1) as nat, braces) + escaped_char(cs[n - 1], braces)
    }
}

fn push_four_hex(out: &mut String, c: char)
    requires
        (c as u32) < 0x20,
    ensures
        final(out)@ == old(out)@ + four_hex(c),
{
    let n = c as u32;
    let ghost h = text::hex(n as nat, false);
    if n < 16 {
        out.append("000");
        proof {
            reveal_strlit("000");
            assert(h.len() == 1);
            assert("000"@ =~= Seq::new(3, |i: int| '0'));
        }
    } else {
        out.append("00");
        proof {
            reveal_strlit("00");
            assert(n / 16 < 16);
            assert(text::hex((n / 16) as nat, false).len() == 1);
            assert(h.len() == 2);
            assert("00"@ =~= Seq::new(2, |i: int| '0'));
        }
    }
    text::push_hex(out, n, false);
    assert(out@ =~= old(out)@ + four_hex(c));
}

fn push_escaped(out: &mut String, c: char, braces: bool)
    ensures
        final(out)@ == old(out)@ + escaped_char(c, braces),
{
    if c == '\\' {
        out.append("\\\\");
    } else if c == '"' {
        out.append("\\\"");
    } else if c == '\n' {
        out.append("\\n");
    } else if c == '\r' {
        out.append("\\r");
    } else if c == '\t' {
        out.append("\\t");
    } else if (c as u32) < 0x20 {
        if braces {
            out.append("\\u{");
            push_four_hex(out, c);
            out.append("}");
        } else {
            out.append("\\u");
            push_four_hex(out, c);
        }
        assert(out@ =~= old(out)@ + escaped_char(c, braces));
    } else {
        out.push(c);
        assert(out@ =~= old(out)@ + escaped_char(c, braces));
    }
}

fn escaped(s: &str, braces: bool) -> (r: String)
    ensures
        r@ == escaped_upto(s@, s@.len(), braces),
{
    let cs = text::chars(s);
    let mut out = String::new();
    let mut i: usize = 0;
    assert(out@ =~= Seq::<char>::empty());
    while i < cs.len()
        invariant
            i <= cs@.len(),
            out@ == escaped_upto(cs@, i as nat, braces),
        decreases cs@.len() - i,
    {
        push_escaped(&mut out, cs[i], braces);
        i += 1;
    }
    out
}

/// The string escaped from its front on.
pub proof fn lemma_escaped_front(cs: Seq<char>, n: nat, braces: bool)
    requires
        0 < n <= cs.len(),
    ensures
        escaped_upto(cs, n, braces) == escaped_char(cs[0], braces) + escaped_upto(
            cs.skip(1),
            (n - 1) as nat,
            braces,
        ),
    decreases n,
{
    let e = escaped_char(cs[0], braces);
    if n == 1 {
        assert(escaped_upto(cs, 0, braces) =~= Seq::<char>::empty());
        assert(escaped_upto(cs, 1, braces) =~= e);
        assert(e + escaped_upto(cs.skip(1), 0, braces) =~= e);
    } else {
        lemma_escaped_front(cs, (n - 1) as nat, braces);
        assert(cs.skip(1)[n - 2] == cs[n - 1]);
        let mid = escaped_upto(cs.skip(1), (n - 2) as nat, braces);
        let last = escaped_char(cs[n - 1], braces);
        assert(e + mid + last =~= e + (mid + last));
    }
}

/// The four digits of a control character.
proof fn lemma_four_hex(c: char)
    requires
        (c as u32) < 0x20,
    ensures
        four_hex(c).len() == 4,
        four_hex(c)[2] == text::hex_digit((c as nat) / 16, false),
        four_hex(c)[3] == text::hex_digit((c as nat) % 16, false),
{
    let n = c as nat;
    if n < 16 {
        assert(text::hex(n, false).len() == 1);
    } else {
        assert(text::hex(n / 16, false).len() == 1);
        assert(text::hex(n, false).len() == 2);
    }
}

/// The second character of the escape of a control character, a backslash or
/// a quote; none of another character.
spec fn tag(c: char) -> Option<char> {
    if c == '\\' {
        Some('\\')
    } else if c == '"' {
        Some('"')
    } else if c == '\n' {
        Some('n')
    } else if c == '\r' {
        Some('r')
    } else if c == '\t' {
        Some('t')
    } else if (c as u32) < 0x20 {
        Some('u')
    } else {
        None
    }
}

/// How an escaped character looks.
proof fn lemma_escaped_shape(c: char, braces: bool)
    ensures
        ({
            let e = escaped_char(c, braces);
            match tag(c) {
                None => e == seq![c] && c != '\\',
                Some(t) => {
                    &&& e.len() == (if t != 'u' {
                        2int
                    } else if braces {
                        8int
                    } else {
                        6int
                    })
                    &&& e[0] == '\\'
                    &&& e[1] == t
                    &&& t == 'u' ==> e[if braces {
                        5int
                    } else {
                        4int
                    }] == text::hex_digit((c as nat) / 16, false) && e[if braces {
                        6int
                    } else {
                        5int
                    }] == text::hex_digit((c as nat) % 16, false)
                },
            }
        }),
{
    reveal_strlit("\\\\");
    reveal_strlit("\\\"");
    reveal_strlit("\\n");
    reveal_strlit("\\r");
    reveal_strlit("\\t");
    reveal_strlit("\\u{");
    reveal_strlit("\\u");
    reveal_strlit("}");
    if tag(c) == Some('u') {
        lemma_four_hex(c);
    }
}

proof fn lemma_hex_digit_tells(a: nat, b: nat)
    requires
        a < 16,
        b < 16,
        text::hex_digit(a, false) == text::hex_digit(b, false),
    ensures
        a == b,
{
}

/// An escaped character can be told from what it begins with.
proof fn lemma_escape_tells(c: char, x: Seq<char>, d: char, y: Seq<char>, braces: bool)
    requires
        escaped_char(c, braces) + x == escaped_char(d, braces) + y,
    ensures
        c == d,
        x == y,
{
    lemma_escaped_shape(c, braces);
    lemma_escaped_shape(d, braces);
    let (e, f) = (escaped_char(c, braces), escaped_char(d, braces));
    let (l, r) = (e + x, f + y);
    assert(l[0] == e[0] && r[0] == f[0]);
    if tag(c) is Some && tag(d) is Some {
        assert(l[1] == e[1] && r[1] == f[1]);
        if tag(c) == Some('u') {
            if braces {
                assert(l[5] == e[5] && r[5] == f[5]);
                assert(l[6] == e[6] && r[6] == f[6]);
            } else {
                assert(l[4] == e[4] && r[4] == f[4]);
                assert(l[5] == e[5] && r[5] == f[5]);
            }
            lemma_hex_digit_tells((c as nat) / 16, (d as nat) / 16);
            lemma_hex_digit_tells((c as nat) % 16, (d as nat) % 16);
        }
    }
    assert(c == d);
    assert(x =~= l.skip(e.len() as int));
    assert(y =~= r.skip(f.len() as int));
}

/// Escaping can be undone: no two strings are escaped alike.
pub proof fn law_escaping_can_be_undone(a: Seq<char>, b: Seq<char>, braces: bool)
    requires
        escaped_upto(a, a.len(), braces) == escaped_upto(b, b.len(), braces),
    ensures
        a == b,
    decreases a.len(),
{
    if a.len() > 0 {
        lemma_escaped_front(a, a.len(), braces);
        lemma_escaped_shape(a[0], braces);
    }
    if b.len() > 0 {
        lemma_escaped_front(b, b.len(), braces);
        lemma_escaped_shape(b[0], braces);
    }
    if a.len() > 0 && b.len() > 0 {
        let x = escaped_upto(a.skip(1), (a.len() - 1) as nat, braces);
        let y = escaped_upto(b.skip(1), (b.len() - 1) as nat, braces);
        lemma_escape_tells(a[0], x, b[0], y, braces);
        law_escaping_can_be_undone(a.skip(1), b.skip(1), braces);
        assert(a =~= seq![a[0]] + a.skip(1));
        assert(b =~= seq![b[0]] + b.skip(1));
    } else {
        if a.len() > 0 {
            assert(escaped_upto(a, a.len(), braces).len() > 0);
            assert(escaped_upto(b, 0, braces).len() == 0);
        }
        if b.len() > 0 {
            assert(escaped_upto(b, b.len(), braces).len() > 0);
            assert(escaped_upto(a, 0, braces).len() == 0);
        }
        assert(a =~= b);
    }
}

/// A double quote stands in the text without a backslash of its own. Read from
/// the front, a backslash takes the character behind it with it.
pub open spec fn has_bare_quote(t: Seq<char>) -> bool
    decreases t.len(),
{
    if t.len() == 0 {
        false
    } else if t[0] == '\\' {
        t.len() > 1 && has_bare_quote(t.skip(2))
    } else {
        t[0] == '"' || has_bare_quote(t.skip(1))
    }
}

/// Characters that are neither quotes nor backslashes add no bare quote.
proof fn lemma_harmless(p: Seq<char>, t: Seq<char>)
    requires
        forall|i: int| 0 <= i < p.len() ==> #[trigger] p[i] != '"' && p[i] != '\\',
    ensures
        has_bare_quote(p + t) == has_bare_quote(t),
    decreases p.len(),
{
    if p.len() == 0 {
        assert(p + t =~= t);
    } else {
        assert((p + t).skip(1) =~= p.skip(1) + t);
        assert((p + t)[0] == p[0]);
        assert forall|i: int| 0 <= i < p.skip(1).len() implies #[trigger] p.skip(1)[i] != '"'
            && p.skip(1)[i] != '\\' by {
            assert(p.skip(1)[i] == p[i + 1]);
        }
        lemma_harmless(p.skip(1), t);
    }
}

/// The digits of a control character are digits.
proof fn lemma_hex_plain(c: char)
    requires
        (c as u32) < 0x20,
    ensures
        forall|i: int|
            0 <= i < four_hex(c).len() ==> {
                let d = #[trigger] four_hex(c)[i];
                d != '"' && d != '\\' && d as u32 >= 0x20
            },
{
    lemma_four_hex(c);
    let n = c as nat;
    let h = text::hex(n, false);
    if n < 16 {
        assert(h.len() == 1);
    } else {
        assert(text::hex(n / 16, false).len() == 1);
        assert(h.len() == 2);
    }
    assert forall|i: int| 0 <= i < four_hex(c).len() implies {
        let d = #[trigger] four_hex(c)[i];
        d != '"' && d != '\\' && d as u32 >= 0x20
    } by {}
}

/// An escaped character is free of control characters, and adds no bare quote.
proof fn lemma_escaped_plain(c: char, braces: bool, t: Seq<char>)
    ensures
        forall|i: int|
            0 <= i < escaped_char(c, braces).len() ==> (#[trigger] escaped_char(c, braces)[i])
                as u32 >= 0x20,
        has_bare_quote(escaped_char(c, braces) + t) == has_bare_quote(t),
{
    reveal_strlit("\\\\");
    reveal_strlit("\\\"");
    reveal_strlit("\\n");
    reveal_strlit("\\r");
    reveal_strlit("\\t");
    reveal_strlit("\\u{");
    reveal_strlit("\\u");
    reveal_strlit("}");
    let e = escaped_char(c, braces);
    lemma_escaped_shape(c, braces);
    match tag(c) {
        None => {
            assert(c != '"');
            lemma_harmless(e, t);
        },
        Some(_) => {
            if tag(c) == Some('u') {
                lemma_four_hex(c);
                lemma_hex_plain(c);
                assert forall|i: int| 0 <= i < e.len() implies (#[trigger] e[i]) as u32
                    >= 0x20 by {
                    let from: int = if braces {
                        3
                    } else {
                        2
                    };
                    if from <= i < from + 4 {
                        assert(e[i] == four_hex(c)[i - from]);
                    }
                }
                let tail = e.skip(2);
                assert forall|i: int| 0 <= i < tail.len() implies #[trigger] tail[i] != '"'
                    && tail[i] != '\\' by {
                    let from: int = if braces {
                        1
                    } else {
                        0
                    };
                    assert(tail[i] == e[i + 2]);
                    if from <= i < from + 4 {
                        assert(tail[i] == four_hex(c)[i - from]);
                    }
                }
                lemma_harmless(tail, t);
                assert((e + t).skip(2) =~= tail + t);
            } else {
                assert((e + t).skip(2) =~= t);
            }
            assert((e + t)[0] == '\\');
        },
    }
}

/// Escaped text can stand between quotes: it has no control character, and
/// every double quote in it stands behind a backslash of its own.
pub proof fn law_escaped_can_be_quoted(cs: Seq<char>, braces: bool)
    ensures
        forall|i: int|
            0 <= i < escaped_upto(cs, cs.len(), braces).len() ==> (#[trigger] escaped_upto(
                cs,
                cs.len(),
                braces,
            )[i]) as u32 >= 0x20,
        !has_bare_quote(escaped_upto(cs, cs.len(), braces)),
    decreases cs.len(),
{
    if cs.len() > 0 {
        let rest = escaped_upto(cs.skip(1), (cs.len() - 1) as nat, braces);
        lemma_escaped_front(cs, cs.len(), braces);
        lemma_escaped_plain(cs[0], braces, rest);
        law_escaped_can_be_quoted(cs.skip(1), braces);
    }
}

/// The two escapes agree on a string whose only control characters are line
/// breaks, carriage returns and tabs.
pub proof fn law_escapes_agree(cs: Seq<char>, n: nat)
    requires
        n <= cs.len(),
        forall|i: int|
            0 <= i < n ==> (#[trigger] cs[i]) as u32 >= 0x20 || cs[i] == '\n' || cs[i] == '\r'
                || cs[i] == '\t',
    ensures
        escaped_upto(cs, n, true) == escaped_upto(cs, n, false),
    decreases n,
{
    if n > 0 {
        law_escapes_agree(cs, (n - 1) as nat);
        assert(escaped_char(cs[n - 1], true) == escaped_char(cs[n - 1], false));
    }
}

/// Escape a string for a literal in which `\u{..}` stands for a codepoint.
pub fn escape_string(s: &str) -> (r: String)
    ensures
        r@ == escaped_upto(s@, s@.len(), true),
{
    escaped(s, true)
}

/// Escape a string for a literal in which `\u` and four digits stand for a
/// codepoint.
pub fn escape_string_bmp(s: &str) -> (r: String)
    ensures
        r@ == escaped_upto(s@, s@.len(), false),
{
    escaped(s, false)
}

} // verus!
