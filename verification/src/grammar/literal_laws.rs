//! What escapes stand for, whatever literal they are in.
use vstd::prelude::*;

use crate::codegen::common;
use crate::grammar::literal;
use crate::text;

verus! {

/// A backslash and `c` in single quotes.
pub open spec fn quoted_escape(c: char) -> Seq<char> {
    seq!['\'', '\\', c, '\'']
}

/// The escape `\u{..}` with the given digits in single quotes.
pub open spec fn quoted_unicode(digits: Seq<char>) -> Seq<char> {
    seq!['\'', '\\', 'u', '{'] + digits + seq!['}', '\'']
}

/// The text in double quotes.
pub open spec fn quoted_text(t: Seq<char>) -> Seq<char> {
    seq!['"'] + t + seq!['"']
}

/// The escapes of a character literal are those of Rust: a line feed, a
/// carriage return, a tab and the null character have letters, a backslash and
/// the quotes stand for themselves, and nothing else can stand behind a
/// backslash. Without a backslash a character stands for itself.
pub proof fn law_escapes_stand_for(c: char)
    ensures
        literal::char_literal(quoted_escape('n')) == (0x0Au32, None::<Seq<char>>),
        literal::char_literal(quoted_escape('r')) == (0x0Du32, None::<Seq<char>>),
        literal::char_literal(quoted_escape('t')) == (0x09u32, None::<Seq<char>>),
        literal::char_literal(quoted_escape('0')) == (0x00u32, None::<Seq<char>>),
        literal::char_literal(quoted_escape('\\')) == (0x5Cu32, None::<Seq<char>>),
        literal::char_literal(quoted_escape('\'')) == (0x27u32, None::<Seq<char>>),
        literal::char_literal(quoted_escape('"')) == (0x22u32, None::<Seq<char>>),
        c != 'n' && c != 'r' && c != 't' && c != '0' && c != '\\' && c != '\'' && c != '"'
            ==> literal::char_literal(quoted_escape(c)).1 is Some,
        c != '\\' ==> literal::char_literal(seq!['\'', c, '\'']) == (c as u32, None::<Seq<char>>),
{
    assert forall|d: char| #[trigger] literal::inner(quoted_escape(d)) == seq!['\\', d] by {
        assert(literal::inner(quoted_escape(d)) =~= seq!['\\', d]);
    }
    assert(literal::inner(seq!['\'', c, '\'']) =~= seq![c]);
    assert(literal::inner(quoted_escape('n'))[1] == 'n');
    assert(literal::inner(quoted_escape('r'))[1] == 'r');
    assert(literal::inner(quoted_escape('t'))[1] == 't');
    assert(literal::inner(quoted_escape('0'))[1] == '0');
    assert(literal::inner(quoted_escape('\\'))[1] == '\\');
    assert(literal::inner(quoted_escape('\''))[1] == '\'');
    assert(literal::inner(quoted_escape('"'))[1] == '"');
    assert(literal::inner(quoted_escape(c))[1] == c);
}

/// In a string literal an escape stands for the character that it stands for
/// in a character literal, and is wrong where it is wrong there; what follows
/// it is read as it would be without it. Any other character stands for itself.
pub proof fn law_strings_are_read_piece_by_piece(cs: Seq<char>, i: nat)
    requires
        i < cs.len(),
    ensures
        cs[i as int] != '\\' ==> literal::string_text(cs, i).0 == seq![cs[i as int]]
            + literal::string_text(cs, i + 1).0 && literal::string_text(cs, i).1
            == literal::string_text(cs, i + 1).1,
        cs[i as int] == '\\' && i + 1 < cs.len() && cs[i as int + 1] != 'u' ==> ({
            let (value, issue) = literal::char_literal(quoted_escape(cs[i as int + 1]));
            let (t, l) = literal::string_text(cs, i + 2);
            match issue {
                None => literal::string_text(cs, i).0 == seq![value as char] + t
                    && literal::string_text(cs, i).1 == l,
                Some(m) => literal::string_text(cs, i).0 == t && literal::string_text(cs, i).1
                    == seq![m] + l,
            }
        }),
{
    if i + 1 < cs.len() {
        let c = cs[i as int + 1];
        assert(literal::inner(quoted_escape(c)) =~= seq!['\\', c]);
        assert(literal::inner(quoted_escape(c))[1] == c);
    }
}

/// The number that a hexadecimal digit stands for; at least sixteen if it is
/// none.
pub open spec fn digit_value(c: char) -> int {
    if 0x30 <= c as u32 <= 0x39 {
        c as u32 - 0x30
    } else if 0x41 <= c as u32 <= 0x46 {
        c as u32 - 0x41 + 10
    } else if 0x61 <= c as u32 <= 0x66 {
        c as u32 - 0x61 + 10
    } else {
        16
    }
}

/// All are hexadecimal digits.
pub open spec fn all_digits(ds: Seq<char>) -> bool {
    forall|i: int| 0 <= i < ds.len() ==> digit_value(#[trigger] ds[i]) < 16
}

/// The number that hexadecimal digits stand for.
pub open spec fn number(ds: Seq<char>) -> int
    decreases ds.len(),
{
    if ds.len() == 0 {
        0
    } else {
        16 * number(ds.drop_last()) + digit_value(ds.last())
    }
}

proof fn lemma_digit(c: char)
    ensures
        text::hex_value(c) == (if digit_value(c) < 16 {
            Some(digit_value(c) as u32)
        } else {
            None
        }),
        digit_value(c) < 16 ==> c != '}',
{
}

proof fn lemma_number_small(ds: Seq<char>)
    requires
        all_digits(ds),
        ds.len() <= 6,
    ensures
        0 <= number(ds) < 0x100_0000,
        ds.len() <= 5 ==> number(ds) < 0x10_0000,
        ds.len() <= 4 ==> number(ds) < 0x1_0000,
        ds.len() <= 3 ==> number(ds) < 0x1000,
        ds.len() <= 2 ==> number(ds) < 0x100,
        ds.len() <= 1 ==> number(ds) < 0x10,
        ds.len() == 0 ==> number(ds) == 0,
    decreases ds.len(),
{
    if ds.len() > 0 {
        assert(digit_value(ds[ds.len() - 1]) < 16);
        lemma_number_small(ds.drop_last());
    }
}

/// The first `n` digits have been read.
proof fn lemma_read_digits(cs: Seq<char>, i: nat, ds: Seq<char>, n: nat)
    requires
        n <= ds.len(),
        n <= 6,
        all_digits(ds.take(n as int)),
        i + ds.len() <= cs.len(),
        cs.subrange(i as int, (i + ds.len()) as int) == ds,
    ensures
        number(ds.take(n as int)) >= 0,
        literal::escape_digits(cs, i, 0, 0) == literal::escape_digits(
            cs,
            i + n,
            number(ds.take(n as int)) as nat,
            n,
        ),
    decreases n,
{
    if n == 0 {
        assert(ds.take(0).len() == 0);
    } else {
        let p = ds.take(n - 1);
        let q = ds.take(n as int);
        assert(q.drop_last() =~= p);
        assert forall|j: int| 0 <= j < p.len() implies digit_value(#[trigger] p[j]) < 16 by {
            assert(p[j] == q[j]);
        }
        lemma_read_digits(cs, i, ds, (n - 1) as nat);
        assert(q.last() == ds[n - 1]);
        assert(digit_value(q[n - 1]) < 16);
        assert(cs[i + n - 1] == cs.subrange(i as int, (i + ds.len()) as int)[n - 1]);
        lemma_digit(ds[n - 1]);
        lemma_number_small(p);
        assert(literal::escape_digits(cs, (i + n - 1) as nat, number(p) as nat, (n - 1) as nat)
            == literal::escape_digits(
            cs,
            (i + n) as nat,
            (number(p) as nat) * 16 + digit_value(ds[n - 1]) as nat,
            n,
        ));
    }
}

/// How many characters at the front are digits.
spec fn leading(ds: Seq<char>, n: nat) -> nat
    decreases n,
{
    if n == 0 || n > ds.len() {
        0
    } else if leading(ds, (n - 1) as nat) == n - 1 && digit_value(ds[n - 1]) < 16 {
        n
    } else {
        leading(ds, (n - 1) as nat)
    }
}

proof fn lemma_leading(ds: Seq<char>, n: nat)
    requires
        n <= ds.len(),
    ensures
        leading(ds, n) <= n,
        all_digits(ds.take(leading(ds, n) as int)),
        leading(ds, n) < n ==> digit_value(ds[leading(ds, n) as int]) >= 16,
    decreases n,
{
    if n > 0 {
        lemma_leading(ds, (n - 1) as nat);
        if leading(ds, n) == n {
            assert(ds.take(n as int).drop_last() =~= ds.take(n - 1));
            assert forall|j: int| 0 <= j < n implies digit_value(
                #[trigger] ds.take(n as int)[j],
            ) < 16 by {
                if j < n - 1 {
                    assert(ds.take(n - 1)[j] == ds.take(n as int)[j]);
                }
            }
        }
    }
}

/// A `\u{..}` escape stands for the codepoint that its digits give. It is right
/// with one to six hexadecimal digits, if there is such a character, and wrong
/// otherwise.
pub proof fn law_unicode_escapes_are_hexadecimal(ds: Seq<char>)
    requires
        forall|i: int| 0 <= i < ds.len() ==> #[trigger] ds[i] != '}',
    ensures
        ({
            let (value, issue) = literal::char_literal(quoted_unicode(ds));
            &&& issue is None <==> 1 <= ds.len() <= 6 && all_digits(ds)
                && vstd::utf8::is_scalar(number(ds) as u32)
            &&& issue is None ==> value == number(ds)
            &&& issue is Some ==> value == 0
        }),
{
    let lit = quoted_unicode(ds);
    let cs = literal::inner(lit);
    assert(cs =~= seq!['\\', 'u', '{'] + ds + seq!['}']);
    assert(cs[0] == '\\' && cs[1] == 'u' && cs[2] == '{');
    assert(cs.subrange(3, (3 + ds.len()) as int) =~= ds);
    let end = 3 + ds.len();
    assert(cs[end as int] == '}');
    let n = leading(ds, ds.len());
    lemma_leading(ds, ds.len());
    if n < ds.len() {
        assert(!all_digits(ds));
    } else {
        assert(ds.take(n as int) =~= ds);
    }
    let m: nat = if n <= 6 {
        n
    } else {
        6
    };
    assert(all_digits(ds.take(m as int))) by {
        assert forall|j: int| 0 <= j < m implies digit_value(#[trigger] ds.take(m as int)[j])
            < 16 by {
            assert(ds.take(m as int)[j] == ds.take(n as int)[j]);
        }
    }
    lemma_read_digits(cs, 3, ds, m);
    lemma_number_small(ds.take(m as int));
    let e = literal::escape_digits(cs, 3 + m, number(ds.take(m as int)) as nat, m);
    assert(literal::unicode_escape(cs, 2) == e);
    if m < ds.len() {
        assert(cs[3 + m as int] == ds[m as int]);
        lemma_digit(ds[m as int]);
        assert(e.issue is Some);
    } else {
        assert(ds.take(m as int) =~= ds);
        assert(cs[3 + m as int] == '}');
    }
}

/// A number written in hexadecimal is read back, and has no needless zero.
pub proof fn law_hexadecimal_is_positional(n: nat, capital: bool)
    ensures
        all_digits(text::hex(n, capital)),
        number(text::hex(n, capital)) == n,
        text::hex(n, capital).len() > 0,
        text::hex(n, capital)[0] == '0' ==> n == 0,
        n < 0x100_0000 ==> text::hex(n, capital).len() <= 6,
    decreases n,
{
    let h = text::hex(n, capital);
    if n < 16 {
        reveal_with_fuel(number, 2);
        assert(h =~= seq![text::hex_digit(n, capital)]);
        assert(h.drop_last().len() == 0);
        assert(digit_value(h[0]) == n);
    } else {
        let p = text::hex(n / 16, capital);
        law_hexadecimal_is_positional(n / 16, capital);
        assert(h.drop_last() =~= p);
        assert(digit_value(h.last()) == n % 16);
        assert forall|i: int| 0 <= i < h.len() implies digit_value(#[trigger] h[i]) < 16 by {
            if i < p.len() {
                assert(h[i] == p[i]);
            }
        }
        assert(h[0] == p[0]);
        lemma_hex_len(n, capital);
    }
}

proof fn lemma_hex_len(n: nat, capital: bool)
    ensures
        n < 0x100_0000 ==> text::hex(n, capital).len() <= 6,
        n < 0x10_0000 ==> text::hex(n, capital).len() <= 5,
        n < 0x1_0000 ==> text::hex(n, capital).len() <= 4,
        n < 0x1000 ==> text::hex(n, capital).len() <= 3,
        n < 0x100 ==> text::hex(n, capital).len() <= 2,
        n < 0x10 ==> text::hex(n, capital).len() <= 1,
    decreases n,
{
    if n >= 16 {
        lemma_hex_len(n / 16, capital);
    }
}

proof fn lemma_zeros(n: nat, h: Seq<char>)
    requires
        all_digits(h),
    ensures
        all_digits(Seq::new(n, |i: int| '0') + h),
        number(Seq::new(n, |i: int| '0') + h) == number(h),
    decreases h.len(), n,
{
    let z = Seq::new(n, |i: int| '0');
    let all = z + h;
    assert forall|i: int| 0 <= i < all.len() implies digit_value(#[trigger] all[i]) < 16 by {
        if i >= n {
            assert(all[i] == h[i - n]);
        }
    }
    if h.len() > 0 {
        let p = h.drop_last();
        assert forall|i: int| 0 <= i < p.len() implies digit_value(#[trigger] p[i]) < 16 by {
            assert(p[i] == h[i]);
        }
        lemma_zeros(n, p);
        assert(all.drop_last() =~= z + p);
        assert(all.last() == h.last());
    } else if n > 0 {
        let y = Seq::new((n - 1) as nat, |i: int| '0');
        lemma_zeros((n - 1) as nat, h);
        assert(all.drop_last() =~= y + h);
        assert(all.last() == '0');
    }
}

/// One escaped character is read back.
proof fn lemma_char_read_back(t: Seq<char>, i: nat, c: char, rest: Seq<char>)
    requires
        i <= t.len(),
        t.skip(i as int) == common::escaped_char(c, true) + rest,
    ensures
        ({
            let n = i + common::escaped_char(c, true).len();
            &&& n <= t.len()
            &&& n > i
            &&& t.skip(n as int) == rest
            &&& literal::string_text(t, i).0 == seq![c] + literal::string_text(t, n).0
            &&& literal::string_text(t, i).1 == literal::string_text(t, n).1
        }),
{
    reveal_strlit("\\\\");
    reveal_strlit("\\\"");
    reveal_strlit("\\n");
    reveal_strlit("\\r");
    reveal_strlit("\\t");
    reveal_strlit("\\u{");
    reveal_strlit("}");
    let e = common::escaped_char(c, true);
    let n = i + e.len();
    let at = t.skip(i as int);
    assert(at.len() == e.len() + rest.len());
    assert(t.skip(n as int) =~= rest) by {
        assert forall|j: int| 0 <= j < rest.len() implies t.skip(n as int)[j] == rest[j] by {
            assert(at[e.len() + j] == rest[j]);
        }
    }
    assert forall|j: int| 0 <= j < e.len() implies t[i + j] == #[trigger] e[j] by {
        assert(at[j] == e[j]);
    }
    assert(t[i as int] == e[0]);
    if e.len() > 1 {
        assert(t[i as int + 1] == e[1]);
    }
    let control = (c as u32) < 0x20 && c != '\n' && c != '\r' && c != '\t';
    if control {
        let h = text::hex(c as nat, false);
        let ds = common::four_hex(c);
        lemma_hex_len(c as nat, false);
        law_hexadecimal_is_positional(c as nat, false);
        lemma_zeros((4 - h.len()) as nat, h);
        assert(ds.len() == 4);
        assert(e =~= seq!['\\', 'u', '{'] + ds + seq!['}']);
        assert(t[i as int + 2] == e[2] && t[i as int + 7] == e[7]);
        assert(t.subrange(i as int + 3, i as int + 7) =~= ds) by {
            assert forall|j: int| 0 <= j < 4 implies t.subrange(i as int + 3, i as int + 7)[j] == ds[j] by {
                assert(e[j + 3] == ds[j]);
            }
        }
        assert(ds.take(4) =~= ds);
        lemma_read_digits(t, i + 3, ds, 4);
        vstd::utf8::char_is_scalar(c);
    }
}

/// What [`common::escape_string`] writes is read as the string that was
/// escaped, and nothing is wrong with it.
pub proof fn law_escaped_strings_are_read_back(s: Seq<char>)
    ensures
        literal::string_literal(quoted_text(common::escaped_upto(s, s.len(), true))) == (
            s,
            Seq::<Seq<char>>::empty(),
        ),
{
    let t = common::escaped_upto(s, s.len(), true);
    assert(literal::inner(quoted_text(t)) =~= t);
    assert(t.skip(0) =~= t);
    lemma_read_back(t, 0, s);
}

proof fn lemma_read_back(t: Seq<char>, i: nat, s: Seq<char>)
    requires
        i <= t.len(),
        t.skip(i as int) == common::escaped_upto(s, s.len(), true),
    ensures
        literal::string_text(t, i) == (s, Seq::<Seq<char>>::empty()),
    decreases s.len(),
{
    if s.len() == 0 {
        assert(t.skip(i as int).len() == 0);
        assert(s =~= Seq::<char>::empty());
    } else {
        let rest = common::escaped_upto(s.skip(1), (s.len() - 1) as nat, true);
        common::lemma_escaped_front(s, s.len(), true);
        lemma_char_read_back(t, i, s[0], rest);
        let n = i + common::escaped_char(s[0], true).len();
        lemma_read_back(t, n, s.skip(1));
        assert(seq![s[0]] + s.skip(1) =~= s);
    }
}

} // verus!
