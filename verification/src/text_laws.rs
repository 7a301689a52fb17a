//! What the texts of numbers and lists mean.
use vstd::prelude::*;

use crate::text;

verus! {

/// The number that a text of digits stands for, each digit worth ten times the
/// one behind it.
pub open spec fn decimal_value(cs: Seq<char>) -> int
    decreases cs.len(),
{
    if cs.len() == 0 {
        0
    } else {
        10 * decimal_value(cs.drop_last()) + (cs.last() as u32 - '0' as u32)
    }
}

/// A number in decimal stands for itself: it is made of digits, does not begin
/// with a zero unless it is zero, and has the number's value.
pub proof fn law_decimals_are_read_back(n: nat)
    ensures
        text::decimal(n).len() > 0,
        forall|i: int| 0 <= i < text::decimal(n).len() ==> '0' <= #[trigger] text::decimal(n)[i] <= '9',
        text::decimal(n)[0] == '0' ==> n == 0,
        decimal_value(text::decimal(n)) == n,
    decreases n,
{
    let l = text::decimal(n);
    reveal_with_fuel(decimal_value, 2);
    if n < 10 {
        assert(l.drop_last() =~= Seq::<char>::empty());
        assert(l.last() == text::digit(n));
    } else {
        let m = n / 10;
        law_decimals_are_read_back(m);
        assert(l.drop_last() =~= text::decimal(m));
        assert(l.last() == text::digit(n % 10));
        assert(l[0] == text::decimal(m)[0]);
        assert forall|i: int| 0 <= i < l.len() implies '0' <= #[trigger] l[i] <= '9' by {
            if i < l.len() - 1 {
                assert(l[i] == text::decimal(m)[i]);
            }
        }
    }
}

/// The number that a text of hexadecimal digits stands for, each digit worth
/// sixteen times the one behind it.
pub open spec fn hex_text_value(cs: Seq<char>) -> int
    decreases cs.len(),
{
    if cs.len() == 0 {
        0
    } else {
        let c = cs.last() as u32;
        16 * hex_text_value(cs.drop_last()) + if c < 'A' as u32 {
            c - '0' as u32
        } else if c < 'a' as u32 {
            c - 'A' as u32 + 10
        } else {
            c - 'a' as u32 + 10
        }
    }
}

/// The character is a hexadecimal digit of the case.
pub open spec fn is_hex(c: char, capital: bool) -> bool {
    ||| '0' <= c <= '9'
    ||| capital && 'A' <= c <= 'F'
    ||| !capital && 'a' <= c <= 'f'
}

/// A number in hexadecimal stands for itself: it is made of digits of the case,
/// does not begin with a zero unless it is zero, and has the number's value.
pub proof fn law_hexadecimals_are_read_back(n: nat, capital: bool)
    ensures
        text::hex(n, capital).len() > 0,
        forall|i: int|
            0 <= i < text::hex(n, capital).len() ==> is_hex(
                #[trigger] text::hex(n, capital)[i],
                capital,
            ),
        text::hex(n, capital)[0] == '0' ==> n == 0,
        hex_text_value(text::hex(n, capital)) == n,
    decreases n,
{
    let l = text::hex(n, capital);
    reveal_with_fuel(hex_text_value, 2);
    if n < 16 {
        assert(l.drop_last() =~= Seq::<char>::empty());
        assert(l.last() == text::hex_digit(n, capital));
    } else {
        let m = n / 16;
        law_hexadecimals_are_read_back(m, capital);
        assert(l.drop_last() =~= text::hex(m, capital));
        assert(l.last() == text::hex_digit(n % 16, capital));
        assert(l[0] == text::hex(m, capital)[0]);
        assert forall|i: int| 0 <= i < l.len() implies is_hex(#[trigger] l[i], capital) by {
            if i < l.len() - 1 {
                assert(l[i] == text::hex(m, capital)[i]);
            }
        }
    }
}

/// Two lists joined are the list of both joined, with the separator between
/// them; one text joined is itself.
pub proof fn law_lists_are_joined_in_order(
    a: Seq<Seq<char>>,
    b: Seq<Seq<char>>,
    sep: Seq<char>,
)
    ensures
        a.len() > 0 && b.len() > 0 ==> text::joined(a + b, sep) == text::joined(a, sep) + sep
            + text::joined(b, sep),
        a.len() == 1 ==> text::joined(a, sep) == a[0],
        a.len() == 0 ==> text::joined(a, sep).len() == 0,
    decreases b.len(),
{
    if a.len() > 0 && b.len() > 0 {
        let l = a + b;
        assert(l.last() == b.last());
        assert(l.drop_last() =~= a + b.drop_last());
        if b.len() == 1 {
            assert(a + b.drop_last() =~= a);
            assert(b.last() == b[0]);
        } else {
            law_lists_are_joined_in_order(a, b.drop_last(), sep);
            assert(text::joined(a, sep) + sep + text::joined(b.drop_last(), sep) + sep + b.last()
                =~= text::joined(a, sep) + sep + (text::joined(b.drop_last(), sep) + sep
                + b.last()));
        }
    }
}

/// A text that is filled up has the width, unless it was wider, and is the text
/// with blanks on one side.
pub proof fn law_padding_fills_the_width(s: Seq<char>, width: nat)
    ensures
        ({
            let r = text::padded_right(s, width);
            &&& r.len() == if s.len() < width {
                width
            } else {
                s.len()
            }
            &&& r.take(s.len() as int) == s
            &&& forall|i: int| s.len() <= i < r.len() ==> #[trigger] r[i] == ' '
        }),
        ({
            let l = text::padded_left(s, width);
            &&& l.len() == if s.len() < width {
                width
            } else {
                s.len()
            }
            &&& l.skip(l.len() - s.len()) == s
            &&& forall|i: int| 0 <= i < l.len() - s.len() ==> #[trigger] l[i] == ' '
        }),
{
    let r = text::padded_right(s, width);
    let l = text::padded_left(s, width);
    assert(r.take(s.len() as int) =~= s);
    assert(l.skip(l.len() - s.len()) =~= s);
}

/// A small letter a to z becomes the capital at its place in the alphabet, and
/// every other character stays.
pub proof fn law_capitals_keep_their_place(c: char)
    ensures
        'a' <= c <= 'z' ==> 'A' <= text::upper(c) <= 'Z' && text::upper(c) as u32 - 'A' as u32
            == c as u32 - 'a' as u32,
        !('a' <= c <= 'z') ==> text::upper(c) == c,
{
}

} // verus!
