//! Building text.
use vstd::prelude::*;

use crate::names::{self, Rank};

verus! {

/// `String::push` appends the character.
pub assume_specification[ String::push ](s: &mut String, c: char)
    ensures
        final(s)@ == old(s)@.push(c),
;

/// `char::from_u32` gives the character of a Unicode scalar value, and nothing
/// for another number.
pub assume_specification[ char::from_u32 ](i: u32) -> (r: Option<char>)
    ensures
        r is Some <==> vstd::utf8::is_scalar(i),
        r matches Some(c) ==> c as u32 == i,
;

/// The text that the `Debug` formatting of a string gives: the string in
/// double quotes, with escapes.
pub uninterp spec fn debug_text(s: Seq<char>) -> Seq<char>;

/// `format!("{:?}", ..)` of a string: what [`debug_text`] names. Which
/// characters are escaped, and how, is not stated.
#[verifier::external_body]
pub(crate) fn debug_str(s: &str) -> (r: String)
    ensures
        r@ == debug_text(s@),
{
    format!("{:?}", s)
}

/// The character for a decimal digit.
pub open spec fn digit(d: nat) -> char {
    if d == 0 {
        '0'
    } else if d == 1 {
        '1'
    } else if d == 2 {
        '2'
    } else if d == 3 {
        '3'
    } else if d == 4 {
        '4'
    } else if d == 5 {
        '5'
    } else if d == 6 {
        '6'
    } else if d == 7 {
        '7'
    } else if d == 8 {
        '8'
    } else {
        '9'
    }
}

/// The number in decimal, without leading zeros.
pub open spec fn decimal(n: nat) -> Seq<char>
    decreases n,
{
    if n < 10 {
        seq![digit(n)]
    } else {
        decimal(n / 10).push(digit(n % 10))
    }
}

fn digit_char(d: u128) -> (c: char)
    requires
        d < 10,
    ensures
        c == digit(d as nat),
{
    if d == 0 {
        '0'
    } else if d == 1 {
        '1'
    } else if d == 2 {
        '2'
    } else if d == 3 {
        '3'
    } else if d == 4 {
        '4'
    } else if d == 5 {
        '5'
    } else if d == 6 {
        '6'
    } else if d == 7 {
        '7'
    } else if d == 8 {
        '8'
    } else {
        '9'
    }
}

/// Appends the number in decimal.
pub fn push_decimal(s: &mut String, n: u128)
    ensures
        final(s)@ == old(s)@ + decimal(n as nat),
    decreases n,
{
    if n < 10 {
        s.push(digit_char(n));
        assert(s@ =~= old(s)@ + decimal(n as nat));
    } else {
        push_decimal(s, n / 10);
        s.push(digit_char(n % 10));
        assert(s@ =~= old(s)@ + decimal(n as nat));
    }
}

/// The character for a hexadecimal digit.
pub open spec fn hex_digit(d: nat, capital: bool) -> char {
    if d < 10 {
        digit(d)
    } else if capital {
        (0x41 + d - 10) as char
    } else {
        (0x61 + d - 10) as char
    }
}

/// The number in hexadecimal, without leading zeros.
pub open spec fn hex(n: nat, capital: bool) -> Seq<char>
    decreases n,
{
    if n < 16 {
        seq![hex_digit(n, capital)]
    } else {
        hex(n / 16, capital).push(hex_digit(n % 16, capital))
    }
}

fn hex_char(d: u32, capital: bool) -> (c: char)
    requires
        d < 16,
    ensures
        c == hex_digit(d as nat, capital),
{
    if d < 10 {
        digit_char(d as u128)
    } else if capital {
        (0x41 + (d as u8) - 10) as char
    } else {
        (0x61 + (d as u8) - 10) as char
    }
}

/// Appends the number in hexadecimal.
pub fn push_hex(s: &mut String, n: u32, capital: bool)
    ensures
        final(s)@ == old(s)@ + hex(n as nat, capital),
    decreases n,
{
    if n < 16 {
        s.push(hex_char(n, capital));
        assert(s@ =~= old(s)@ + hex(n as nat, capital));
    } else {
        push_hex(s, n / 16, capital);
        s.push(hex_char(n % 16, capital));
        assert(s@ =~= old(s)@ + hex(n as nat, capital));
    }
}

/// The number that a hexadecimal digit stands for.
pub open spec fn hex_value(c: char) -> Option<u32> {
    if '0' <= c <= '9' {
        Some((c as u32 - 0x30) as u32)
    } else if 'a' <= c <= 'f' {
        Some((c as u32 - 0x61 + 10) as u32)
    } else if 'A' <= c <= 'F' {
        Some((c as u32 - 0x41 + 10) as u32)
    } else {
        None
    }
}

/// The number that a hexadecimal digit stands for.
pub fn from_hex(c: char) -> (r: Option<u32>)
    ensures
        r == hex_value(c),
{
    if '0' <= c && c <= '9' {
        Some(c as u32 - 0x30)
    } else if 'a' <= c && c <= 'f' {
        Some(c as u32 - 0x61 + 10)
    } else if 'A' <= c && c <= 'F' {
        Some(c as u32 - 0x41 + 10)
    } else {
        None
    }
}

/// The character, with the letters a to z taken as capitals.
pub open spec fn upper(c: char) -> char {
    if 'a' <= c <= 'z' {
        (c as u32 - 32) as char
    } else {
        c
    }
}

/// The character, with the letters a to z taken as capitals.
pub fn to_upper(c: char) -> (r: char)
    ensures
        r == upper(c),
{
    if 'a' <= c && c <= 'z' {
        ((c as u8) - 32) as char
    } else {
        c
    }
}

/// The texts with `sep` between each two.
pub open spec fn joined(parts: Seq<Seq<char>>, sep: Seq<char>) -> Seq<char>
    decreases parts.len(),
{
    if parts.len() == 0 {
        Seq::empty()
    } else if parts.len() == 1 {
        parts[0]
    } else {
        joined(parts.drop_last(), sep) + sep + parts.last()
    }
}

/// The texts with `sep` between each two.
pub fn join(parts: &Vec<String>, sep: &str) -> (r: String)
    ensures
        r@ == joined(names::list_view(parts@), sep@),
{
    let ghost views = names::list_view(parts@);
    let mut r = String::new();
    let mut i: usize = 0;
    assert(views.take(0) =~= Seq::<Seq<char>>::empty());
    while i < parts.len()
        invariant
            i <= parts@.len(),
            views == names::list_view(parts@),
            r@ == joined(views.take(i as int), sep@),
        decreases parts@.len() - i,
    {
        if i > 0 {
            r.append(sep);
        }
        r.append(parts[i].as_str());
        proof {
            let next = views.take(i + 1);
            assert(next.drop_last() =~= views.take(i as int));
            assert(next.last() == parts@[i as int]@);
            if i == 0 {
                assert(r@ =~= next[0]);
            }
        }
        i += 1;
    }
    assert(views.take(i as int) =~= views);
    r
}

/// The characters of a text.
pub fn chars(s: &str) -> (r: Vec<char>)
    ensures
        r@ == s@,
{
    let mut r: Vec<char> = Vec::new();
    for c in it: s.chars()
        invariant
            it.seq() == s@,
            r@ == s@.take(it.index()),
    {
        r.push(c);
    }
    assert(s@.take(s@.len() as int) =~= s@);
    r
}

/// True iff the text has no characters.
pub fn is_empty(s: &str) -> (r: bool)
    ensures
        r == (s@.len() == 0),
{
    proof {
        reveal_strlit("");
        if s@.len() == 0 {
            assert(s@ =~= ""@);
        }
    }
    names::rank_str(s, "") == Rank::Same
}

/// As many blanks.
pub open spec fn blanks(n: nat) -> Seq<char> {
    Seq::new(n, |i: int| ' ')
}

/// Appends as many blanks.
pub fn push_blanks(s: &mut String, n: usize)
    ensures
        final(s)@ == old(s)@ + blanks(n as nat),
{
    let ghost before = s@;
    let mut i: usize = 0;
    assert(s@ =~= before + blanks(0));
    while i < n
        invariant
            i <= n,
            s@ == before + blanks(i as nat),
        decreases n - i,
    {
        s.push(' ');
        assert(s@ =~= before + blanks((i + 1) as nat));
        i += 1;
    }
}

/// How many blanks bring a text to the width.
pub open spec fn gap(s: Seq<char>, width: nat) -> nat {
    if s.len() < width {
        (width - s.len()) as nat
    } else {
        0
    }
}

/// The text with blanks behind it up to the width.
pub open spec fn padded_right(s: Seq<char>, width: nat) -> Seq<char> {
    s + blanks(gap(s, width))
}

/// The text with blanks in front of it up to the width.
pub open spec fn padded_left(s: Seq<char>, width: nat) -> Seq<char> {
    blanks(gap(s, width)) + s
}

/// The number in decimal.
pub fn decimal_text(n: u128) -> (r: String)
    ensures
        r@ == decimal(n as nat),
{
    let mut r = String::new();
    push_decimal(&mut r, n);
    assert(r@ =~= decimal(n as nat));
    r
}

/// The number of characters.
pub fn length(s: &str) -> (n: usize)
    ensures
        n == s@.len(),
{
    chars(s).len()
}

/// The text with blanks behind it up to the width.
pub fn pad_right(s: &str, width: usize) -> (r: String)
    ensures
        r@ == padded_right(s@, width as nat),
{
    let n = length(s);
    let mut r = s.to_owned();
    if n < width {
        push_blanks(&mut r, width - n);
    } else {
        assert(r@ =~= padded_right(s@, width as nat));
    }
    r
}

/// The text with blanks in front of it up to the width.
pub fn pad_left(s: &str, width: usize) -> (r: String)
    ensures
        r@ == padded_left(s@, width as nat),
{
    let n = length(s);
    let mut r = String::new();
    if n < width {
        push_blanks(&mut r, width - n);
    }
    assert(r@ =~= blanks(gap(s@, width as nat)));
    r.append(s);
    r
}

/// The three texts in a row.
pub fn concat3(a: &str, b: &str, c: &str) -> (r: String)
    ensures
        r@ == a@ + b@ + c@,
{
    let mut r = a.to_owned();
    r.append(b);
    r.append(c);
    r
}

} // verus!
