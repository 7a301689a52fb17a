//! What lines and columns count.
use vstd::prelude::*;

use crate::runtime::lexer;

verus! {

/// The bytes behind the first are parts of the character.
proof fn lemma_encoding(c: char)
    ensures
        ({
            let e = vstd::utf8::encode_scalar(c as u32);
            &&& 1 <= e.len() <= 4
            &&& !(0x80 <= e[0] < 0xC0)
            &&& e[0] == 0x0A <==> c == '\n'
            &&& forall|i: int| 0 < i < e.len() ==> 0x80 <= #[trigger] e[i] < 0xC0
        }),
{
    let v = c as u32;
    vstd::utf8::char_is_scalar(c);
    assert(v <= 0x7F ==> ((v & 0x7F) as u8) < 0x80 && (((v & 0x7F) as u8) == 0x0A <==> v == 0x0A))
        by (bit_vector);
    assert(0xC0 <= (0xC0u8 | ((v >> 6) & 0x1F) as u8)) by (bit_vector);
    assert(0xE0 <= (0xE0u8 | ((v >> 12) & 0x0F) as u8)) by (bit_vector);
    assert(0xF0 <= (0xF0u8 | ((v >> 18) & 0x7) as u8)) by (bit_vector);
    assert(0x80 <= (0x80u8 | (v & 0x3F) as u8) < 0xC0) by (bit_vector);
    assert(0x80 <= (0x80u8 | ((v >> 6) & 0x3F) as u8) < 0xC0) by (bit_vector);
    assert(0x80 <= (0x80u8 | ((v >> 12) & 0x3F) as u8) < 0xC0) by (bit_vector);
    let e = vstd::utf8::encode_scalar(v);
    assert(e.len() > 1 ==> e[0] >= 0xC0);
    assert(c == '\n' <==> v == 0x0A);
}

/// Bytes that continue a character move nothing.
proof fn lemma_rest_stays(a: Seq<u8>, e: Seq<u8>, n: int)
    requires
        1 <= n <= e.len(),
        forall|i: int| 0 < i < e.len() ==> 0x80 <= #[trigger] e[i] < 0xC0,
    ensures
        lexer::place(a + e.take(n)) == lexer::place(a.push(e[0])),
    decreases n,
{
    if n == 1 {
        assert(a + e.take(1) =~= a.push(e[0]));
    } else {
        lemma_rest_stays(a, e, n - 1);
        let b = a + e.take(n);
        assert(b.drop_last() =~= a + e.take(n - 1));
        assert(b.last() == e[n - 1]);
    }
}

/// The text begins on line 1 in column 1. A line break goes to the beginning of
/// the next line, and every other character one column on, however many bytes it
/// takes.
pub proof fn law_columns_count_characters(a: Seq<u8>, c: char)
    ensures
        lexer::place(Seq::empty()) == (1nat, 1nat),
        c == '\n' ==> lexer::place(a + vstd::utf8::encode_scalar(c as u32)) == (
            lexer::place(a).0 + 1,
            1nat,
        ),
        c != '\n' ==> lexer::place(a + vstd::utf8::encode_scalar(c as u32)) == (
            lexer::place(a).0,
            lexer::place(a).1 + 1,
        ),
{
    let e = vstd::utf8::encode_scalar(c as u32);
    lemma_encoding(c);
    lemma_rest_stays(a, e, e.len() as int);
    assert(e.take(e.len() as int) =~= e);
    assert(a.push(e[0]).drop_last() =~= a);
    assert(a.push(e[0]).last() == e[0]);
}

} // verus!
