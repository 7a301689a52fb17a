//! What token patterns mean: the set of byte strings that each one matches.
use vstd::prelude::*;

use crate::grammar::ir::{ClassItem, ClassView, PatternView};

verus! {

/// `w` is the UTF-8 encoding of the codepoint `cp`, which the class contains.
pub open spec fn class_match(c: ClassView, cp: u32, w: Seq<u8>) -> bool {
    vstd::utf8::is_scalar(cp) && c.contains(cp) && w == vstd::utf8::encode_scalar(cp)
}

/// `w` is the UTF-8 encoding of some codepoint of the class.
pub open spec fn class_lang(c: ClassView, w: Seq<u8>) -> bool {
    exists|cp: u32| class_match(c, cp, w)
}

/// The byte strings that a negated lookahead forbids: one for each listed
/// codepoint, then one for each literal. A codepoint that is no scalar value
/// stands for U+0000.
pub open spec fn forbidden(c: ClassView, strings: Seq<Seq<char>>) -> Seq<Seq<u8>> {
    Seq::new(
        c.items.len() + strings.len(),
        |i: int|
            if i < c.items.len() {
                forbidden_codepoint(c.items[i])
            } else {
                vstd::utf8::encode_utf8(strings[i - c.items.len()])
            },
    )
}

/// The byte string that one listed codepoint of a negated lookahead forbids.
pub open spec fn forbidden_codepoint(it: ClassItem) -> Seq<u8> {
    match it {
        ClassItem::Char(c) => if vstd::utf8::is_scalar(c) {
            vstd::utf8::encode_scalar(c)
        } else {
            vstd::utf8::encode_scalar(0)
        },
        ClassItem::Range(_, _) => Seq::empty(),
    }
}

/// `p` occurs in `w`, ending just before position `j`.
pub open spec fn ends_at(p: Seq<u8>, w: Seq<u8>, j: int) -> bool {
    p.len() <= j <= w.len() && w.subrange(j - p.len(), j) == p
}

/// Some non-empty forbidden string occurs in `w`, ending just before `j`.
pub open spec fn hit_at(pats: Seq<Seq<u8>>, w: Seq<u8>, j: int) -> bool {
    exists|k: int| 0 <= k < pats.len() && pats[k].len() > 0 && #[trigger] ends_at(pats[k], w, j)
}

/// The empty string, and the beginnings of the forbidden strings.
pub open spec fn beginnings(pats: Seq<Seq<u8>>) -> Set<Seq<u8>> {
    Set::new(|x: Seq<u8>| x.len() == 0 || begins_some(pats, x))
}

/// `x` is the beginning of some forbidden string.
pub open spec fn begins_some(pats: Seq<Seq<u8>>, x: Seq<u8>) -> bool {
    exists|k: int| 0 <= k < pats.len() && x.is_prefix_of(#[trigger] pats[k])
}

/// Of `x` and `p` one begins with the other.
pub open spec fn meets(x: Seq<u8>, p: Seq<u8>) -> bool {
    p.is_prefix_of(x) || x.is_prefix_of(p)
}

/// What a repeated negated lookahead matches where the literal `next` comes
/// after it: at no position of `w` does what is left of it, with `next`, begin
/// with a forbidden string, or is it the beginning of one.
pub open spec fn neg_body(pats: Seq<Seq<u8>>, w: Seq<u8>, next: Seq<u8>) -> bool {
    forall|i: int, k: int|
        #![trigger (w + next).skip(i), pats[k]]
        0 <= i < w.len() && 0 <= k < pats.len() && pats[k].len() > 0 ==> !meets(
            (w + next).skip(i),
            pats[k],
        )
}

/// The bytes of a literal; none of any other pattern.
pub open spec fn lead(p: PatternView) -> Seq<u8> {
    match p {
        PatternView::Literal(s) => vstd::utf8::encode_utf8(s),
        _ => Seq::empty(),
    }
}

/// The bytes of the literal at position `k`; none if there is none.
pub open spec fn lead_at(xs: Seq<PatternView>, k: int) -> Seq<u8> {
    if 0 <= k < xs.len() {
        lead(xs[k])
    } else {
        Seq::empty()
    }
}

/// The byte strings that `p` matches where the literal `next` comes after it.
pub open spec fn item_lang(p: PatternView, next: Seq<u8>, w: Seq<u8>) -> bool
    decreases p, 1nat,
{
    match p {
        PatternView::Star(x) => match *x {
            PatternView::NegLook(c, ss) => neg_body(forbidden(c, ss), w, next),
            _ => lang(p, w),
        },
        PatternView::Plus(x) => match *x {
            PatternView::NegLook(c, ss) => w.len() > 0 && neg_body(forbidden(c, ss), w, next),
            _ => lang(p, w),
        },
        _ => lang(p, w),
    }
}

/// The byte strings that the pattern `p` matches. A reference and a negated
/// lookahead that is not repeated match nothing.
pub open spec fn lang(p: PatternView, w: Seq<u8>) -> bool
    decreases p, 0nat,
{
    match p {
        PatternView::Empty => w.len() == 0,
        PatternView::Literal(s) => w == vstd::utf8::encode_utf8(s),
        PatternView::Class(c) => class_lang(c, w),
        PatternView::Ref(_) => false,
        PatternView::NegLook(_, _) => false,
        PatternView::Concat(xs) => concat_lang(xs, Seq::empty(), w),
        PatternView::Alt(xs) => exists|i: int| 0 <= i < xs.len() && lang(#[trigger] xs[i], w),
        PatternView::Opt(x) => w.len() == 0 || lang(*x, w),
        PatternView::Star(x) => match *x {
            PatternView::NegLook(c, ss) => neg_body(forbidden(c, ss), w, Seq::empty()),
            _ => star_lang(*x, w),
        },
        PatternView::Plus(x) => match *x {
            PatternView::NegLook(c, ss) => w.len() > 0 && neg_body(
                forbidden(c, ss),
                w,
                Seq::empty(),
            ),
            _ => exists|i: int|
                0 <= i <= w.len() && lang(*x, #[trigger] w.take(i)) && star_lang(*x, w.skip(i)),
        },
    }
}

/// `w` is a string of the first patterns of `xs` in order, then one of the
/// last, where the literal `next` comes after them.
pub open spec fn concat_lang(xs: Seq<PatternView>, next: Seq<u8>, w: Seq<u8>) -> bool
    decreases xs, 0nat,
{
    if xs.len() == 0 {
        w.len() == 0
    } else {
        exists|i: int|
            0 <= i <= w.len() && concat_lang(xs.drop_last(), lead(xs.last()), #[trigger] w.take(i))
                && item_lang(xs.last(), next, w.skip(i))
    }
}

/// `w` is a concatenation of any number of strings of `x`. Empty ones add
/// nothing and are left out.
pub open spec fn star_lang(x: PatternView, w: Seq<u8>) -> bool
    decreases x, w.len() + 1,
{
    w.len() == 0 || exists|i: int|
        0 < i <= w.len() && lang(x, #[trigger] w.take(i)) && star_lang(x, w.skip(i))
}

/// The lexer can be built from `p`: no reference is left, and every negated
/// lookahead stands under `*` or `+` and lists no range.
pub open spec fn compilable(p: PatternView) -> bool
    decreases p,
{
    match p {
        PatternView::Ref(_) => false,
        PatternView::NegLook(_, _) => false,
        PatternView::Concat(xs) => forall|i: int|
            0 <= i < xs.len() ==> compilable(#[trigger] xs[i]),
        PatternView::Alt(xs) => forall|i: int| 0 <= i < xs.len() ==> compilable(#[trigger] xs[i]),
        PatternView::Opt(x) => compilable(*x),
        PatternView::Star(x) => repeatable(*x) || compilable(*x),
        PatternView::Plus(x) => repeatable(*x) || compilable(*x),
        _ => true,
    }
}

/// A negated lookahead that lists no range.
pub open spec fn repeatable(p: PatternView) -> bool {
    p matches PatternView::NegLook(c, _) && forall|i: int|
        0 <= i < c.items.len() ==> (#[trigger] c.items[i]) is Char
}

pub proof fn lemma_compilable_parts(xs: Seq<PatternView>)
    ensures
        language_parts_agree(xs),
{
    let p = PatternView::Alt(xs);
    assert(p->Alt_0 == xs);
    let q = PatternView::Concat(xs);
    assert(q->Concat_0 == xs);
}

/// The lexer can be built from an alternation or a sequence of `xs` iff it
/// can be built from each of them.
pub open spec fn language_parts_agree(xs: Seq<PatternView>) -> bool {
    &&& compilable(PatternView::Alt(xs)) <==> forall|i: int|
        0 <= i < xs.len() ==> compilable(#[trigger] xs[i])
    &&& compilable(PatternView::Concat(xs)) <==> forall|i: int|
        0 <= i < xs.len() ==> compilable(#[trigger] xs[i])
}

pub proof fn lemma_alt_lang(xs: Seq<PatternView>, w: Seq<u8>)
    ensures
        lang(PatternView::Alt(xs), w) <==> exists|i: int|
            0 <= i < xs.len() && lang(#[trigger] xs[i], w),
{
    let p = PatternView::Alt(xs);
    assert(p->Alt_0 == xs);
}

pub proof fn lemma_concat_lang(xs: Seq<PatternView>, w: Seq<u8>)
    ensures
        lang(PatternView::Concat(xs), w) == concat_lang(xs, Seq::empty(), w),
{
    let p = PatternView::Concat(xs);
    assert(p->Concat_0 == xs);
}

} // verus!
