//! Detects literal tokens that are unreachable because an earlier-declared
//! token's pattern also accepts them.
//!
//! The lexer breaks accept-length ties by smallest token id, which is
//! declaration order. So a token like `IF = "if";` declared *after* an
//! `IDENT = [a-z]+;` would silently never fire: the lexer would always pick
//! `IDENT`.
use vstd::prelude::*;

use crate::diagnostic::{self, Diagnostic, DiagnosticView};
use crate::grammar::ir::{self, Grammar, PatternView, TokenDef, TokenPattern, TokenView};
use crate::grammar::resolve;
use crate::lowering::aho_corasick;
use crate::lowering::language;
use crate::lowering::lexer_dfa;
use crate::lowering::nfa;
use crate::lowering::table::TokenInfo;
use crate::lowering::utf8_ranges;
use crate::names;
use crate::text;

verus! {

/// The pattern matches the bytes from `start` up to `end`.
spec fn spans(p: PatternView, s: Seq<u8>, start: int, end: int) -> bool {
    start <= end <= s.len() && language::lang(p, s.subrange(start, end))
}

/// From some marked position the bytes up to `end` are a repetition of `p`.
spec fn repeats_to(p: PatternView, s: Seq<u8>, marks: Seq<bool>, end: int) -> bool {
    exists|a: int|
        0 <= a <= end && a < marks.len() && #[trigger] marks[a] && end <= s.len()
            && language::star_lang(p, s.subrange(a, end))
}

/// A repetition followed by one more match is a repetition.
proof fn lemma_star_snoc(p: PatternView, u: Seq<u8>, v: Seq<u8>)
    requires
        language::star_lang(p, u),
        language::lang(p, v),
    ensures
        language::star_lang(p, u + v),
    decreases u.len(),
{
    let w = u + v;
    if u.len() == 0 {
        assert(w =~= v);
        if v.len() > 0 {
            assert(v.take(v.len() as int) =~= v);
            assert(v.skip(v.len() as int).len() == 0);
            assert(language::lang(p, w.take(w.len() as int)));
            assert(language::star_lang(p, w.skip(w.len() as int)));
        }
    } else {
        let i = choose|i: int|
            0 < i <= u.len() && language::lang(p, #[trigger] u.take(i)) && language::star_lang(
                p,
                u.skip(i),
            );
        lemma_star_snoc(p, u.skip(i), v);
        assert(w.take(i) =~= u.take(i));
        assert(w.skip(i) =~= u.skip(i) + v);
        assert(language::lang(p, w.take(i)) && language::star_lang(p, w.skip(i)));
    }
}

/// What is marked is closed under matching `p` once more.
spec fn marks_closed(p: PatternView, s: Seq<u8>, marks: Seq<bool>, upto: int) -> bool {
    forall|q: int, e: int|
        0 <= q < upto && q < marks.len() && #[trigger] marks[q] && #[trigger] spans(p, s, q, e)
            ==> marks[e]
}

/// In closed marks, every repetition from a marked position ends marked.
proof fn lemma_closed_repeats(p: PatternView, s: Seq<u8>, marks: Seq<bool>, a: int, e: int)
    requires
        marks.len() == s.len() + 1,
        marks_closed(p, s, marks, s.len() as int + 1),
        0 <= a <= e <= s.len(),
        marks[a],
        language::star_lang(p, s.subrange(a, e)),
    ensures
        marks[e],
    decreases e - a,
{
    let w = s.subrange(a, e);
    if w.len() > 0 {
        let i = choose|i: int|
            0 < i <= w.len() && language::lang(p, #[trigger] w.take(i)) && language::star_lang(
                p,
                w.skip(i),
            );
        assert(w.take(i) =~= s.subrange(a, a + i));
        assert(w.skip(i) =~= s.subrange(a + i, e));
        assert(spans(p, s, a, a + i));
        lemma_closed_repeats(p, s, marks, a + i, e);
    }
}

/// Marks that say `false` everywhere.
fn no_marks(n: usize) -> (r: Vec<bool>)
    ensures
        r@.len() == n,
        forall|i: int| 0 <= i < n ==> !#[trigger] r@[i],
{
    let mut r: Vec<bool> = Vec::new();
    while r.len() < n
        invariant
            r@.len() <= n,
            forall|i: int| 0 <= i < r@.len() ==> !#[trigger] r@[i],
        decreases n - r@.len(),
    {
        r.push(false);
    }
    r
}

/// Adds the marks of `more` to `out`.
fn merge(out: &mut Vec<bool>, more: &Vec<bool>)
    requires
        old(out)@.len() == more@.len(),
    ensures
        final(out)@.len() == old(out)@.len(),
        forall|i: int|
            0 <= i < more@.len() ==> #[trigger] final(out)@[i] == (old(out)@[i] || more@[i]),
{
    let mut i: usize = 0;
    while i < more.len()
        invariant
            i <= more@.len(),
            out@.len() == more@.len(),
            old(out)@.len() == more@.len(),
            forall|j: int| 0 <= j < i ==> #[trigger] out@[j] == (old(out)@[j] || more@[j]),
            forall|j: int| i <= j < more@.len() ==> #[trigger] out@[j] == old(out)@[j],
        decreases more@.len() - i,
    {
        if more[i] {
            out.set(i, true);
        }
        i += 1;
    }
}

/// True iff the bytes from `start` on begin with `lit`.
fn begins_at(s: &Vec<u8>, start: usize, lit: &[u8]) -> (r: bool)
    requires
        start <= s@.len(),
    ensures
        r == (start + lit@.len() <= s@.len() && s@.subrange(start as int, start + lit@.len())
            == lit@),
{
    if lit.len() > s.len() - start {
        return false;
    }
    let mut i: usize = 0;
    while i < lit.len()
        invariant
            i <= lit@.len(),
            start + lit@.len() <= s@.len(),
            forall|j: int| 0 <= j < i ==> s@[start + j] == #[trigger] lit@[j],
        decreases lit@.len() - i,
    {
        assert(start + i < s.len());
        if s[start + i] != lit[i] {
            proof {
                let w = s@.subrange(start as int, start + lit@.len());
                assert(w[i as int] != lit@[i as int]);
            }
            return false;
        }
        i += 1;
    }
    assert(s@.subrange(start as int, start + lit@.len()) =~= lit@);
    true
}

/// True iff the bytes from `start` on begin with one of each range in order.
fn in_ranges_at(s: &Vec<u8>, start: usize, ranges: &Vec<(u8, u8)>) -> (r: bool)
    requires
        start <= s@.len(),
    ensures
        r == (start + ranges@.len() <= s@.len() && utf8_ranges::ranges_lang(
            ranges@,
            s@.subrange(start as int, start + ranges@.len()),
        )),
{
    if ranges.len() > s.len() - start {
        return false;
    }
    let ghost w = s@.subrange(start as int, start + ranges@.len());
    let mut i: usize = 0;
    while i < ranges.len()
        invariant
            i <= ranges@.len(),
            start + ranges@.len() <= s@.len(),
            w == s@.subrange(start as int, start + ranges@.len()),
            forall|j: int| 0 <= j < i ==> (#[trigger] ranges@[j]).0 <= w[j] <= ranges@[j].1,
        decreases ranges@.len() - i,
    {
        assert(start + i < s.len());
        let b = s[start + i];
        assert(b == w[i as int]);
        if b < ranges[i].0 || b > ranges[i].1 {
            assert(!(ranges@[i as int].0 <= w[i as int] <= ranges@[i as int].1));
            return false;
        }
        i += 1;
    }
    true
}

/// The bytes from `from` up to `to`.
fn slice(s: &Vec<u8>, from: usize, to: usize) -> (r: Vec<u8>)
    requires
        from <= to <= s@.len(),
    ensures
        r@ == s@.subrange(from as int, to as int),
{
    let mut r: Vec<u8> = Vec::new();
    let mut i: usize = from;
    while i < to
        invariant
            from <= i <= to <= s@.len(),
            r@ == s@.subrange(from as int, i as int),
        decreases to - i,
    {
        r.push(s[i]);
        assert(r@ =~= s@.subrange(from as int, i + 1));
        i += 1;
    }
    r
}

/// Marks each position up to which the repeated negated lookahead matches
/// where the literal `next` comes after it.
fn ends_neg(
    pats: &Vec<Vec<u8>>,
    next: &Vec<u8>,
    s: &Vec<u8>,
    start: usize,
    nonempty: bool,
    out: &mut Vec<bool>,
)
    requires
        start <= s@.len(),
        old(out)@.len() == s@.len() + 1,
    ensures
        final(out)@.len() == old(out)@.len(),
        forall|e: int|
            0 <= e <= s@.len() ==> #[trigger] final(out)@[e] == (old(out)@[e] || (start <= e
                && language::neg_body(
                aho_corasick::pats_view(pats@),
                s@.subrange(start as int, e),
                next@,
            ) && (nonempty ==> start < e))),
{
    let ghost pv = aho_corasick::pats_view(pats@);
    let total = out.len();
    let mut e: usize = start;
    while e < total
        invariant
            start <= e <= total,
            total == s@.len() + 1,
            out@.len() == total,
            old(out)@.len() == total,
            pv == aho_corasick::pats_view(pats@),
            forall|c: int|
                0 <= c < e ==> #[trigger] out@[c] == (old(out)@[c] || (start <= c
                    && language::neg_body(pv, s@.subrange(start as int, c), next@) && (nonempty
                    ==> start < c))),
            forall|c: int| e <= c < total ==> #[trigger] out@[c] == old(out)@[c],
        decreases total - e,
    {
        let w = slice(s, start, e);
        if aho_corasick::avoids(pats, &w, next) && (!nonempty || start < e) {
            out.set(e, true);
        }
        e += 1;
    }
}

/// Marks each position up to which the pattern matches from `start` on.
fn ends(pat: &TokenPattern, s: &Vec<u8>, start: usize, out: &mut Vec<bool>)
    requires
        start <= s@.len(),
        old(out)@.len() == s@.len() + 1,
    ensures
        final(out)@.len() == old(out)@.len(),
        forall|e: int|
            0 <= e <= s@.len() ==> #[trigger] final(out)@[e] == (old(out)@[e] || spans(
                pat@,
                s@,
                start as int,
                e,
            )),
    decreases pat, 1nat,
{
    match pat {
        TokenPattern::Empty => {
            out.set(start, true);
            proof {
                assert forall|e: int| 0 <= e <= s@.len() implies #[trigger] out@[e] == (old(
                    out,
                )@[e] || spans(pat@, s@, start as int, e)) by {}
            }
        },
        TokenPattern::Literal(lit) => {
            let bs = lit.as_str().as_bytes();
            if begins_at(s, start, bs) {
                assert(start + bs.len() <= s.len());
                out.set(start + bs.len(), true);
            }
            proof {
                assert forall|e: int| 0 <= e <= s@.len() implies #[trigger] out@[e] == (old(
                    out,
                )@[e] || spans(pat@, s@, start as int, e)) by {
                    if start <= e {
                        assert(s@.subrange(start as int, e).len() == e - start);
                    }
                }
            }
        },
        TokenPattern::Class(cc) => {
            let seqs = utf8_ranges::class_byte_seqs(cc);
            let mut k: usize = 0;
            while k < seqs.len()
                invariant
                    k <= seqs@.len(),
                    start <= s@.len(),
                    out@.len() == s@.len() + 1,
                    old(out)@.len() == out@.len(),
                    forall|e: int|
                        0 <= e <= s@.len() ==> #[trigger] out@[e] == (old(out)@[e] || (start <= e
                            && utf8_ranges::first_ranges_lang(
                            seqs@,
                            k as int,
                            s@.subrange(start as int, e),
                        ))),
                decreases seqs@.len() - k,
            {
                let ghost before = out@;
                let n = seqs[k].len();
                let hit = in_ranges_at(s, start, &seqs[k]);
                if hit {
                    assert(start + n <= s.len());
                    out.set(start + n, true);
                }
                proof {
                    assert forall|e: int| 0 <= e <= s@.len() implies #[trigger] out@[e] == (old(
                        out,
                    )@[e] || (start <= e && utf8_ranges::first_ranges_lang(
                        seqs@,
                        k + 1,
                        s@.subrange(start as int, e),
                    ))) by {
                        if start <= e {
                            let w = s@.subrange(start as int, e);
                            assert(w.len() == e - start);
                            assert(before[e] == (old(out)@[e] || utf8_ranges::first_ranges_lang(
                                seqs@,
                                k as int,
                                w,
                            )));
                            if utf8_ranges::first_ranges_lang(seqs@, k + 1, w) {
                                let i = choose|i: int|
                                    0 <= i < k + 1 && #[trigger] utf8_ranges::ranges_lang(
                                        seqs@[i]@,
                                        w,
                                    );
                                if i < k {
                                    assert(utf8_ranges::ranges_lang(seqs@[i]@, w));
                                    assert(utf8_ranges::first_ranges_lang(seqs@, k as int, w));
                                } else {
                                    assert(e == start + n);
                                }
                            }
                            if utf8_ranges::first_ranges_lang(seqs@, k as int, w) {
                                let i = choose|i: int|
                                    0 <= i < k && #[trigger] utf8_ranges::ranges_lang(
                                        seqs@[i]@,
                                        w,
                                    );
                                assert(utf8_ranges::ranges_lang(seqs@[i]@, w));
                            }
                            if hit && e == start + n {
                                assert(utf8_ranges::ranges_lang(seqs@[k as int]@, w));
                            }
                        }
                    }
                }
                k += 1;
            }
            proof {
                assert forall|e: int| 0 <= e <= s@.len() implies #[trigger] out@[e] == (old(
                    out,
                )@[e] || spans(pat@, s@, start as int, e)) by {
                    if start <= e {
                        let w = s@.subrange(start as int, e);
                        assert(utf8_ranges::any_ranges_lang(seqs@, w) <==> language::class_lang(
                            cc@,
                            w,
                        ));
                    }
                }
            }
        },
        TokenPattern::Ref(_) => {},
        TokenPattern::NegLook { chars: _, strings: _ } => {},
        TokenPattern::Concat(xs) => {
            ends_concat(xs, s, start, out);
            proof {
                assert forall|e: int| 0 <= e <= s@.len() implies #[trigger] out@[e] == (old(
                    out,
                )@[e] || spans(pat@, s@, start as int, e)) by {
                    if start <= e {
                        language::lemma_concat_lang(
                            ir::patterns_view(xs@),
                            s@.subrange(start as int, e),
                        );
                    }
                }
            }
        },
        TokenPattern::Alt(xs) => {
            ends_alt(xs, s, start, out);
            proof {
                assert forall|e: int| 0 <= e <= s@.len() implies #[trigger] out@[e] == (old(
                    out,
                )@[e] || spans(pat@, s@, start as int, e)) by {
                    if start <= e {
                        let views = ir::patterns_view(xs@);
                        let w = s@.subrange(start as int, e);
                        language::lemma_alt_lang(views, w);
                        if exists|i: int|
                            0 <= i < views.len() && language::lang(#[trigger] views[i], w) {
                            let i = choose|i: int|
                                0 <= i < views.len() && language::lang(#[trigger] views[i], w);
                            assert(spans(views[i], s@, start as int, e));
                        }
                    }
                }
            }
        },
        TokenPattern::Opt(x) => {
            out.set(start, true);
            let ghost mid = out@;
            ends(x, s, start, out);
            proof {
                assert forall|e: int| 0 <= e <= s@.len() implies #[trigger] out@[e] == (old(
                    out,
                )@[e] || spans(pat@, s@, start as int, e)) by {
                    assert(mid[e] == (old(out)@[e] || e == start));
                    if start <= e {
                        assert(s@.subrange(start as int, e).len() == e - start);
                    }
                }
            }
        },
        TokenPattern::Star(x) => {
            if let TokenPattern::NegLook { chars, strings } = &**x {
                let pats = nfa::forbidden_patterns(chars, strings);
                ends_neg(&pats, &Vec::new(), s, start, false, out);
                proof {
                    assert forall|e: int| 0 <= e <= s@.len() implies #[trigger] out@[e] == (old(
                        out,
                    )@[e] || spans(pat@, s@, start as int, e)) by {}
                }
            } else {
                let mut marks = no_marks(out.len());
                marks.set(start, true);
                let ghost m0 = marks@;
                iterate_body(x, s, &mut marks);
                let ghost m1 = marks@;
                merge(out, &marks);
                proof {
                    assert forall|e: int| 0 <= e <= s@.len() implies #[trigger] out@[e] == (old(
                        out,
                    )@[e] || spans(pat@, s@, start as int, e)) by {
                        assert(m1[e] == repeats_to(x@, s@, m0, e));
                        if start <= e && language::star_lang(x@, s@.subrange(start as int, e)) {
                            assert(m0[start as int]);
                        }
                    }
                }
            }
        },
        TokenPattern::Plus(x) => {
            if let TokenPattern::NegLook { chars, strings } = &**x {
                let pats = nfa::forbidden_patterns(chars, strings);
                ends_neg(&pats, &Vec::new(), s, start, true, out);
                proof {
                    assert forall|e: int| 0 <= e <= s@.len() implies #[trigger] out@[e] == (old(
                        out,
                    )@[e] || spans(pat@, s@, start as int, e)) by {
                        if start <= e {
                            assert(s@.subrange(start as int, e).len() == e - start);
                        }
                    }
                }
            } else {
                let mut marks = no_marks(out.len());
                ends(x, s, start, &mut marks);
                let ghost m0 = marks@;
                iterate_body(x, s, &mut marks);
                let ghost m1 = marks@;
                merge(out, &marks);
                proof {
                    assert forall|e: int| 0 <= e <= s@.len() implies #[trigger] out@[e] == (old(
                        out,
                    )@[e] || spans(pat@, s@, start as int, e)) by {
                        assert(m1[e] == repeats_to(x@, s@, m0, e));
                        lemma_plus(pat@, x@, s@, start as int, m0, e);
                    }
                }
            }
        },
    }
}

/// `+` is one match and then a repetition.
proof fn lemma_plus(
    pat: PatternView,
    x: PatternView,
    s: Seq<u8>,
    start: int,
    marks: Seq<bool>,
    e: int,
)
    requires
        pat == PatternView::Plus(Box::new(x)),
        !(x is NegLook),
        0 <= start <= s.len(),
        0 <= e <= s.len(),
        marks.len() == s.len() + 1,
        forall|i: int| 0 <= i <= s.len() ==> #[trigger] marks[i] == spans(x, s, start, i),
    ensures
        repeats_to(x, s, marks, e) == spans(pat, s, start, e),
{
    if repeats_to(x, s, marks, e) {
        let a = choose|a: int|
            0 <= a <= e && a < marks.len() && #[trigger] marks[a] && e <= s.len()
                && language::star_lang(x, s.subrange(a, e));
        assert(spans(x, s, start, a));
        let w = s.subrange(start, e);
        assert(w.take(a - start) =~= s.subrange(start, a));
        assert(w.skip(a - start) =~= s.subrange(a, e));
        assert(language::lang(x, w.take(a - start)));
    }
    if spans(pat, s, start, e) {
        let w = s.subrange(start, e);
        let i = choose|i: int|
            0 <= i <= w.len() && language::lang(x, #[trigger] w.take(i)) && language::star_lang(
                x,
                w.skip(i),
            );
        assert(w.take(i) =~= s.subrange(start, start + i));
        assert(w.skip(i) =~= s.subrange(start + i, e));
        assert(marks[start + i]);
    }
}

/// Marks each position up to which a repetition of `body` matches from a
/// marked one on. A match never goes back, so one pass from left to right
/// finds them all.
fn iterate_body(body: &TokenPattern, s: &Vec<u8>, marks: &mut Vec<bool>)
    requires
        old(marks)@.len() == s@.len() + 1,
    ensures
        final(marks)@.len() == old(marks)@.len(),
        forall|e: int|
            0 <= e <= s@.len() ==> #[trigger] final(marks)@[e] == repeats_to(
                body@,
                s@,
                old(marks)@,
                e,
            ),
    decreases body, 2nat,
{
    let ghost m0 = marks@;
    let ghost p = body@;
    let total = marks.len();
    proof {
        assert forall|e: int| 0 <= e <= s@.len() && #[trigger] m0[e] implies repeats_to(
            p,
            s@,
            m0,
            e,
        ) by {
            assert(s@.subrange(e, e).len() == 0);
        }
    }
    let mut q: usize = 0;
    while q < total
        invariant
            q <= total,
            total == s@.len() + 1,
            marks@.len() == total,
            m0.len() == total,
            p == body@,
            forall|e: int| 0 <= e <= s@.len() && #[trigger] m0[e] ==> marks@[e],
            forall|e: int|
                0 <= e <= s@.len() && #[trigger] marks@[e] ==> repeats_to(p, s@, m0, e),
            marks_closed(p, s@, marks@, q as int),
        decreases total - q,
    {
        let ghost before = marks@;
        if marks[q] {
            ends(body, s, q, marks);
        }
        proof {
            assert forall|e: int| 0 <= e <= s@.len() && #[trigger] marks@[e] implies repeats_to(
                p,
                s@,
                m0,
                e,
            ) by {
                if !before[e] {
                    assert(before[q as int]);
                    let a = choose|a: int|
                        0 <= a <= q && a < m0.len() && #[trigger] m0[a] && q <= s@.len()
                            && language::star_lang(p, s@.subrange(a, q as int));
                    assert(spans(p, s@, q as int, e));
                    lemma_star_snoc(p, s@.subrange(a, q as int), s@.subrange(q as int, e));
                    assert(s@.subrange(a, q as int) + s@.subrange(q as int, e) =~= s@.subrange(
                        a,
                        e,
                    ));
                    assert(m0[a]);
                }
            }
            assert forall|i: int, e: int|
                0 <= i < q + 1 && i < marks@.len() && #[trigger] marks@[i] && #[trigger] spans(
                    p,
                    s@,
                    i,
                    e,
                ) implies marks@[e] by {
                if i < q {
                    if !before[i] {
                        assert(spans(p, s@, q as int, i));
                    }
                    assert(before[i]);
                    assert(before[e]);
                }
            }
        }
        q += 1;
    }
    proof {
        assert forall|e: int| 0 <= e <= s@.len() implies #[trigger] marks@[e] == repeats_to(
            p,
            s@,
            m0,
            e,
        ) by {
            if repeats_to(p, s@, m0, e) {
                let a = choose|a: int|
                    0 <= a <= e && a < m0.len() && #[trigger] m0[a] && e <= s@.len()
                        && language::star_lang(p, s@.subrange(a, e));
                assert(marks@[a]);
                lemma_closed_repeats(p, s@, marks@, a, e);
            }
        }
    }
}

fn ends_alt(xs: &Vec<TokenPattern>, s: &Vec<u8>, start: usize, out: &mut Vec<bool>)
    requires
        start <= s@.len(),
        old(out)@.len() == s@.len() + 1,
    ensures
        final(out)@.len() == old(out)@.len(),
        forall|e: int|
            0 <= e <= s@.len() ==> #[trigger] final(out)@[e] == (old(out)@[e] || exists|i: int|
                0 <= i < xs@.len() && #[trigger] spans(
                    ir::patterns_view(xs@)[i],
                    s@,
                    start as int,
                    e,
                )),
    decreases xs, 0nat,
{
    let ghost views = ir::patterns_view(xs@);
    let mut k: usize = 0;
    while k < xs.len()
        invariant
            k <= xs@.len(),
            start <= s@.len(),
            out@.len() == s@.len() + 1,
            old(out)@.len() == out@.len(),
            views == ir::patterns_view(xs@),
            forall|e: int|
                0 <= e <= s@.len() ==> #[trigger] out@[e] == (old(out)@[e] || exists|i: int|
                    0 <= i < k && #[trigger] spans(views[i], s@, start as int, e)),
        decreases xs@.len() - k,
    {
        let ghost before = out@;
        ends(&xs[k], s, start, out);
        proof {
            assert(views[k as int] == xs@[k as int]@);
            assert forall|e: int| 0 <= e <= s@.len() implies #[trigger] out@[e] == (old(out)@[e]
                || exists|i: int|
                0 <= i < k + 1 && #[trigger] spans(views[i], s@, start as int, e)) by {
                assert(before[e] == (old(out)@[e] || exists|i: int|
                    0 <= i < k && #[trigger] spans(views[i], s@, start as int, e)));
                if exists|i: int| 0 <= i < k + 1 && #[trigger] spans(views[i], s@, start as int, e) {
                    let i = choose|i: int|
                        0 <= i < k + 1 && #[trigger] spans(views[i], s@, start as int, e);
                    if i < k {
                        assert(before[e]);
                    }
                }
            }
        }
        k += 1;
    }
}

fn ends_concat(xs: &Vec<TokenPattern>, s: &Vec<u8>, start: usize, out: &mut Vec<bool>)
    requires
        start <= s@.len(),
        old(out)@.len() == s@.len() + 1,
    ensures
        final(out)@.len() == old(out)@.len(),
        forall|e: int|
            0 <= e <= s@.len() ==> #[trigger] final(out)@[e] == (old(out)@[e] || (start <= e
                && language::concat_lang(
                ir::patterns_view(xs@),
                Seq::empty(),
                s@.subrange(start as int, e),
            ))),
    decreases xs, 0nat,
{
    let ghost views = ir::patterns_view(xs@);
    let total = out.len();
    let mut cur = no_marks(total);
    cur.set(start, true);
    let mut k: usize = 0;
    proof {
        assert(views.take(0) =~= Seq::<PatternView>::empty());
        assert forall|e: int| 0 <= e <= s@.len() implies #[trigger] cur@[e] == (start <= e
            && language::concat_lang(
            views.take(0),
            language::lead_at(views, 0),
            s@.subrange(start as int, e),
        )) by {
            if start <= e {
                assert(s@.subrange(start as int, e).len() == e - start);
            }
        }
    }
    while k < xs.len()
        invariant
            k <= xs@.len(),
            start <= s@.len(),
            total == s@.len() + 1,
            cur@.len() == total,
            views == ir::patterns_view(xs@),
            forall|e: int|
                0 <= e <= s@.len() ==> #[trigger] cur@[e] == (start <= e && language::concat_lang(
                    views.take(k as int),
                    language::lead_at(views, k as int),
                    s@.subrange(start as int, e),
                )),
        decreases xs@.len() - k,
    {
        let lead = nfa::lead_of(xs, k + 1);
        let mut next = no_marks(total);
        let mut q: usize = 0;
        while q < total
            invariant
                q <= total,
                k < xs@.len(),
                total == s@.len() + 1,
                cur@.len() == total,
                next@.len() == total,
                views == ir::patterns_view(xs@),
                forall|e: int|
                    0 <= e <= s@.len() ==> #[trigger] next@[e] == exists|c: int|
                        0 <= c < q && cur@[c] && #[trigger] spans_next(views[k as int], lead@, s@, c, e),
            decreases total - q,
        {
            let ghost before = next@;
            if cur[q] {
                ends_item(&xs[k], &lead, s, q, &mut next);
            }
            proof {
                assert(views[k as int] == xs@[k as int]@);
                assert forall|e: int| 0 <= e <= s@.len() implies #[trigger] next@[e]
                    == exists|c: int|
                    0 <= c < q + 1 && cur@[c] && #[trigger] spans_next(views[k as int], lead@, s@, c, e) by {
                    assert(before[e] == exists|c: int|
                        0 <= c < q && cur@[c] && #[trigger] spans_next(views[k as int], lead@, s@, c, e));
                    if exists|c: int|
                        0 <= c < q + 1 && cur@[c] && #[trigger] spans_next(views[k as int], lead@, s@, c, e) {
                        let c = choose|c: int|
                            0 <= c < q + 1 && cur@[c] && #[trigger] spans_next(
                                views[k as int],
                                lead@,
                                s@,
                                c,
                                e,
                            );
                        if c < q {
                            assert(before[e]);
                        }
                    }
                }
            }
            q += 1;
        }
        proof {
            assert forall|e: int| 0 <= e <= s@.len() implies #[trigger] next@[e] == (start <= e
                && language::concat_lang(
                views.take(k + 1),
                language::lead_at(views, k + 1),
                s@.subrange(start as int, e),
            )) by {
                lemma_concat_step(views, k as int, lead@, s@, start as int, cur@, e);
            }
        }
        cur = next;
        k += 1;
    }
    assert(views.take(k as int) =~= views);
    merge(out, &cur);
}

/// One more pattern in a sequence.
proof fn lemma_concat_step(
    xs: Seq<PatternView>,
    k: int,
    lead: Seq<u8>,
    s: Seq<u8>,
    start: int,
    cur: Seq<bool>,
    e: int,
)
    requires
        0 <= k < xs.len(),
        0 <= start <= s.len(),
        0 <= e <= s.len(),
        cur.len() == s.len() + 1,
        forall|i: int|
            0 <= i <= s.len() ==> #[trigger] cur[i] == (start <= i && language::concat_lang(
                xs.take(k),
                language::lead_at(xs, k),
                s.subrange(start, i),
            )),
    ensures
        (exists|c: int|
            0 <= c < cur.len() && cur[c] && #[trigger] spans_next(xs[k], lead, s, c, e)) == (start
            <= e && language::concat_lang(xs.take(k + 1), lead, s.subrange(start, e))),
{
    let next = xs.take(k + 1);
    assert(next.drop_last() =~= xs.take(k));
    assert(next.last() == xs[k]);
    if exists|c: int| 0 <= c < cur.len() && cur[c] && #[trigger] spans_next(xs[k], lead, s, c, e) {
        let c = choose|c: int|
            0 <= c < cur.len() && cur[c] && #[trigger] spans_next(xs[k], lead, s, c, e);
        let w = s.subrange(start, e);
        assert(w.take(c - start) =~= s.subrange(start, c));
        assert(w.skip(c - start) =~= s.subrange(c, e));
        assert(language::concat_lang(
            next.drop_last(),
            language::lead(next.last()),
            w.take(c - start),
        ));
    }
    if start <= e && language::concat_lang(next, lead, s.subrange(start, e)) {
        let w = s.subrange(start, e);
        let i = choose|i: int|
            0 <= i <= w.len() && language::concat_lang(
                next.drop_last(),
                language::lead(next.last()),
                #[trigger] w.take(i),
            ) && language::item_lang(next.last(), lead, w.skip(i));
        assert(w.take(i) =~= s.subrange(start, start + i));
        assert(w.skip(i) =~= s.subrange(start + i, e));
        assert(cur[start + i]);
        assert(spans_next(xs[k], lead, s, start + i, e));
    }
}

/// The bytes from `start` up to `end` are a string of the pattern where the
/// literal `next` comes after it.
spec fn spans_next(p: PatternView, next: Seq<u8>, s: Seq<u8>, start: int, end: int) -> bool {
    start <= end <= s.len() && language::item_lang(p, next, s.subrange(start, end))
}

/// Marks each position up to which the pattern matches from `start` on where
/// the literal `next` comes after it.
fn ends_item(
    pat: &TokenPattern,
    next: &Vec<u8>,
    s: &Vec<u8>,
    start: usize,
    out: &mut Vec<bool>,
)
    requires
        start <= s@.len(),
        old(out)@.len() == s@.len() + 1,
    ensures
        final(out)@.len() == old(out)@.len(),
        forall|e: int|
            0 <= e <= s@.len() ==> #[trigger] final(out)@[e] == (old(out)@[e] || spans_next(
                pat@,
                next@,
                s@,
                start as int,
                e,
            )),
    decreases pat, 2nat,
{
    match pat {
        TokenPattern::Star(x) => {
            if let TokenPattern::NegLook { chars, strings } = &**x {
                let pats = nfa::forbidden_patterns(chars, strings);
                ends_neg(&pats, next, s, start, false, out);
                proof {
                    assert(x@ == PatternView::NegLook(chars@, names::list_view(strings@)));
                    assert forall|e: int| 0 <= e <= s@.len() implies #[trigger] out@[e] == (old(
                        out,
                    )@[e] || spans_next(pat@, next@, s@, start as int, e)) by {}
                }
            } else {
                ends(pat, s, start, out);
                proof {
                    assert(!(x@ is NegLook));
                    assert forall|e: int| 0 <= e <= s@.len() implies #[trigger] out@[e] == (old(
                        out,
                    )@[e] || spans_next(pat@, next@, s@, start as int, e)) by {
                        assert(spans(pat@, s@, start as int, e) == spans_next(
                            pat@,
                            next@,
                            s@,
                            start as int,
                            e,
                        ));
                    }
                }
            }
        },
        TokenPattern::Plus(x) => {
            if let TokenPattern::NegLook { chars, strings } = &**x {
                let pats = nfa::forbidden_patterns(chars, strings);
                ends_neg(&pats, next, s, start, true, out);
                proof {
                    assert(x@ == PatternView::NegLook(chars@, names::list_view(strings@)));
                    assert forall|e: int| 0 <= e <= s@.len() implies #[trigger] out@[e] == (old(
                        out,
                    )@[e] || spans_next(pat@, next@, s@, start as int, e)) by {
                        if start <= e {
                            assert(s@.subrange(start as int, e).len() == e - start);
                        }
                    }
                }
            } else {
                ends(pat, s, start, out);
                proof {
                    assert(!(x@ is NegLook));
                    assert forall|e: int| 0 <= e <= s@.len() implies #[trigger] out@[e] == (old(
                        out,
                    )@[e] || spans_next(pat@, next@, s@, start as int, e)) by {
                        assert(spans(pat@, s@, start as int, e) == spans_next(
                            pat@,
                            next@,
                            s@,
                            start as int,
                            e,
                        ));
                    }
                }
            }
        },
        _ => {
            ends(pat, s, start, out);
            proof {
                assert forall|e: int| 0 <= e <= s@.len() implies #[trigger] out@[e] == (old(
                    out,
                )@[e] || spans_next(pat@, next@, s@, start as int, e)) by {
                    assert(spans(pat@, s@, start as int, e) == spans_next(
                        pat@,
                        next@,
                        s@,
                        start as int,
                        e,
                    ));
                }
            }
        },
    }
}

/// True iff `pat`, in which no reference is left, matches exactly the bytes of
/// `s`: no more, no less.
pub fn pattern_matches_exactly(pat: &TokenPattern, s: &[u8]) -> (r: bool)
    ensures
        r == language::lang(pat@, s@),
{
    let mut bytes: Vec<u8> = Vec::new();
    let mut i: usize = 0;
    while i < s.len()
        invariant
            i <= s@.len(),
            bytes@ == s@.take(i as int),
        decreases s@.len() - i,
    {
        bytes.push(s[i]);
        assert(bytes@ =~= s@.take(i + 1));
        i += 1;
    }
    assert(bytes@ =~= s@);
    let mut out: Vec<bool> = Vec::new();
    let n = bytes.len();
    let mut k: usize = 0;
    while k < n
        invariant
            k <= n,
            out@.len() == k,
            forall|i: int| 0 <= i < k ==> !#[trigger] out@[i],
        decreases n - k,
    {
        out.push(false);
        k += 1;
    }
    out.push(false);
    ends(pat, &bytes, 0, &mut out);
    assert(s@.subrange(0, n as int) =~= s@);
    out[n]
}

/// The token competes in the lexer and shows in the parse.
pub open spec fn live(t: TokenView) -> bool {
    !t.is_fragment && !t.skip
}

/// The token at position `j` accepts the literal `s`.
pub open spec fn accepts_literal(
    defs: Seq<(Seq<char>, TokenView)>,
    j: int,
    s: Seq<char>,
) -> bool {
    live(defs[j].1) && language::lang(
        resolve::resolved(defs[j].1.pattern, defs),
        vstd::utf8::encode_utf8(s),
    )
}

/// The first token from position `j` up to `i` that accepts the literal.
pub open spec fn first_accepting(
    defs: Seq<(Seq<char>, TokenView)>,
    j: int,
    i: int,
    s: Seq<char>,
) -> Option<int>
    decreases i - j,
{
    if j >= i {
        None
    } else if accepts_literal(defs, j, s) {
        Some(j)
    } else {
        first_accepting(defs, j + 1, i, s)
    }
}

/// What is reported of a literal token that an earlier one shadows.
pub open spec fn shadow_text(t: TokenView, s: Seq<char>, u: TokenView) -> Seq<char> {
    "token `"@ + t.name + "` (literal "@ + text::debug_text(s)
        + ") is shadowed by earlier-declared token `"@ + u.name
        + "`; the lexer would always pick `"@ + u.name + "`. Move `"@ + t.name + "` above `"@
        + u.name + "`."@
}

/// What is reported of the token at position `i`.
pub open spec fn shadow_diag(defs: Seq<(Seq<char>, TokenView)>, i: int) -> Seq<DiagnosticView> {
    let t = defs[i].1;
    if !live(t) {
        Seq::empty()
    } else {
        match t.pattern {
            PatternView::Literal(s) => match first_accepting(defs, 0, i, s) {
                Some(j) => seq![diagnostic::error_at(shadow_text(t, s, defs[j].1), t.span)],
                None => Seq::empty(),
            },
            _ => Seq::empty(),
        }
    }
}

/// What is reported of the first `n` tokens.
pub open spec fn shadow_diags(defs: Seq<(Seq<char>, TokenView)>, n: nat) -> Seq<DiagnosticView>
    decreases n,
{
    if n == 0 {
        Seq::empty()
    } else {
        shadow_diags(defs, (n - 1) as nat) + shadow_diag(defs, n - 1)
    }
}

fn render_shadow(t: &TokenDef, s: &str, u: &TokenDef) -> (d: Diagnostic)
    ensures
        d@ == diagnostic::error_at(shadow_text(t@, s@, u@), t.span),
{
    let mut m = "token `".to_owned();
    m.append(t.name.as_str());
    m.append("` (literal ");
    m.append(text::debug_str(s).as_str());
    m.append(") is shadowed by earlier-declared token `");
    m.append(u.name.as_str());
    m.append("`; the lexer would always pick `");
    m.append(u.name.as_str());
    m.append("`. Move `");
    m.append(t.name.as_str());
    m.append("` above `");
    m.append(u.name.as_str());
    m.append("`.");
    Diagnostic::error(m).at(t.span)
}

/// The first token before position `i` that accepts the literal.
fn find_shadower(g: &Grammar, tokens: &Vec<&TokenDef>, i: usize, s: &str) -> (r: Option<usize>)
    requires
        i <= tokens@.len(),
        tokens@.len() == g.token_map().len(),
        forall|k: int| 0 <= k < tokens@.len() ==> (#[trigger] tokens@[k])@ == g.token_map()[k].1,
    ensures
        match r {
            Some(j) => j < i && first_accepting(g.token_map(), 0, i as int, s@) == Some(j as int),
            None => first_accepting(g.token_map(), 0, i as int, s@) is None,
        },
{
    let bytes = s.as_bytes();
    let mut j: usize = 0;
    while j < i
        invariant
            j <= i <= tokens@.len(),
            tokens@.len() == g.token_map().len(),
            forall|k: int|
                0 <= k < tokens@.len() ==> (#[trigger] tokens@[k])@ == g.token_map()[k].1,
            bytes@ == vstd::utf8::encode_utf8(s@),
            first_accepting(g.token_map(), 0, i as int, s@) == first_accepting(
                g.token_map(),
                j as int,
                i as int,
                s@,
            ),
        decreases i - j,
    {
        let u = tokens[j];
        assert(u@ == g.token_map()[j as int].1);
        if !u.is_fragment && !u.skip {
            let resolved = resolve::resolve_pattern(&u.pattern, g);
            if pattern_matches_exactly(&resolved, bytes) {
                return Some(j);
            }
        }
        j += 1;
    }
    None
}

/// Run the shadow check. References that do not resolve stand for the empty
/// string.
pub fn run(g: &Grammar, issues: &mut Vec<Diagnostic>)
    ensures
        diagnostic::diags_view(final(issues)@) == diagnostic::diags_view(old(issues)@)
            + shadow_diags(g.token_map(), g.token_map().len()),
{
    let tokens = g.token_values();
    let ghost defs = g.token_map();
    let ghost d0 = diagnostic::diags_view(issues@);
    let mut i: usize = 0;
    assert(d0 =~= d0 + shadow_diags(defs, 0));
    while i < tokens.len()
        invariant
            i <= tokens@.len(),
            defs == g.token_map(),
            tokens@.len() == defs.len(),
            forall|k: int| 0 <= k < tokens@.len() ==> (#[trigger] tokens@[k])@ == defs[k].1,
            diagnostic::diags_view(issues@) == d0 + shadow_diags(defs, i as nat),
        decreases tokens@.len() - i,
    {
        let t = tokens[i];
        let ghost before = diagnostic::diags_view(issues@);
        assert(t@ == defs[i as int].1);
        if !t.is_fragment && !t.skip {
            if let TokenPattern::Literal(s) = &t.pattern {
                match find_shadower(g, &tokens, i, s.as_str()) {
                    Some(j) => {
                        diagnostic::report(issues, render_shadow(t, s.as_str(), tokens[j]));
                    },
                    None => {},
                }
            }
        }
        proof {
            assert(diagnostic::diags_view(issues@) =~= before + shadow_diag(defs, i as int));
            assert(before + shadow_diag(defs, i as int) =~= d0 + shadow_diags(
                defs,
                (i + 1) as nat,
            ));
        }
        i += 1;
    }
}

/// A token that an earlier one shadows on some input is never what the lexer
/// accepts there.
pub proof fn law_shadowed_is_never_picked(
    tokens: Seq<TokenInfo>,
    i: int,
    j: int,
    w: Seq<u8>,
    accepted: Option<u16>,
)
    requires
        0 <= i < tokens.len(),
        0 <= j < tokens.len(),
        tokens[j].kind < tokens[i].kind,
        language::lang(tokens[j].pattern@, w),
        lexer_dfa::lexes(tokens, w, accepted),
    ensures
        accepted != Some(tokens[i].kind),
{
    assert(nfa::token_matches(tokens, w, tokens[j].kind));
}

} // verus!
