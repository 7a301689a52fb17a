//! Character classes as alternations of UTF-8 byte-range sequences.
//!
//! A class is reduced to disjoint ranges of scalar values, and each range to
//! sequences of byte ranges that together match the encodings of exactly the
//! values in the range. Surrogates `U+D800..=U+DFFF` are left out: they are no
//! scalar values and cannot occur in UTF-8.
use vstd::prelude::*;

use crate::grammar::ir::{CharClass, ClassItem, ClassView};
use crate::lowering::language;

verus! {

pub const MAX_CODEPOINT: u32 = 0x10FFFF;

pub const SURROGATE_LO: u32 = 0xD800;

pub const SURROGATE_HI: u32 = 0xDFFF;

/// `w` has one byte in each range of `seq`, in order.
pub open spec fn ranges_lang(seq: Seq<(u8, u8)>, w: Seq<u8>) -> bool {
    &&& w.len() == seq.len()
    &&& forall|i: int| 0 <= i < seq.len() ==> (#[trigger] seq[i]).0 <= w[i] <= seq[i].1
}

/// Some of the first `n` sequences spells `w`.
pub open spec fn first_ranges_lang(seqs: Seq<Vec<(u8, u8)>>, n: int, w: Seq<u8>) -> bool {
    exists|i: int| 0 <= i < n && #[trigger] ranges_lang(seqs[i]@, w)
}

/// Some sequence spells `w`.
pub open spec fn any_ranges_lang(seqs: Seq<Vec<(u8, u8)>>, w: Seq<u8>) -> bool {
    first_ranges_lang(seqs, seqs.len() as int, w)
}

/// `s` is not after `w` in the order of byte strings of one length.
spec fn lex_le(s: Seq<u8>, w: Seq<u8>) -> bool
    decreases s.len(),
{
    s.len() == 0 || s[0] < w[0] || (s[0] == w[0] && lex_le(s.skip(1), w.skip(1)))
}

/// Every byte is a continuation byte.
spec fn all_cont(w: Seq<u8>) -> bool {
    forall|i: int| 0 <= i < w.len() ==> 0x80 <= #[trigger] w[i] <= 0xBF
}

/// `w` lies between `s` and `e`, which have its length, and continuation bytes
/// follow its first byte.
spec fn in_between(s: Seq<u8>, e: Seq<u8>, w: Seq<u8>) -> bool {
    w.len() == s.len() && all_cont(w.skip(1)) && lex_le(s, w) && lex_le(w, e)
}

proof fn lemma_lex_low(s: Seq<u8>, w: Seq<u8>)
    requires
        s.len() == w.len(),
        forall|i: int| 0 <= i < s.len() ==> #[trigger] s[i] <= w[i],
    ensures
        lex_le(s, w),
    decreases s.len(),
{
    if s.len() > 0 {
        assert forall|i: int| 0 <= i < s.skip(1).len() implies #[trigger] s.skip(1)[i] <= w.skip(
            1,
        )[i] by {
            assert(s[i + 1] <= w[i + 1]);
        }
        lemma_lex_low(s.skip(1), w.skip(1));
        assert(s[0] <= w[0]);
    }
}

proof fn lemma_skip_cont(w: Seq<u8>)
    requires
        all_cont(w),
        w.len() > 0,
    ensures
        all_cont(w.skip(1)),
{
    assert forall|i: int| 0 <= i < w.skip(1).len() implies 0x80 <= #[trigger] w.skip(1)[i]
        <= 0xBF by {
        assert(w.skip(1)[i] == w[i + 1]);
    }
}

/// What the sequences say.
pub open spec fn seqs_view(v: Seq<Vec<(u8, u8)>>) -> Seq<Seq<(u8, u8)>> {
    Seq::new(v.len(), |i: int| v[i]@)
}

/// A byte range and `n` free continuation bytes.
pub open spec fn free(lo: u8, hi: u8, n: nat) -> Seq<(u8, u8)> {
    seq![(lo, hi)] + Seq::new(n, |i: int| (0x80u8, 0xBFu8))
}

/// The byte in front of each sequence.
pub open spec fn led(b: u8, l: Seq<Seq<(u8, u8)>>) -> Seq<Seq<(u8, u8)>> {
    Seq::new(l.len(), |i: int| seq![(b, b)] + l[i])
}

/// Every byte is the given one.
pub open spec fn all_are(s: Seq<u8>, b: u8) -> bool {
    forall|i: int| 0 <= i < s.len() ==> #[trigger] s[i] == b
}

/// The bytes between `s` and `e` as sequences of byte ranges. A range whose
/// continuation bytes are free is one sequence. Otherwise the part with the
/// first byte of `s` comes first, that with the first byte of `e` comes last,
/// and what is between them is one sequence.
pub open spec fn byte_splits(s: Seq<u8>, e: Seq<u8>) -> Seq<Seq<(u8, u8)>>
    decreases s.len(),
{
    if s.len() == 0 || e.len() != s.len() {
        Seq::empty()
    } else {
        let n = (s.len() - 1) as nat;
        if all_are(s.skip(1), 0x80) && all_are(e.skip(1), 0xBF) {
            seq![free(s[0], e[0], n)]
        } else if s[0] == e[0] {
            led(s[0], byte_splits(s.skip(1), e.skip(1)))
        } else {
            let lower = led(s[0], byte_splits(s.skip(1), Seq::new(n, |i: int| 0xBFu8)));
            let middle = if s[0] + 1 < e[0] {
                seq![free((s[0] + 1) as u8, (e[0] - 1) as u8, n)]
            } else {
                Seq::empty()
            };
            let upper = led(e[0], byte_splits(Seq::new(n, |i: int| 0x80u8), e.skip(1)));
            lower + middle + upper
        }
    }
}

/// The last codepoint whose encoding is as long as that of `c`.
pub open spec fn longest_at(c: u32) -> u32 {
    if c <= 0x7F {
        0x7F
    } else if c <= 0x7FF {
        0x7FF
    } else if c <= 0xFFFF {
        0xFFFF
    } else {
        MAX_CODEPOINT
    }
}

/// The encodings of `lo..=hi` as sequences of byte ranges, short encodings
/// first.
pub open spec fn range_splits(lo: u32, hi: u32) -> Seq<Seq<(u8, u8)>>
    decreases 0x110000 - lo,
{
    if lo > hi || hi > MAX_CODEPOINT {
        Seq::empty()
    } else {
        let end = longest_at(lo);
        let last = if hi <= end {
            hi
        } else {
            end
        };
        byte_splits(vstd::utf8::encode_scalar(lo), vstd::utf8::encode_scalar(last)) + range_splits(
            (end + 1) as u32,
            hi,
        )
    }
}

/// Those of the first `n` ranges.
pub open spec fn all_splits(ranges: Seq<(u32, u32)>, n: nat) -> Seq<Seq<(u8, u8)>>
    decreases n,
{
    if n == 0 || n > ranges.len() {
        Seq::empty()
    } else {
        all_splits(ranges, (n - 1) as nat) + range_splits(ranges[n - 1].0, ranges[n - 1].1)
    }
}

/// Prepends a byte range to every sequence.
fn prepend(lo: u8, hi: u8, sub: Vec<Vec<(u8, u8)>>, out: &mut Vec<Vec<(u8, u8)>>)
    ensures
        lo == hi ==> seqs_view(final(out)@) == seqs_view(old(out)@) + led(lo, seqs_view(sub@)),
        forall|w: Seq<u8>| #[trigger]
            any_ranges_lang(final(out)@, w) <==> any_ranges_lang(old(out)@, w) || (w.len() > 0
                && lo <= w[0] <= hi && any_ranges_lang(sub@, w.skip(1))),
{
    let ghost before = out@;
    let mut k: usize = 0;
    while k < sub.len()
        invariant
            k <= sub@.len(),
            lo == hi ==> seqs_view(out@) == seqs_view(before) + led(
                lo,
                seqs_view(sub@).take(k as int),
            ),
            forall|w: Seq<u8>| #[trigger]
                any_ranges_lang(out@, w) <==> any_ranges_lang(before, w) || (w.len() > 0 && lo
                    <= w[0] <= hi && first_ranges_lang(sub@, k as int, w.skip(1))),
        decreases sub@.len() - k,
    {
        let mut seq: Vec<(u8, u8)> = Vec::new();
        seq.push((lo, hi));
        let mut i: usize = 0;
        while i < sub[k].len()
            invariant
                k < sub@.len(),
                i <= sub@[k as int]@.len(),
                seq@ == seq![(lo, hi)] + sub@[k as int]@.take(i as int),
            decreases sub@[k as int]@.len() - i,
        {
            seq.push(sub[k][i]);
            i += 1;
            assert(seq@ =~= seq![(lo, hi)] + sub@[k as int]@.take(i as int));
        }
        let ghost cur = out@;
        let ghost s1 = seq@;
        let ghost t1 = sub@[k as int]@;
        assert(s1 =~= seq![(lo, hi)] + t1);
        out.push(seq);
        proof {
            if lo == hi {
                assert(seqs_view(out@) =~= seqs_view(cur).push(s1));
                assert(led(lo, seqs_view(sub@).take(k + 1)) =~= led(
                    lo,
                    seqs_view(sub@).take(k as int),
                ).push(s1));
                assert(seqs_view(out@) =~= seqs_view(before) + led(
                    lo,
                    seqs_view(sub@).take(k + 1),
                ));
            }
        }
        proof {
            assert forall|w: Seq<u8>| #[trigger]
                any_ranges_lang(out@, w) <==> any_ranges_lang(before, w) || (w.len() > 0 && lo
                    <= w[0] <= hi && first_ranges_lang(sub@, k + 1, w.skip(1))) by {
                lemma_any_push(cur, seq, w);
                assert(ranges_lang(s1, w) <==> w.len() > 0 && lo <= w[0] <= hi && ranges_lang(
                    t1,
                    w.skip(1),
                )) by {
                    if ranges_lang(s1, w) {
                        assert(s1[0] == (lo, hi));
                        assert forall|i: int| 0 <= i < t1.len() implies (#[trigger] t1[i]).0
                            <= w.skip(1)[i] <= t1[i].1 by {
                            assert(s1[i + 1] == t1[i]);
                        }
                    }
                    if w.len() > 0 && lo <= w[0] <= hi && ranges_lang(t1, w.skip(1)) {
                        assert forall|i: int| 0 <= i < s1.len() implies (#[trigger] s1[i]).0
                            <= w[i] <= s1[i].1 by {
                            if i > 0 {
                                assert(t1[i - 1].0 <= w.skip(1)[i - 1] <= t1[i - 1].1);
                            }
                        }
                    }
                }
                if first_ranges_lang(sub@, k + 1, w.skip(1)) {
                    let i = choose|i: int| 0 <= i < k + 1 && #[trigger] ranges_lang(
                        sub@[i]@,
                        w.skip(1),
                    );
                    if i < k {
                        assert(first_ranges_lang(sub@, k as int, w.skip(1)));
                    }
                }
                if first_ranges_lang(sub@, k as int, w.skip(1)) {
                    let i = choose|i: int| 0 <= i < k && #[trigger] ranges_lang(
                        sub@[i]@,
                        w.skip(1),
                    );
                    assert(ranges_lang(sub@[i]@, w.skip(1)));
                }
                if ranges_lang(t1, w.skip(1)) {
                    assert(ranges_lang(sub@[k as int]@, w.skip(1)));
                }
            }
        }
        k += 1;
    }
}

proof fn lemma_any_push(seqs: Seq<Vec<(u8, u8)>>, seq: Vec<(u8, u8)>, w: Seq<u8>)
    ensures
        any_ranges_lang(seqs.push(seq), w) <==> any_ranges_lang(seqs, w) || ranges_lang(seq@, w),
{
    let t = seqs.push(seq);
    if any_ranges_lang(seqs, w) {
        let i = choose|i: int| 0 <= i < seqs.len() && #[trigger] ranges_lang(seqs[i]@, w);
        assert(ranges_lang(t[i]@, w));
    }
    if ranges_lang(seq@, w) {
        assert(ranges_lang(t[seqs.len() as int]@, w));
    }
    if any_ranges_lang(t, w) {
        let i = choose|i: int| 0 <= i < t.len() && #[trigger] ranges_lang(t[i]@, w);
        if i < seqs.len() {
            assert(ranges_lang(seqs[i]@, w));
        }
    }
}

/// A byte range followed by `n` unconstrained continuation bytes.
fn free_tail(lo: u8, hi: u8, n: usize) -> (seq: Vec<(u8, u8)>)
    ensures
        seq@ == free(lo, hi, n as nat),
        forall|w: Seq<u8>| #[trigger]
            ranges_lang(seq@, w) <==> w.len() == n + 1 && lo <= w[0] <= hi && all_cont(w.skip(1)),
{
    let mut seq: Vec<(u8, u8)> = Vec::new();
    seq.push((lo, hi));
    let mut i: usize = 0;
    while i < n
        invariant
            i <= n,
            seq@.len() == i + 1,
            seq@[0] == (lo, hi),
            forall|k: int| 1 <= k <= i ==> #[trigger] seq@[k] == (0x80u8, 0xBFu8),
        decreases n - i,
    {
        seq.push((0x80, 0xBF));
        i += 1;
    }
    proof {
        assert(seq@ =~= free(lo, hi, n as nat));
        assert forall|w: Seq<u8>| #[trigger]
            ranges_lang(seq@, w) <==> w.len() == n + 1 && lo <= w[0] <= hi && all_cont(
                w.skip(1),
            ) by {
            if ranges_lang(seq@, w) {
                assert(seq@[0] == (lo, hi));
                assert forall|k: int| 0 <= k < w.skip(1).len() implies 0x80 <= #[trigger] w.skip(
                    1,
                )[k] <= 0xBF by {
                    assert(seq@[k + 1] == (0x80u8, 0xBFu8));
                    assert(w.skip(1)[k] == w[k + 1]);
                }
            }
            if w.len() == n + 1 && lo <= w[0] <= hi && all_cont(w.skip(1)) {
                assert forall|k: int| 0 <= k < seq@.len() implies (#[trigger] seq@[k]).0 <= w[k]
                    <= seq@[k].1 by {
                    if k > 0 {
                        assert(0x80 <= w.skip(1)[k - 1] <= 0xBF);
                    }
                }
            }
        }
    }
    seq
}

/// The bytes behind the first.
fn tail(s: &Vec<u8>) -> (t: Vec<u8>)
    requires
        s@.len() > 0,
    ensures
        t@ == s@.skip(1),
{
    let mut t: Vec<u8> = Vec::new();
    let mut i: usize = 1;
    while i < s.len()
        invariant
            1 <= i <= s@.len(),
            t@ == s@.subrange(1, i as int),
        decreases s@.len() - i,
    {
        t.push(s[i]);
        i += 1;
        assert(t@ =~= s@.subrange(1, i as int));
    }
    assert(t@ =~= s@.skip(1));
    t
}

/// `n` copies of one byte.
fn repeat(b: u8, n: usize) -> (t: Vec<u8>)
    ensures
        t@.len() == n,
        forall|i: int| 0 <= i < n ==> #[trigger] t@[i] == b,
{
    let mut t: Vec<u8> = Vec::new();
    let mut i: usize = 0;
    while i < n
        invariant
            i <= n,
            t@.len() == i,
            forall|k: int| 0 <= k < i ==> #[trigger] t@[k] == b,
        decreases n - i,
    {
        t.push(b);
        i += 1;
    }
    t
}

/// Every byte behind the first is `b`.
fn tail_is(s: &Vec<u8>, b: u8) -> (r: bool)
    requires
        s@.len() > 0,
    ensures
        r <==> forall|i: int| 1 <= i < s@.len() ==> #[trigger] s@[i] == b,
{
    let mut i: usize = 1;
    while i < s.len()
        invariant
            1 <= i <= s@.len(),
            forall|k: int| 1 <= k < i ==> #[trigger] s@[k] == b,
        decreases s@.len() - i,
    {
        if s[i] != b {
            return false;
        }
        i += 1;
    }
    true
}

proof fn lemma_all_are(s: Seq<u8>, b: u8)
    requires
        s.len() > 0,
    ensures
        all_are(s.skip(1), b) <==> forall|i: int| 1 <= i < s.len() ==> #[trigger] s[i] == b,
{
    if all_are(s.skip(1), b) {
        assert forall|i: int| 1 <= i < s.len() implies #[trigger] s[i] == b by {
            assert(s.skip(1)[i - 1] == b);
        }
    }
    if forall|i: int| 1 <= i < s.len() ==> #[trigger] s[i] == b {
        assert forall|i: int| 0 <= i < s.skip(1).len() implies #[trigger] s.skip(1)[i] == b by {
            assert(s[i + 1] == b);
        }
    }
}

/// Decompose `[s, e]` (byte strings of one length with continuation bytes
/// behind the first) into sequences that together match every string between
/// them. Where the trailing bytes are unconstrained the whole range is one
/// sequence; otherwise a lower piece with the first byte of `s`, a middle
/// piece with the first bytes strictly between and free trailing bytes, and an
/// upper piece with the first byte of `e`.
fn split_seqs(s: &Vec<u8>, e: &Vec<u8>, out: &mut Vec<Vec<(u8, u8)>>)
    requires
        s@.len() > 0,
        s@.len() == e@.len(),
        all_cont(s@.skip(1)),
        all_cont(e@.skip(1)),
        lex_le(s@, e@),
    ensures
        seqs_view(final(out)@) == seqs_view(old(out)@) + byte_splits(s@, e@),
        forall|w: Seq<u8>| #[trigger]
            any_ranges_lang(final(out)@, w) <==> any_ranges_lang(old(out)@, w) || in_between(
                s@,
                e@,
                w,
            ),
    decreases s@.len(),
{
    let n = s.len();
    let ghost before = out@;
    if tail_is(s, 0x80) && tail_is(e, 0xBF) {
        let seq = free_tail(s[0], e[0], n - 1);
        out.push(seq);
        proof {
            lemma_all_are(s@, 0x80);
            lemma_all_are(e@, 0xBF);
            assert(seqs_view(out@) =~= seqs_view(before) + byte_splits(s@, e@));
            assert forall|w: Seq<u8>| #[trigger]
                any_ranges_lang(out@, w) <==> any_ranges_lang(before, w) || in_between(
                    s@,
                    e@,
                    w,
                ) by {
                lemma_any_push(before, seq, w);
                lemma_free_between(s@, e@, w);
            }
        }
        return;
    }
    let s1 = tail(s);
    let e1 = tail(e);
    if n == 1 {
        proof {
            assert(forall|i: int| 1 <= i < s@.len() ==> s@[i] == 0x80u8);
            assert(forall|i: int| 1 <= i < e@.len() ==> e@[i] == 0xBFu8);
        }
        return;
    }
    proof {
        lemma_skip_cont(s1@);
        lemma_skip_cont(e1@);
    }
    if s[0] == e[0] {
        let mut sub: Vec<Vec<(u8, u8)>> = Vec::new();
        split_seqs(&s1, &e1, &mut sub);
        prepend(s[0], s[0], sub, out);
        proof {
            lemma_all_are(s@, 0x80);
            lemma_all_are(e@, 0xBF);
            assert(seqs_view(sub@) =~= byte_splits(s1@, e1@));
            assert forall|w: Seq<u8>| #[trigger]
                any_ranges_lang(out@, w) <==> any_ranges_lang(before, w) || in_between(
                    s@,
                    e@,
                    w,
                ) by {
                assert(any_ranges_lang(sub@, w.skip(1)) == in_between(s1@, e1@, w.skip(1)));
                if w.len() == n {
                    assert(all_cont(w.skip(1)) ==> all_cont(w.skip(1).skip(1))) by {
                        if all_cont(w.skip(1)) {
                            lemma_skip_cont(w.skip(1));
                        }
                    }
                    if in_between(s1@, e1@, w.skip(1)) {
                        lemma_first_cont(s1@, e1@, w.skip(1));
                    }
                }
            }
        }
        return;
    }
    let upper_of_lower = repeat(0xBF, n - 1);
    let mut lower: Vec<Vec<(u8, u8)>> = Vec::new();
    proof {
        lemma_lex_low(s1@, upper_of_lower@);
        assert(all_cont(upper_of_lower@.skip(1)));
    }
    split_seqs(&s1, &upper_of_lower, &mut lower);
    prepend(s[0], s[0], lower, out);
    let ghost out1 = out@;
    if s[0] + 1 < e[0] {
        let seq = free_tail(s[0] + 1, e[0] - 1, n - 1);
        out.push(seq);
        proof {
            assert(seqs_view(out@) =~= seqs_view(out1).push(seq@));
            assert forall|w: Seq<u8>| #[trigger]
                any_ranges_lang(out@, w) <==> any_ranges_lang(out1, w) || (w.len() == n && s@[0]
                    < w[0] < e@[0] && all_cont(w.skip(1))) by {
                lemma_any_push(out1, seq, w);
            }
        }
    }
    let ghost out2 = out@;
    let lower_of_upper = repeat(0x80, n - 1);
    let mut upper: Vec<Vec<(u8, u8)>> = Vec::new();
    proof {
        lemma_lex_low(lower_of_upper@, e1@);
        assert(all_cont(lower_of_upper@.skip(1)));
    }
    split_seqs(&lower_of_upper, &e1, &mut upper);
    prepend(e[0], e[0], upper, out);
    proof {
        lemma_all_are(s@, 0x80);
        lemma_all_are(e@, 0xBF);
        let m = (n - 1) as nat;
        assert(upper_of_lower@ =~= Seq::new(m, |i: int| 0xBFu8));
        assert(lower_of_upper@ =~= Seq::new(m, |i: int| 0x80u8));
        assert(seqs_view(lower@) =~= byte_splits(s1@, upper_of_lower@));
        assert(seqs_view(upper@) =~= byte_splits(lower_of_upper@, e1@));
        assert(seqs_view(out@) =~= seqs_view(before) + byte_splits(s@, e@));
        assert forall|w: Seq<u8>| #[trigger]
            any_ranges_lang(out@, w) <==> any_ranges_lang(before, w) || in_between(
                s@,
                e@,
                w,
            ) by {
            let v = w.skip(1);
            assert(any_ranges_lang(out2, w) <==> any_ranges_lang(out1, w) || (w.len() == n && s@[0]
                < w[0] < e@[0] && all_cont(w.skip(1))));
            assert(any_ranges_lang(out1, w) <==> any_ranges_lang(before, w) || (w.len() > 0 && s@[0]
                <= w[0] <= s@[0] && any_ranges_lang(lower@, v)));
            assert(any_ranges_lang(lower@, v) == in_between(s1@, upper_of_lower@, v));
            assert(any_ranges_lang(upper@, v) == in_between(lower_of_upper@, e1@, v));
            if w.len() == n {
                if all_cont(v) {
                    lemma_skip_cont(v);
                    lemma_lex_low(v, upper_of_lower@);
                    lemma_lex_low(lower_of_upper@, v);
                }
                if in_between(s1@, upper_of_lower@, v) {
                    lemma_first_cont(s1@, upper_of_lower@, v);
                }
                if in_between(lower_of_upper@, e1@, v) {
                    lemma_first_cont(lower_of_upper@, e1@, v);
                }
            }
        }
    }
}

/// Between two strings of continuation bytes lie strings of continuation bytes.
proof fn lemma_first_cont(s: Seq<u8>, e: Seq<u8>, v: Seq<u8>)
    requires
        s.len() > 0,
        s.len() == e.len(),
        all_cont(s),
        all_cont(e),
        in_between(s, e, v),
    ensures
        all_cont(v),
{
    assert(s[0] >= 0x80 && e[0] <= 0xBF);
    assert forall|i: int| 0 <= i < v.len() implies 0x80 <= #[trigger] v[i] <= 0xBF by {
        if i > 0 {
            assert(v.skip(1)[i - 1] == v[i]);
        }
    }
}

/// With the least and the greatest trailing bytes only the first byte counts.
proof fn lemma_free_between(s: Seq<u8>, e: Seq<u8>, w: Seq<u8>)
    requires
        s.len() > 0,
        s.len() == e.len(),
        forall|i: int| 1 <= i < s.len() ==> #[trigger] s[i] == 0x80,
        forall|i: int| 1 <= i < e.len() ==> #[trigger] e[i] == 0xBF,
    ensures
        in_between(s, e, w) <==> w.len() == s.len() && s[0] <= w[0] <= e[0] && all_cont(w.skip(1)),
{
    if w.len() == s.len() && all_cont(w.skip(1)) {
        lemma_lex_low(s.skip(1), w.skip(1));
        lemma_lex_low(w.skip(1), e.skip(1));
    }
}

/// The UTF-8 encoding of a scalar value.
pub fn encode(c: u32) -> (r: Vec<u8>)
    requires
        vstd::utf8::is_scalar(c),
    ensures
        r@ == vstd::utf8::encode_scalar(c),
{
    proof {
        lemma_encode(c);
    }
    let mut r: Vec<u8> = Vec::new();
    if c <= 0x7F {
        r.push(c as u8);
    } else if c <= 0x7FF {
        r.push((0xC0 + c / 64) as u8);
        r.push((0x80 + c % 64) as u8);
    } else if c <= 0xFFFF {
        r.push((0xE0 + c / 4096) as u8);
        r.push((0x80 + c / 64 % 64) as u8);
        r.push((0x80 + c % 64) as u8);
    } else {
        r.push((0xF0 + c / 262144) as u8);
        r.push((0x80 + c / 4096 % 64) as u8);
        r.push((0x80 + c / 64 % 64) as u8);
        r.push((0x80 + c % 64) as u8);
    }
    assert(r@ =~= vstd::utf8::encode_scalar(c));
    r
}

/// The bytes of an encoding, by division.
proof fn lemma_encode(c: u32)
    requires
        vstd::utf8::is_scalar(c),
    ensures
        c <= 0x7F ==> vstd::utf8::encode_scalar(c) =~= seq![c as u8],
        0x80 <= c <= 0x7FF ==> vstd::utf8::encode_scalar(c) =~= seq![
            (0xC0 + c / 64) as u8,
            (0x80 + c % 64) as u8,
        ],
        0x800 <= c <= 0xFFFF ==> vstd::utf8::encode_scalar(c) =~= seq![
            (0xE0 + c / 4096) as u8,
            (0x80 + c / 64 % 64) as u8,
            (0x80 + c % 64) as u8,
        ],
        0x10000 <= c ==> vstd::utf8::encode_scalar(c) =~= seq![
            (0xF0 + c / 262144) as u8,
            (0x80 + c / 4096 % 64) as u8,
            (0x80 + c / 64 % 64) as u8,
            (0x80 + c % 64) as u8,
        ],
{
    if c <= 0x7F {
        assert((c & 0x7F) as u8 == c as u8) by (bit_vector)
            requires
                c <= 0x7F,
        ;
    } else if c <= 0x7FF {
        assert((0xC0u8 | ((c >> 6) & 0x1F) as u8) == (0xC0 + c / 64) as u8) by (bit_vector)
            requires
                c <= 0x7FF,
        ;
        assert((0x80u8 | (c & 0x3F) as u8) == (0x80 + c % 64) as u8) by (bit_vector);
    } else if c <= 0xFFFF {
        assert((0xE0u8 | ((c >> 12) & 0x0F) as u8) == (0xE0 + c / 4096) as u8) by (bit_vector)
            requires
                c <= 0xFFFF,
        ;
        assert((0x80u8 | ((c >> 6) & 0x3F) as u8) == (0x80 + c / 64 % 64) as u8) by (bit_vector);
        assert((0x80u8 | (c & 0x3F) as u8) == (0x80 + c % 64) as u8) by (bit_vector);
    } else {
        assert((0xF0u8 | ((c >> 18) & 0x7) as u8) == (0xF0 + c / 262144) as u8) by (bit_vector)
            requires
                c <= 0x10FFFF,
        ;
        assert((0x80u8 | ((c >> 12) & 0x3F) as u8) == (0x80 + c / 4096 % 64) as u8) by (bit_vector);
        assert((0x80u8 | ((c >> 6) & 0x3F) as u8) == (0x80 + c / 64 % 64) as u8) by (bit_vector);
        assert((0x80u8 | (c & 0x3F) as u8) == (0x80 + c % 64) as u8) by (bit_vector);
    }
}

/// The number of bytes of an encoding.
pub fn utf8_len(c: u32) -> (r: usize)
    requires
        vstd::utf8::is_scalar(c),
    ensures
        r == vstd::utf8::encode_scalar(c).len(),
{
    if c <= 0x7F {
        1
    } else if c <= 0x7FF {
        2
    } else if c <= 0xFFFF {
        3
    } else {
        4
    }
}

/// Two values with encodings of one length, with no surrogate between them.
spec fn same_len(lo: u32, hi: u32) -> bool {
    &&& lo <= hi
    &&& hi <= 0x7F || (0x80 <= lo && hi <= 0x7FF) || (0x800 <= lo && hi <= 0xFFFF && (hi < 0xD800
        || lo > 0xDFFF)) || (0x10000 <= lo && hi <= 0x10FFFF)
}

/// The strings between two encodings of one length are the encodings of the
/// values between.
proof fn lemma_between(lo: u32, hi: u32, w: Seq<u8>)
    requires
        same_len(lo, hi),
    ensures
        in_between(vstd::utf8::encode_scalar(lo), vstd::utf8::encode_scalar(hi), w) <==> encodes_range(
            lo,
            hi,
            w,
        ),
{
    let s = vstd::utf8::encode_scalar(lo);
    let e = vstd::utf8::encode_scalar(hi);
    lemma_encode(lo);
    lemma_encode(hi);
    if encodes_range(lo, hi, w) {
        let cp = choose|cp: u32| lo <= cp <= hi && w == #[trigger] vstd::utf8::encode_scalar(cp);
        lemma_encode(cp);
        lemma_lex_by_value(s, w, lo, cp);
        lemma_lex_by_value(w, e, cp, hi);
        assert(all_cont(w.skip(1)));
    }
    if in_between(s, e, w) {
        lemma_cont_bytes(w);
        let cp = byte_value(w);
        lemma_value_bounds(lo, hi, w);
        lemma_rebuild(w, cp as u32);
    }
}

/// The value that up to four bytes encode.
spec fn byte_value(w: Seq<u8>) -> int {
    if w.len() == 1 {
        w[0] as int
    } else if w.len() == 2 {
        (w[0] - 0xC0) * 64 + (w[1] - 0x80)
    } else if w.len() == 3 {
        (w[0] - 0xE0) * 4096 + (w[1] - 0x80) * 64 + (w[2] - 0x80)
    } else {
        (w[0] - 0xF0) * 262144 + (w[1] - 0x80) * 4096 + (w[2] - 0x80) * 64 + (w[3] - 0x80)
    }
}

/// A value is encoded by the bytes that it was computed from.
proof fn lemma_rebuild(w: Seq<u8>, cp: u32)
    requires
        1 <= w.len() <= 4,
        forall|i: int| 1 <= i < w.len() ==> 0x80 <= #[trigger] w[i] <= 0xBF,
        cp == byte_value(w),
        vstd::utf8::is_scalar(cp),
        w.len() == vstd::utf8::encode_scalar(cp).len(),
    ensures
        w == vstd::utf8::encode_scalar(cp),
{
    lemma_encode(cp);
    if w.len() == 2 {
        let (a, b) = (w[0] - 0xC0, w[1] - 0x80);
        assert(cp == a * 64 + b && 0 <= b < 64);
        assert(cp / 64 == a && cp % 64 == b);
    } else if w.len() == 3 {
        let (a, b, c) = (w[0] - 0xE0, w[1] - 0x80, w[2] - 0x80);
        assert(cp == a * 4096 + b * 64 + c && 0 <= b < 64 && 0 <= c < 64);
        assert(cp / 4096 == a);
        assert(cp / 64 == a * 64 + b);
        assert(cp / 64 % 64 == b);
        assert(cp % 64 == c);
    } else if w.len() == 4 {
        let (a, b, c, d) = (w[0] - 0xF0, w[1] - 0x80, w[2] - 0x80, w[3] - 0x80);
        assert(cp == a * 262144 + b * 4096 + c * 64 + d && 0 <= b < 64 && 0 <= c < 64 && 0 <= d
            < 64);
        assert(cp / 262144 == a);
        assert(cp / 4096 == a * 64 + b);
        assert(cp / 4096 % 64 == b);
        assert(cp / 64 == a * 4096 + b * 64 + c);
        assert(cp / 64 % 64 == c);
        assert(cp % 64 == d);
    }
    assert(w =~= vstd::utf8::encode_scalar(cp));
}

/// The bytes behind the first, one by one.
proof fn lemma_cont_bytes(w: Seq<u8>)
    requires
        all_cont(w.skip(1)),
    ensures
        forall|i: int| 1 <= i < w.len() ==> 0x80 <= #[trigger] w[i] <= 0xBF,
{
    assert forall|i: int| 1 <= i < w.len() implies 0x80 <= #[trigger] w[i] <= 0xBF by {
        assert(w.skip(1)[i - 1] == w[i]);
    }
}

/// The order of two strings of up to four bytes, spelled out.
proof fn lemma_lex_unfold(s: Seq<u8>, w: Seq<u8>)
    requires
        1 <= s.len() <= 4,
        s.len() == w.len(),
    ensures
        s.len() == 1 ==> (lex_le(s, w) <==> s[0] <= w[0]),
        s.len() == 2 ==> (lex_le(s, w) <==> s[0] < w[0] || (s[0] == w[0] && s[1] <= w[1])),
        s.len() == 3 ==> (lex_le(s, w) <==> s[0] < w[0] || (s[0] == w[0] && (s[1] < w[1] || (s[1]
            == w[1] && s[2] <= w[2])))),
        s.len() == 4 ==> (lex_le(s, w) <==> s[0] < w[0] || (s[0] == w[0] && (s[1] < w[1] || (s[1]
            == w[1] && (s[2] < w[2] || (s[2] == w[2] && s[3] <= w[3])))))),
{
    reveal_with_fuel(lex_le, 5);
}

/// Strings of one length are ordered as the values that they encode are.
proof fn lemma_lex_value(s: Seq<u8>, w: Seq<u8>)
    requires
        1 <= s.len() <= 4,
        s.len() == w.len(),
        forall|i: int| 1 <= i < s.len() ==> 0x80 <= #[trigger] s[i] <= 0xBF,
        forall|i: int| 1 <= i < w.len() ==> 0x80 <= #[trigger] w[i] <= 0xBF,
    ensures
        lex_le(s, w) <==> byte_value(s) <= byte_value(w),
{
    lemma_lex_unfold(s, w);
}

/// An encoding, read back.
proof fn lemma_value(c: u32)
    requires
        vstd::utf8::is_scalar(c),
    ensures
        1 <= vstd::utf8::encode_scalar(c).len() <= 4,
        forall|i: int|
            1 <= i < vstd::utf8::encode_scalar(c).len() ==> 0x80
                <= #[trigger] vstd::utf8::encode_scalar(c)[i] <= 0xBF,
        byte_value(vstd::utf8::encode_scalar(c)) == c,
{
    if c <= 0x7FF {
        lemma_encode(c);
    } else if c <= 0xFFFF {
        lemma_value_3(c);
    } else {
        lemma_value_4(c);
    }
}

/// Encodings of one length are ordered as the values are.
proof fn lemma_lex_by_value(s: Seq<u8>, w: Seq<u8>, a: u32, b: u32)
    requires
        same_len(a, b),
        s == vstd::utf8::encode_scalar(a),
        w == vstd::utf8::encode_scalar(b),
    ensures
        lex_le(s, w),
{
    lemma_value(a);
    lemma_value(b);
    lemma_lex_value(s, w);
}

/// A string between two encodings of one length has a value between theirs.
proof fn lemma_value_bounds(lo: u32, hi: u32, w: Seq<u8>)
    requires
        same_len(lo, hi),
        in_between(vstd::utf8::encode_scalar(lo), vstd::utf8::encode_scalar(hi), w),
        forall|i: int| 1 <= i < w.len() ==> 0x80 <= #[trigger] w[i] <= 0xBF,
    ensures
        lo <= byte_value(w) <= hi,
        w.len() == vstd::utf8::encode_scalar(lo).len(),
        1 <= w.len() <= 4,
{
    let s = vstd::utf8::encode_scalar(lo);
    let e = vstd::utf8::encode_scalar(hi);
    lemma_value(lo);
    lemma_value(hi);
    lemma_lex_value(s, w);
    lemma_lex_value(w, e);
}

proof fn lemma_value_3(c: u32)
    requires
        0x800 <= c <= 0xFFFF,
        vstd::utf8::is_scalar(c),
    ensures
        vstd::utf8::encode_scalar(c).len() == 3,
        forall|i: int| 1 <= i < 3 ==> 0x80 <= #[trigger] vstd::utf8::encode_scalar(c)[i] <= 0xBF,
        byte_value(vstd::utf8::encode_scalar(c)) == c,
{
    lemma_encode(c);
    assert(c == c / 4096 * 4096 + c / 64 % 64 * 64 + c % 64);
}

proof fn lemma_value_4(c: u32)
    requires
        0x10000 <= c <= 0x10FFFF,
    ensures
        vstd::utf8::encode_scalar(c).len() == 4,
        forall|i: int| 1 <= i < 4 ==> 0x80 <= #[trigger] vstd::utf8::encode_scalar(c)[i] <= 0xBF,
        byte_value(vstd::utf8::encode_scalar(c)) == c,
{
    lemma_encode(c);
    assert(c == c / 262144 * 262144 + c / 4096 % 64 * 4096 + c / 64 % 64 * 64 + c % 64);
}

/// Appends the sequences that match the encodings of `lo..=hi`.
fn emit_same_len(lo: u32, hi: u32, out: &mut Vec<Vec<(u8, u8)>>)
    requires
        same_len(lo, hi),
    ensures
        seqs_view(final(out)@) == seqs_view(old(out)@) + byte_splits(
            vstd::utf8::encode_scalar(lo),
            vstd::utf8::encode_scalar(hi),
        ),
        forall|w: Seq<u8>| #[trigger]
            any_ranges_lang(final(out)@, w) <==> any_ranges_lang(old(out)@, w) || encodes_range(
                lo,
                hi,
                w,
            ),
{
    let s = encode(lo);
    let e = encode(hi);
    proof {
        lemma_encode(lo);
        lemma_encode(hi);
        lemma_lex_by_value(s@, e@, lo, hi);
        assert(all_cont(s@.skip(1)));
        assert(all_cont(e@.skip(1)));
    }
    split_seqs(&s, &e, out);
    proof {
        assert forall|w: Seq<u8>| #[trigger]
            any_ranges_lang(out@, w) <==> any_ranges_lang(old(out)@, w) || encodes_range(lo, hi, w) by {
            lemma_between(lo, hi, w);
        }
    }
}

/// Append the byte sequences that match the encodings of every codepoint in
/// `[lo, hi]` to `out`. The range holds no surrogate.
pub fn utf8_byte_sequences(lo: u32, hi: u32, out: &mut Vec<Vec<(u8, u8)>>)
    requires
        hi <= MAX_CODEPOINT,
        hi < SURROGATE_LO || lo > SURROGATE_HI,
    ensures
        seqs_view(final(out)@) == seqs_view(old(out)@) + range_splits(lo, hi),
        forall|w: Seq<u8>| #[trigger]
            any_ranges_lang(final(out)@, w) <==> any_ranges_lang(old(out)@, w) || encodes_range(
                lo,
                hi,
                w,
            ),
{
    let ghost before = out@;
    if lo > hi {
        assert(seqs_view(out@) =~= seqs_view(before) + range_splits(lo, hi));
        return;
    }
    let mut cursor: u32 = lo;
    while cursor <= hi
        invariant
            lo <= cursor <= 0x110000,
            hi <= MAX_CODEPOINT,
            hi < SURROGATE_LO || lo > SURROGATE_HI,
            seqs_view(out@) + range_splits(cursor, hi) == seqs_view(before) + range_splits(lo, hi),
            forall|w: Seq<u8>| #[trigger]
                any_ranges_lang(out@, w) <==> any_ranges_lang(before, w) || encodes_upto(
                    lo,
                    hi,
                    cursor,
                    w,
                ),
        decreases 0x110000 - cursor,
    {
        let break_at: u32 = if cursor <= 0x7F {
            0x7F
        } else if cursor <= 0x7FF {
            0x7FF
        } else if cursor <= 0xFFFF {
            0xFFFF
        } else {
            MAX_CODEPOINT
        };
        let chunk_hi = if hi <= break_at {
            hi
        } else {
            break_at
        };
        let ghost cur = out@;
        emit_same_len(cursor, chunk_hi, out);
        proof {
            let here = byte_splits(
                vstd::utf8::encode_scalar(cursor),
                vstd::utf8::encode_scalar(chunk_hi),
            );
            let rest = range_splits((break_at + 1) as u32, hi);
            assert(range_splits(cursor, hi) == here + rest);
            assert(seqs_view(cur) + (here + rest) =~= (seqs_view(cur) + here) + rest);
            assert forall|w: Seq<u8>| #[trigger]
                any_ranges_lang(out@, w) <==> any_ranges_lang(before, w) || encodes_upto(
                    lo,
                    hi,
                    (break_at + 1) as u32,
                    w,
                ) by {
                assert(any_ranges_lang(cur, w) <==> any_ranges_lang(before, w) || encodes_upto(
                    lo,
                    hi,
                    cursor,
                    w,
                ));
                if encodes_upto(lo, hi, (break_at + 1) as u32, w) {
                    let cp = choose|cp: u32|
                        lo <= cp <= hi && cp < (break_at + 1) as u32 && w
                            == #[trigger] vstd::utf8::encode_scalar(cp);
                    if cp < cursor {
                        assert(encodes_upto(lo, hi, cursor, w));
                    } else {
                        assert(encodes_range(cursor, chunk_hi, w));
                    }
                }
                if encodes_upto(lo, hi, cursor, w) {
                    let cp = choose|cp: u32|
                        lo <= cp <= hi && cp < cursor && w == #[trigger] vstd::utf8::encode_scalar(
                            cp,
                        );
                    assert(w == vstd::utf8::encode_scalar(cp));
                }
                if encodes_range(cursor, chunk_hi, w) {
                    let cp = choose|cp: u32|
                        cursor <= cp <= chunk_hi && w == #[trigger] vstd::utf8::encode_scalar(cp);
                    assert(w == vstd::utf8::encode_scalar(cp));
                }
            }
        }
        cursor = break_at + 1;
    }
    proof {
        assert(range_splits(cursor, hi) =~= Seq::empty());
        assert(seqs_view(out@) + range_splits(cursor, hi) =~= seqs_view(out@));
        assert forall|w: Seq<u8>| #[trigger]
            any_ranges_lang(out@, w) <==> any_ranges_lang(before, w) || encodes_range(
                lo,
                hi,
                w,
            ) by {
            if encodes_range(lo, hi, w) {
                let cp = choose|cp: u32|
                    lo <= cp <= hi && w == #[trigger] vstd::utf8::encode_scalar(cp);
                assert(w == vstd::utf8::encode_scalar(cp));
                assert(encodes_upto(lo, hi, cursor, w));
            }
        }
    }
}

/// `w` encodes a value of `lo..=hi`.
pub open spec fn encodes_range(lo: u32, hi: u32, w: Seq<u8>) -> bool {
    exists|cp: u32| lo <= cp <= hi && w == #[trigger] vstd::utf8::encode_scalar(cp)
}

spec fn encodes_upto(lo: u32, hi: u32, end: u32, w: Seq<u8>) -> bool {
    exists|cp: u32| lo <= cp <= hi && cp < end && w == #[trigger] vstd::utf8::encode_scalar(cp)
}

/// Some range holds `cp`.
pub open spec fn covers(ranges: Seq<(u32, u32)>, cp: u32) -> bool {
    exists|i: int| 0 <= i < ranges.len() && (#[trigger] ranges[i]).0 <= cp <= ranges[i].1
}

proof fn lemma_covers_push(ranges: Seq<(u32, u32)>, r: (u32, u32), cp: u32)
    ensures
        covers(ranges.push(r), cp) <==> covers(ranges, cp) || r.0 <= cp <= r.1,
{
    let t = ranges.push(r);
    if covers(ranges, cp) {
        let i = choose|i: int|
            0 <= i < ranges.len() && (#[trigger] ranges[i]).0 <= cp <= ranges[i].1;
        assert(t[i].0 <= cp <= t[i].1);
    }
    if r.0 <= cp <= r.1 {
        assert(t[ranges.len() as int].0 <= cp);
    }
    if covers(t, cp) {
        let i = choose|i: int| 0 <= i < t.len() && (#[trigger] t[i]).0 <= cp <= t[i].1;
        if i < ranges.len() {
            assert(ranges[i].0 <= cp <= ranges[i].1);
        }
    }
}

/// Every range is non-empty and ends at the last codepoint or before.
pub open spec fn proper(ranges: Seq<(u32, u32)>) -> bool {
    forall|i: int|
        0 <= i < ranges.len() ==> (#[trigger] ranges[i]).0 <= ranges[i].1 && ranges[i].1
            <= MAX_CODEPOINT
}

spec fn sorted(ranges: Seq<(u32, u32)>) -> bool {
    forall|i: int, j: int| 0 <= i <= j < ranges.len() ==> ranges[i].0 <= ranges[j].0
}

/// Sorted, with a gap between neighbours.
pub open spec fn separated(ranges: Seq<(u32, u32)>) -> bool {
    forall|i: int, j: int| 0 <= i < j < ranges.len() ==> ranges[i].1 + 1 < ranges[j].0
}

/// The listed codepoints as ranges in ascending order of their first.
fn listed_ranges(cc: &CharClass) -> (r: Vec<(u32, u32)>)
    ensures
        proper(r@),
        sorted(r@),
        forall|cp: u32| cp <= MAX_CODEPOINT ==> (#[trigger] covers(r@, cp) <==> cc@.listed(cp)),
{
    let mut r: Vec<(u32, u32)> = Vec::new();
    let mut k: usize = 0;
    while k < cc.items.len()
        invariant
            k <= cc.items@.len(),
            proper(r@),
            sorted(r@),
            forall|cp: u32| cp <= MAX_CODEPOINT ==> (#[trigger] covers(r@, cp) <==> exists|i: int|
                0 <= i < k && (#[trigger] cc.items@[i]).lists(cp)),
        decreases cc.items@.len() - k,
    {
        let (lo, hi): (u32, u32) = match cc.items[k] {
            ClassItem::Char(c) => (c, c),
            ClassItem::Range(lo, hi) => (lo, hi),
        };
        let ghost before = r@;
        if lo <= MAX_CODEPOINT && lo <= hi {
            let top = if hi <= MAX_CODEPOINT {
                hi
            } else {
                MAX_CODEPOINT
            };
            let mut at: usize = 0;
            while at < r.len() && r[at].0 <= lo
                invariant
                    at <= r@.len(),
                    forall|i: int| 0 <= i < at ==> (#[trigger] r@[i]).0 <= lo,
                decreases r@.len() - at,
            {
                at += 1;
            }
            r.insert(at, (lo, top));
            proof {
                lemma_insert(before, at as int, (lo, top));
                assert forall|cp: u32| cp <= MAX_CODEPOINT implies (#[trigger] covers(r@, cp)
                    <==> exists|i: int| 0 <= i < k + 1 && (#[trigger] cc.items@[i]).lists(cp)) by {
                    assert(cc.items@[k as int].lists(cp) <==> lo <= cp <= top);
                    assert(covers(r@, cp) <==> covers(before, cp) || lo <= cp <= top);
                    if exists|i: int| 0 <= i < k + 1 && (#[trigger] cc.items@[i]).lists(cp) {
                        let i = choose|i: int| 0 <= i < k + 1 && (#[trigger] cc.items@[i]).lists(cp);
                        if i < k {
                            assert(covers(before, cp));
                        }
                    }
                }
            }
        } else {
            proof {
                assert forall|cp: u32| cp <= MAX_CODEPOINT implies (#[trigger] covers(r@, cp)
                    <==> exists|i: int| 0 <= i < k + 1 && (#[trigger] cc.items@[i]).lists(cp)) by {
                    assert(!cc.items@[k as int].lists(cp));
                }
            }
        }
        k += 1;
    }
    assert(cc@.items == cc.items@);
    r
}

proof fn lemma_insert(r: Seq<(u32, u32)>, at: int, x: (u32, u32))
    requires
        0 <= at <= r.len(),
        proper(r),
        sorted(r),
        x.0 <= x.1 <= MAX_CODEPOINT,
        forall|i: int| 0 <= i < at ==> (#[trigger] r[i]).0 <= x.0,
        at < r.len() ==> x.0 < r[at].0,
    ensures
        proper(r.insert(at, x)),
        sorted(r.insert(at, x)),
        forall|cp: u32| #[trigger]
            covers(r.insert(at, x), cp) <==> covers(r, cp) || x.0 <= cp <= x.1,
{
    let t = r.insert(at, x);
    assert forall|i: int| 0 <= i < t.len() implies (#[trigger] t[i]).0 <= t[i].1 && t[i].1
        <= MAX_CODEPOINT by {
        if i < at {
            assert(t[i] == r[i]);
        } else if i > at {
            assert(t[i] == r[i - 1]);
        }
    }
    assert forall|i: int, j: int| 0 <= i <= j < t.len() implies t[i].0 <= t[j].0 by {
        if j > at {
            assert(t[j] == r[j - 1]);
            assert(r[at].0 <= r[j - 1].0);
        }
        if i > at {
            assert(t[i] == r[i - 1]);
        }
    }
    assert forall|cp: u32| #[trigger] covers(t, cp) <==> covers(r, cp) || x.0 <= cp <= x.1 by {
        if covers(r, cp) {
            let i = choose|i: int| 0 <= i < r.len() && (#[trigger] r[i]).0 <= cp <= r[i].1;
            if i < at {
                assert(t[i] == r[i]);
            } else {
                assert(t[i + 1] == r[i]);
            }
        }
        if x.0 <= cp <= x.1 {
            assert(t[at] == x);
        }
        if covers(t, cp) {
            let i = choose|i: int| 0 <= i < t.len() && (#[trigger] t[i]).0 <= cp <= t[i].1;
            if i < at {
                assert(r[i] == t[i]);
            } else if i > at {
                assert(r[i - 1] == t[i]);
            }
        }
    }
}

/// Coalesce sorted, possibly overlapping codepoint ranges into a sorted,
/// gap-separated list. Adjacent ranges merge.
fn merge_codepoint_ranges(sorted_ranges: &Vec<(u32, u32)>) -> (out: Vec<(u32, u32)>)
    requires
        proper(sorted_ranges@),
        sorted(sorted_ranges@),
    ensures
        proper(out@),
        separated(out@),
        forall|cp: u32| #[trigger] covers(out@, cp) <==> covers(sorted_ranges@, cp),
{
    let mut out: Vec<(u32, u32)> = Vec::new();
    let mut k: usize = 0;
    while k < sorted_ranges.len()
        invariant
            k <= sorted_ranges@.len(),
            proper(sorted_ranges@),
            sorted(sorted_ranges@),
            proper(out@),
            separated(out@),
            k > 0 <==> out@.len() > 0,
            forall|i: int| 0 <= i < out@.len() && 0 < k ==> (#[trigger] out@[i]).0
                <= sorted_ranges@[k - 1].0,
            forall|cp: u32| #[trigger]
                covers(out@, cp) <==> covers(sorted_ranges@.take(k as int), cp),
        decreases sorted_ranges@.len() - k,
    {
        let (lo, hi) = sorted_ranges[k];
        let ghost before = out@;
        let n = out.len();
        if n > 0 && lo <= out[n - 1].1 + 1 {
            if out[n - 1].1 < hi {
                let first = out[n - 1].0;
                out.set(n - 1, (first, hi));
            }
            proof {
                let last = before[n - 1];
                assert(last.0 <= sorted_ranges@[k - 1].0);
                assert(sorted_ranges@[k - 1].0 <= sorted_ranges@[k as int].0);
                assert forall|cp: u32| #[trigger]
                    covers(out@, cp) <==> covers(sorted_ranges@.take(k + 1), cp) by {
                    assert(sorted_ranges@.take(k + 1) =~= sorted_ranges@.take(k as int).push(
                        (lo, hi),
                    ));
                    lemma_covers_push(sorted_ranges@.take(k as int), (lo, hi), cp);
                    assert(covers(before, cp) <==> covers(sorted_ranges@.take(k as int), cp));
                    if covers(before, cp) {
                        let i = choose|i: int|
                            0 <= i < before.len() && (#[trigger] before[i]).0 <= cp <= before[i].1;
                        assert(out@[i].0 <= cp <= out@[i].1);
                    }
                    if lo <= cp <= hi {
                        assert(out@[n - 1].0 <= cp <= out@[n - 1].1);
                    }
                    if covers(out@, cp) {
                        let i = choose|i: int|
                            0 <= i < out@.len() && (#[trigger] out@[i]).0 <= cp <= out@[i].1;
                        if i < n - 1 || cp <= last.1 {
                            assert(before[i].0 <= cp <= before[i].1);
                        }
                    }
                }
            }
        } else {
            out.push((lo, hi));
            proof {
                assert forall|cp: u32| #[trigger]
                    covers(out@, cp) <==> covers(sorted_ranges@.take(k + 1), cp) by {
                    assert(sorted_ranges@.take(k + 1) =~= sorted_ranges@.take(k as int).push(
                        (lo, hi),
                    ));
                    lemma_covers_push(sorted_ranges@.take(k as int), (lo, hi), cp);
                    lemma_covers_push(before, (lo, hi), cp);
                    assert(covers(before, cp) <==> covers(sorted_ranges@.take(k as int), cp));
                }
                if n > 0 {
                    assert forall|i: int| 0 <= i < n implies (#[trigger] before[i]).1 + 1 < lo by {
                        if i < n - 1 {
                            assert(before[i].1 + 1 < before[n - 1].0);
                        }
                    }
                }
            }
        }
        k += 1;
    }
    assert(sorted_ranges@.take(k as int) =~= sorted_ranges@);
    out
}

/// No surrogate is in a range.
pub open spec fn surrogate_free(ranges: Seq<(u32, u32)>) -> bool {
    forall|i: int|
        0 <= i < ranges.len() ==> (#[trigger] ranges[i]).1 < SURROGATE_LO || ranges[i].0
            > SURROGATE_HI
}

/// Drop the surrogates from each range, splitting ranges that straddle them.
fn exclude_surrogates(ranges: &Vec<(u32, u32)>) -> (out: Vec<(u32, u32)>)
    requires
        proper(ranges@),
        separated(ranges@),
    ensures
        proper(out@),
        separated(out@),
        surrogate_free(out@),
        forall|cp: u32| #[trigger]
            covers(out@, cp) <==> covers(ranges@, cp) && !(SURROGATE_LO <= cp <= SURROGATE_HI),
{
    let mut out: Vec<(u32, u32)> = Vec::new();
    let mut k: usize = 0;
    while k < ranges.len()
        invariant
            k <= ranges@.len(),
            proper(ranges@),
            separated(ranges@),
            proper(out@),
            separated(out@),
            k == 0 ==> out@.len() == 0,
            forall|i: int| 0 <= i < out@.len() ==> (#[trigger] out@[i]).1 <= ranges@[k - 1].1,
            surrogate_free(out@),
            forall|cp: u32| #[trigger]
                covers(out@, cp) <==> covers(ranges@.take(k as int), cp) && !(SURROGATE_LO <= cp
                    <= SURROGATE_HI),
        decreases ranges@.len() - k,
    {
        let (lo, hi) = ranges[k];
        let ghost before = out@;
        if hi < SURROGATE_LO || lo > SURROGATE_HI {
            out.push((lo, hi));
            proof {
                assert forall|cp: u32| #[trigger] covers(out@, cp) <==> covers(before, cp) || (lo
                    <= cp <= hi && !(SURROGATE_LO <= cp <= SURROGATE_HI)) by {
                    lemma_covers_push(before, (lo, hi), cp);
                }
            }
        } else {
            if lo < SURROGATE_LO {
                out.push((lo, SURROGATE_LO - 1));
            }
            let ghost mid = out@;
            proof {
                assert forall|cp: u32| #[trigger] covers(mid, cp) <==> covers(before, cp) || lo
                    <= cp < SURROGATE_LO by {
                    lemma_covers_push(before, (lo, (SURROGATE_LO - 1) as u32), cp);
                }
            }
            if hi > SURROGATE_HI {
                out.push((SURROGATE_HI + 1, hi));
            }
            proof {
                assert forall|cp: u32| #[trigger] covers(out@, cp) <==> covers(before, cp) || (lo
                    <= cp <= hi && !(SURROGATE_LO <= cp <= SURROGATE_HI)) by {
                    lemma_covers_push(mid, ((SURROGATE_HI + 1) as u32, hi), cp);
                    assert(covers(mid, cp) <==> covers(before, cp) || lo <= cp < SURROGATE_LO);
                }
            }
        }
        proof {
            assert forall|cp: u32| #[trigger]
                covers(out@, cp) <==> covers(ranges@.take(k + 1), cp) && !(SURROGATE_LO <= cp
                    <= SURROGATE_HI) by {
                assert(ranges@.take(k + 1) =~= ranges@.take(k as int).push((lo, hi)));
                lemma_covers_push(ranges@.take(k as int), (lo, hi), cp);
                assert(covers(before, cp) <==> covers(ranges@.take(k as int), cp) && !(SURROGATE_LO
                    <= cp <= SURROGATE_HI));
            }
        }
        k += 1;
    }
    assert(ranges@.take(k as int) =~= ranges@);
    out
}

/// `b` is the complement of `a` over the scalar values, in ascending order and
/// with a gap between neighbours.
pub open spec fn complements(a: Seq<(u32, u32)>, b: Seq<(u32, u32)>) -> bool {
    &&& proper(b)
    &&& separated(b)
    &&& surrogate_free(b)
    &&& forall|cp: u32| #[trigger]
        covers(b, cp) <==> cp <= MAX_CODEPOINT && !covers(a, cp) && !(SURROGATE_LO <= cp
            <= SURROGATE_HI)
}

/// Ranges in ascending order with a gap between neighbours are told by what
/// they cover.
proof fn lemma_told_by_cover(a: Seq<(u32, u32)>, b: Seq<(u32, u32)>)
    requires
        proper(a),
        separated(a),
        proper(b),
        separated(b),
        forall|cp: u32| #[trigger] covers(a, cp) <==> covers(b, cp),
    ensures
        a == b,
    decreases a.len(),
{
    if a.len() == 0 {
        if b.len() > 0 {
            assert(b[0].0 <= b[0].0 <= b[0].1);
            assert(covers(b, b[0].0));
            assert(covers(a, b[0].0));
        }
        assert(a =~= b);
    } else {
        assert(covers(a, a[0].0));
        assert(covers(b, a[0].0));
        lemma_first_no_later(a, b);
        lemma_first_no_later(b, a);
        assert(a[0] == b[0]);
        let (x, y) = (a.skip(1), b.skip(1));
        assert forall|cp: u32| #[trigger] covers(x, cp) <==> covers(y, cp) by {
            lemma_covers_rest(a, cp);
            lemma_covers_rest(b, cp);
            assert(covers(a, cp) <==> covers(b, cp));
        }
        assert(proper(x) && separated(x)) by {
            assert forall|i: int| 0 <= i < x.len() implies (#[trigger] x[i]).0 <= x[i].1 && x[i].1
                <= MAX_CODEPOINT by {
                assert(x[i] == a[i + 1]);
            }
        }
        assert(proper(y) && separated(y)) by {
            assert forall|i: int| 0 <= i < y.len() implies (#[trigger] y[i]).0 <= y[i].1 && y[i].1
                <= MAX_CODEPOINT by {
                assert(y[i] == b[i + 1]);
            }
        }
        lemma_told_by_cover(x, y);
        assert(a =~= seq![a[0]] + x);
        assert(b =~= seq![b[0]] + y);
    }
}

/// The first range of `a` begins no later, and then ends no later, than that
/// of `b`.
proof fn lemma_first_no_later(a: Seq<(u32, u32)>, b: Seq<(u32, u32)>)
    requires
        proper(a),
        separated(a),
        proper(b),
        separated(b),
        a.len() > 0,
        b.len() > 0,
        forall|cp: u32| #[trigger] covers(a, cp) <==> covers(b, cp),
    ensures
        a[0].0 <= b[0].0,
        a[0].0 == b[0].0 ==> b[0].1 <= a[0].1,
{
    let x = b[0].0;
    assert(b[0].0 <= x <= b[0].1);
    assert(covers(b, x));
    assert(covers(a, x));
    let i = choose|i: int| 0 <= i < a.len() && (#[trigger] a[i]).0 <= x <= a[i].1;
    if i > 0 {
        assert(a[0].1 + 1 < a[i].0);
    }
    if a[0].0 == b[0].0 && a[0].1 < b[0].1 {
        let y = (a[0].1 + 1) as u32;
        assert(b[0].0 <= y <= b[0].1);
        assert(covers(b, y));
        assert(covers(a, y));
        let j = choose|j: int| 0 <= j < a.len() && (#[trigger] a[j]).0 <= y <= a[j].1;
        if j > 0 {
            assert(a[0].1 + 1 < a[j].0);
        }
    }
}

/// What the ranges behind the first cover.
proof fn lemma_covers_rest(a: Seq<(u32, u32)>, cp: u32)
    requires
        proper(a),
        separated(a),
        a.len() > 0,
    ensures
        covers(a.skip(1), cp) <==> covers(a, cp) && cp > a[0].1,
{
    let x = a.skip(1);
    if covers(x, cp) {
        let i = choose|i: int| 0 <= i < x.len() && (#[trigger] x[i]).0 <= cp <= x[i].1;
        assert(a[i + 1].0 <= cp <= a[i + 1].1);
        assert(a[0].1 + 1 < a[i + 1].0);
    }
    if covers(a, cp) && cp > a[0].1 {
        let i = choose|i: int| 0 <= i < a.len() && (#[trigger] a[i]).0 <= cp <= a[i].1;
        assert(x[i - 1].0 <= cp <= x[i - 1].1);
    }
}

/// Complementing twice gives back ranges of scalar values that are in
/// ascending order with a gap between neighbours.
pub proof fn law_complement_is_undone(
    a: Seq<(u32, u32)>,
    b: Seq<(u32, u32)>,
    c: Seq<(u32, u32)>,
)
    requires
        proper(a),
        separated(a),
        surrogate_free(a),
        complements(a, b),
        complements(b, c),
    ensures
        c == a,
{
    assert forall|cp: u32| #[trigger] covers(c, cp) <==> covers(a, cp) by {
        assert(covers(b, cp) <==> cp <= MAX_CODEPOINT && !covers(a, cp) && !(SURROGATE_LO <= cp
            <= SURROGATE_HI));
        if covers(a, cp) {
            let i = choose|i: int| 0 <= i < a.len() && (#[trigger] a[i]).0 <= cp <= a[i].1;
            assert(a[i].1 <= MAX_CODEPOINT);
            assert(a[i].1 < SURROGATE_LO || a[i].0 > SURROGATE_HI);
        }
    }
    lemma_told_by_cover(c, a);
}

/// Complement of `ranges` over the scalar values. `ranges` is sorted and
/// gap-separated.
pub fn complement_codepoints(ranges: &Vec<(u32, u32)>) -> (out: Vec<(u32, u32)>)
    requires
        proper(ranges@),
        separated(ranges@),
    ensures
        complements(ranges@, out@),
{
    let mut raw: Vec<(u32, u32)> = Vec::new();
    let mut cursor: u32 = 0;
    let mut k: usize = 0;
    while k < ranges.len()
        invariant
            k <= ranges@.len(),
            proper(ranges@),
            separated(ranges@),
            proper(raw@),
            separated(raw@),
            forall|i: int| 0 <= i < raw@.len() ==> (#[trigger] raw@[i]).1 + 1 < cursor,
            cursor <= 0x110000,
            k == 0 ==> cursor == 0,
            k > 0 ==> cursor == ranges@[k - 1].1 + 1,
            forall|cp: u32| #[trigger]
                covers(raw@, cp) <==> cp < cursor && !covers(ranges@.take(k as int), cp),
            forall|cp: u32| #[trigger] covers(ranges@.take(k as int), cp) ==> cp < cursor,
        decreases ranges@.len() - k,
    {
        let (lo, hi) = ranges[k];
        let ghost before = raw@;
        if cursor < lo {
            raw.push((cursor, lo - 1));
        }
        proof {
            if k > 0 {
                assert(ranges@[k - 1].1 + 1 < ranges@[k as int].0);
            }
            assert(ranges@.take(k + 1) =~= ranges@.take(k as int).push((lo, hi)));
            assert forall|cp: u32| #[trigger]
                covers(raw@, cp) <==> cp < hi + 1 && !covers(ranges@.take(k + 1), cp) by {
                lemma_covers_push(ranges@.take(k as int), (lo, hi), cp);
                lemma_covers_push(before, (cursor, (lo - 1) as u32), cp);
                assert(covers(before, cp) <==> cp < cursor && !covers(
                    ranges@.take(k as int),
                    cp,
                ));
                assert(covers(ranges@.take(k as int), cp) ==> cp < cursor);
            }
            assert forall|cp: u32| #[trigger]
                covers(ranges@.take(k + 1), cp) implies cp < hi + 1 by {
                lemma_covers_push(ranges@.take(k as int), (lo, hi), cp);
                assert(covers(ranges@.take(k as int), cp) ==> cp < cursor);
            }
        }
        cursor = hi + 1;
        k += 1;
    }
    assert(ranges@.take(k as int) =~= ranges@);
    let ghost before = raw@;
    if cursor <= MAX_CODEPOINT {
        raw.push((cursor, MAX_CODEPOINT));
    }
    proof {
        assert forall|cp: u32| #[trigger]
            covers(raw@, cp) <==> cp <= MAX_CODEPOINT && !covers(ranges@, cp) by {
            lemma_covers_push(before, (cursor, MAX_CODEPOINT), cp);
            assert(covers(before, cp) <==> cp < cursor && !covers(ranges@, cp));
            assert(covers(ranges@, cp) ==> cp < cursor);
        }
    }
    exclude_surrogates(&raw)
}

/// The scalar values of the class as ranges in ascending order, with a gap
/// between neighbours.
pub open spec fn class_ranges(cc: ClassView, ranges: Seq<(u32, u32)>) -> bool {
    &&& proper(ranges)
    &&& separated(ranges)
    &&& forall|cp: u32| #[trigger]
        covers(ranges, cp) <==> vstd::utf8::is_scalar(cp) && cc.contains(cp)
}

/// Reduce a [`CharClass`] to a list of UTF-8 byte sequences. Each inner list
/// is a sequence of byte ranges to match in order; the outer list is the
/// alternation. Together they match the encodings of exactly the scalar
/// values in the class.
pub fn class_byte_seqs(cc: &CharClass) -> (out: Vec<Vec<(u8, u8)>>)
    ensures
        exists|ranges: Seq<(u32, u32)>| #[trigger]
            class_ranges(cc@, ranges) && seqs_view(out@) == all_splits(ranges, ranges.len()),
        forall|w: Seq<u8>| #[trigger]
            any_ranges_lang(out@, w) <==> language::class_lang(cc@, w),
{
    let listed = listed_ranges(cc);
    let merged = merge_codepoint_ranges(&listed);
    let ranges = if cc.negated {
        complement_codepoints(&merged)
    } else {
        exclude_surrogates(&merged)
    };
    assert forall|cp: u32| #[trigger] covers(ranges@, cp) <==> vstd::utf8::is_scalar(cp)
        && cc@.contains(cp) by {
        assert(covers(merged@, cp) <==> covers(listed@, cp));
        if cp <= MAX_CODEPOINT {
            assert(covers(listed@, cp) <==> cc@.listed(cp));
        }
        if covers(merged@, cp) {
            let i = choose|i: int|
                0 <= i < merged@.len() && (#[trigger] merged@[i]).0 <= cp <= merged@[i].1;
            assert(cp <= MAX_CODEPOINT);
        }
    }
    assert(class_ranges(cc@, ranges@));
    let mut out: Vec<Vec<(u8, u8)>> = Vec::new();
    assert(seqs_view(out@) =~= Seq::empty());
    let mut k: usize = 0;
    while k < ranges.len()
        invariant
            k <= ranges@.len(),
            proper(ranges@),
            surrogate_free(ranges@),
            seqs_view(out@) == all_splits(ranges@, k as nat),
            forall|w: Seq<u8>| #[trigger]
                any_ranges_lang(out@, w) <==> encodes_covered(ranges@, k as int, w),
        decreases ranges@.len() - k,
    {
        let (lo, hi) = ranges[k];
        let ghost before = out@;
        utf8_byte_sequences(lo, hi, &mut out);
        proof {
            assert forall|w: Seq<u8>| #[trigger]
                any_ranges_lang(out@, w) <==> encodes_covered(ranges@, k + 1, w) by {
                assert(any_ranges_lang(before, w) <==> encodes_covered(ranges@, k as int, w));
                if encodes_covered(ranges@, k + 1, w) {
                    let i = choose|i: int| 0 <= i < k + 1 && #[trigger] encodes_range(
                        ranges@[i].0,
                        ranges@[i].1,
                        w,
                    );
                    if i < k {
                        assert(encodes_covered(ranges@, k as int, w));
                    }
                }
                if encodes_covered(ranges@, k as int, w) {
                    let i = choose|i: int| 0 <= i < k && #[trigger] encodes_range(
                        ranges@[i].0,
                        ranges@[i].1,
                        w,
                    );
                    assert(encodes_range(ranges@[i].0, ranges@[i].1, w));
                }
                if encodes_range(lo, hi, w) {
                    assert(encodes_range(ranges@[k as int].0, ranges@[k as int].1, w));
                }
            }
        }
        k += 1;
    }
    proof {
        assert forall|w: Seq<u8>| #[trigger]
            any_ranges_lang(out@, w) <==> language::class_lang(cc@, w) by {
            if any_ranges_lang(out@, w) {
                assert(encodes_covered(ranges@, ranges@.len() as int, w));
                let i = choose|i: int| 0 <= i < ranges@.len() && #[trigger] encodes_range(
                    ranges@[i].0,
                    ranges@[i].1,
                    w,
                );
                let cp = choose|cp: u32|
                    ranges@[i].0 <= cp <= ranges@[i].1 && w
                        == #[trigger] vstd::utf8::encode_scalar(cp);
                assert(covers(ranges@, cp));
                assert(language::class_match(cc@, cp, w));
            }
            if language::class_lang(cc@, w) {
                let cp = choose|cp: u32| language::class_match(cc@, cp, w);
                assert(covers(ranges@, cp));
                let i = choose|i: int|
                    0 <= i < ranges@.len() && (#[trigger] ranges@[i]).0 <= cp <= ranges@[i].1;
                assert(w == vstd::utf8::encode_scalar(cp));
                assert(encodes_range(ranges@[i].0, ranges@[i].1, w));
            }
        }
    }
    out
}

/// `w` encodes a value of one of the first `n` ranges.
spec fn encodes_covered(ranges: Seq<(u32, u32)>, n: int, w: Seq<u8>) -> bool {
    exists|i: int| 0 <= i < n && #[trigger] encodes_range(ranges[i].0, ranges[i].1, w)
}

} // verus!
