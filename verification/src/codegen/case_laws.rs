//! What the cases of a name keep of its words.
use vstd::prelude::*;

use crate::codegen::common;

verus! {

/// The name in Pascal case.
pub open spec fn pascal_of(s: Seq<char>) -> Seq<char> {
    common::pascal_upto(s, common::uppers(s), common::lowers(s), s.len()).0
}

/// The name in capitals with underscores between words.
pub open spec fn screaming_of(s: Seq<char>) -> Seq<char> {
    common::screaming_upto(s, common::uppers(s), s.len()).0
}

/// The name in front decides what its characters become.
proof fn lemma_pascal_front(a: Seq<char>, b: Seq<char>, n: nat)
    requires
        n <= a.len(),
    ensures
        common::pascal_upto(a + b, common::uppers(a + b), common::lowers(a + b), n)
            == common::pascal_upto(a, common::uppers(a), common::lowers(a), n),
    decreases n,
{
    if n > 0 {
        lemma_pascal_front(a, b, (n - 1) as nat);
        assert((a + b)[n - 1] == a[n - 1]);
    }
}

proof fn lemma_pascal_behind(a: Seq<char>, b: Seq<char>, n: nat)
    requires
        n <= b.len(),
    ensures
        ({
            let s = a.push('_') + b;
            let whole = common::pascal_upto(
                s,
                common::uppers(s),
                common::lowers(s),
                a.len() + 1 + n,
            );
            let part = common::pascal_upto(b, common::uppers(b), common::lowers(b), n);
            whole == (pascal_of(a) + part.0, part.1)
        }),
    decreases n,
{
    let s = a.push('_') + b;
    if n == 0 {
        assert(s =~= a + (seq!['_'] + b));
        lemma_pascal_front(a, seq!['_'] + b, a.len());
        assert(s[a.len() as int] == '_');
        assert(pascal_of(a) + Seq::<char>::empty() =~= pascal_of(a));
    } else {
        lemma_pascal_behind(a, b, (n - 1) as nat);
        let k = a.len() + n;
        let part = common::pascal_upto(b, common::uppers(b), common::lowers(b), (n - 1) as nat);
        assert(s[k as int] == b[n - 1]);
        assert(common::uppers(s)[k as int] == common::uppers(b)[n - 1]);
        assert(common::lowers(s)[k as int] == common::lowers(b)[n - 1]);
        assert(pascal_of(a) + part.0 + common::uppers(b)[n - 1] =~= pascal_of(a) + (part.0
            + common::uppers(b)[n - 1]));
        assert(pascal_of(a) + part.0 + common::lowers(b)[n - 1] =~= pascal_of(a) + (part.0
            + common::lowers(b)[n - 1]));
    }
}

/// The words of a name come one behind the other in Pascal case, each as it does
/// by itself, without the underscore between them.
pub proof fn law_pascal_joins_words(a: Seq<char>, b: Seq<char>)
    ensures
        pascal_of(a.push('_') + b) == pascal_of(a) + pascal_of(b),
{
    lemma_pascal_behind(a, b, b.len());
}

/// A word begins with a capital in Pascal case, and every other character of it
/// is small.
pub proof fn law_pascal_words_begin_with_a_capital(w: Seq<char>, c: char)
    requires
        c != '_',
    ensures
        w.len() == 0 ==> pascal_of(w.push(c)) == common::upper_text(c),
        w.len() > 0 && w.last() != '_' ==> pascal_of(w.push(c)) == pascal_of(w)
            + common::lower_text(c),
{
    let s = w.push(c);
    assert(s =~= w + seq![c]);
    lemma_pascal_front(w, seq![c], w.len());
    assert(common::uppers(s)[w.len() as int] == common::upper_text(c));
    assert(common::lowers(s)[w.len() as int] == common::lower_text(c));
    assert(s[w.len() as int] == c);
    if w.len() == 0 {
        assert(Seq::<char>::empty() + common::upper_text(c) =~= common::upper_text(c));
    }
}

proof fn lemma_screaming_front(a: Seq<char>, b: Seq<char>, n: nat)
    requires
        n <= a.len(),
    ensures
        common::screaming_upto(a + b, common::uppers(a + b), n) == common::screaming_upto(
            a,
            common::uppers(a),
            n,
        ),
    decreases n,
{
    if n > 0 {
        lemma_screaming_front(a, b, (n - 1) as nat);
        assert((a + b)[n - 1] == a[n - 1]);
    }
}

/// What stands between two parts of a name: an underscore where a small letter
/// comes before a capital, and otherwise nothing.
pub open spec fn between(a: Seq<char>, b: Seq<char>) -> Seq<char> {
    if a.len() > 0 && b.len() > 0 && 'a' <= a.last() <= 'z' && 'A' <= b[0] <= 'Z' {
        seq!['_']
    } else {
        Seq::empty()
    }
}

proof fn lemma_screaming_behind(a: Seq<char>, b: Seq<char>, n: nat)
    requires
        0 < n <= b.len(),
    ensures
        ({
            let s = a + b;
            let whole = common::screaming_upto(s, common::uppers(s), a.len() + n);
            let part = common::screaming_upto(b, common::uppers(b), n);
            whole == (screaming_of(a) + between(a, b) + part.0, part.1)
        }),
    decreases n,
{
    reveal_with_fuel(common::screaming_upto, 2);
    let s = a + b;
    let k = (a.len() + n - 1) as nat;
    assert(s[k as int] == b[n - 1]);
    assert(common::uppers(s)[k as int] == common::uppers(b)[n - 1]);
    let up = common::uppers(b)[n - 1];
    let c = b[n - 1];
    if n == 1 {
        lemma_screaming_front(a, b, a.len());
        if a.len() > 0 {
            assert(a[a.len() - 1] == a.last());
        }
        let part = common::screaming_upto(b, common::uppers(b), 1);
        let whole = common::screaming_upto(s, common::uppers(s), a.len() + 1);
        assert(common::screaming_upto(b, common::uppers(b), 0) == (Seq::<char>::empty(), false));
        assert(whole.0 =~= screaming_of(a) + between(a, b) + part.0);
    } else {
        lemma_screaming_behind(a, b, (n - 1) as nat);
        let part = common::screaming_upto(b, common::uppers(b), (n - 1) as nat);
        let front = screaming_of(a) + between(a, b);
        assert((front + part.0).push('_').push(c) =~= front + part.0.push('_').push(c));
        assert((front + part.0).push(c) =~= front + part.0.push(c));
        assert((front + part.0).push('_') =~= front + part.0.push('_'));
        assert(front + part.0 + up =~= front + (part.0 + up));
    }
}

/// Two parts of a name keep their places in capitals, each as it is by itself,
/// with an underscore between them where a small letter meets a capital.
pub proof fn law_screaming_joins_parts(a: Seq<char>, b: Seq<char>)
    ensures
        screaming_of(a + b) == screaming_of(a) + between(a, b) + screaming_of(b),
{
    if b.len() == 0 {
        assert(a + b =~= a);
        assert(screaming_of(a) + between(a, b) + screaming_of(b) =~= screaming_of(a));
    } else {
        lemma_screaming_behind(a, b, b.len());
    }
}

/// A capital A to Z and an underscore stay as they are in capitals; any other
/// character becomes its capital form.
pub proof fn law_screaming_characters(c: char)
    ensures
        'A' <= c <= 'Z' || c == '_' ==> screaming_of(seq![c]) == seq![c],
        !('A' <= c <= 'Z' || c == '_') ==> screaming_of(seq![c]) == common::upper_text(c),
{
    reveal_with_fuel(common::screaming_upto, 2);
    let s = seq![c];
    assert(s[0] == c);
    assert(common::uppers(s)[0] == common::upper_text(c));
    assert(Seq::<char>::empty().push(c) =~= s);
    assert(Seq::<char>::empty() + common::upper_text(c) =~= common::upper_text(c));
}

} // verus!
