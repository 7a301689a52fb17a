//! What the reports keep of what they show.
use vstd::prelude::*;

use crate::diagnostic::{DiagnosticView, Severity};
use crate::grammar::ir::{RuleView, TokenView};
use crate::report::railroad;
use crate::report::summary;

verus! {

/// The column is as wide as the longest name: no name is longer, and one has its
/// length.
pub proof fn law_column_fits_the_longest_name(l: Seq<TokenView>)
    ensures
        forall|i: int|
            0 <= i < l.len() ==> vstd::utf8::encode_utf8((#[trigger] l[i]).name).len()
                <= summary::widest(l, l.len()),
        l.len() > 0 ==> exists|i: int|
            0 <= i < l.len() && vstd::utf8::encode_utf8((#[trigger] l[i]).name).len()
                == summary::widest(l, l.len()),
        l.len() == 0 ==> summary::widest(l, l.len()) == 0,
{
    lemma_widest(l, l.len());
}

proof fn lemma_widest(l: Seq<TokenView>, n: nat)
    requires
        n <= l.len(),
    ensures
        forall|i: int|
            0 <= i < n ==> vstd::utf8::encode_utf8((#[trigger] l[i]).name).len()
                <= summary::widest(l, n),
        n > 0 ==> exists|i: int|
            0 <= i < n && vstd::utf8::encode_utf8((#[trigger] l[i]).name).len()
                == summary::widest(l, n),
    decreases n,
{
    if n > 0 {
        let k = (n - 1) as nat;
        lemma_widest(l, k);
        let here = vstd::utf8::encode_utf8(l[n - 1].name).len();
        if here > summary::widest(l, k) || k == 0 {
            assert(vstd::utf8::encode_utf8(l[n - 1].name).len() == summary::widest(l, n));
        } else {
            let i = choose|i: int|
                0 <= i < k && vstd::utf8::encode_utf8((#[trigger] l[i]).name).len()
                    == summary::widest(l, k);
            assert(vstd::utf8::encode_utf8(l[i].name).len() == summary::widest(l, n));
        }
    }
}

/// The tokens that are counted are those that are no fragments.
pub proof fn law_plain_tokens_are_no_fragments(l: Seq<TokenView>)
    ensures
        summary::plain_tokens(l, l.len()) == l.filter(|t: TokenView| !t.is_fragment).len(),
    decreases l.len(),
{
    reveal(Seq::filter);
    if l.len() > 0 {
        law_plain_tokens_are_no_fragments(l.drop_last());
        lemma_tokens_front(l, (l.len() - 1) as nat);
    }
}

proof fn lemma_tokens_front(l: Seq<TokenView>, n: nat)
    requires
        n < l.len(),
    ensures
        summary::plain_tokens(l, n) == summary::plain_tokens(l.drop_last(), n),
    decreases n,
{
    if n > 0 {
        lemma_tokens_front(l, (n - 1) as nat);
    }
}

/// The rules that are counted are those that are no fragments.
pub proof fn law_plain_rules_are_no_fragments(l: Seq<RuleView>)
    ensures
        summary::plain_rules(l, l.len()) == l.filter(|r: RuleView| !r.is_fragment).len(),
    decreases l.len(),
{
    reveal(Seq::filter);
    if l.len() > 0 {
        law_plain_rules_are_no_fragments(l.drop_last());
        lemma_rules_front(l, (l.len() - 1) as nat);
    }
}

proof fn lemma_rules_front(l: Seq<RuleView>, n: nat)
    requires
        n < l.len(),
    ensures
        summary::plain_rules(l, n) == summary::plain_rules(l.drop_last(), n),
    decreases n,
{
    if n > 0 {
        lemma_rules_front(l, (n - 1) as nat);
    }
}

/// Judging keeps every diagnostic, its text and its place. It makes every warning
/// an error where warnings count as such, and changes nothing where they do not.
pub proof fn law_judging_keeps_what_is_said(diags: Seq<DiagnosticView>, strict: bool)
    ensures
        summary::judged(diags, strict).len() == diags.len(),
        forall|i: int|
            0 <= i < diags.len() ==> {
                let d = #[trigger] summary::judged(diags, strict)[i];
                &&& d.message == diags[i].message
                &&& d.span == diags[i].span
                &&& d.severity == Severity::Error <==> strict || diags[i].severity
                    == Severity::Error
            },
{
}

/// What a reader of a label takes its text for: a backslash and `n` are a line
/// break, and a backslash and another character are that character.
pub open spec fn label_read(t: Seq<char>) -> Seq<char>
    decreases t.len(),
{
    if t.len() == 0 {
        t
    } else if t[0] == '\\' && t.len() > 1 {
        seq![
            if t[1] == 'n' {
                '\n'
            } else {
                t[1]
            },
        ] + label_read(t.skip(2))
    } else {
        seq![t[0]] + label_read(t.skip(1))
    }
}

/// The text can stand between quotes on one line: every quote has a backslash of
/// its own before it, and no line ends in it.
pub open spec fn quotable(t: Seq<char>) -> bool
    decreases t.len(),
{
    if t.len() == 0 {
        true
    } else if t[0] == '\\' {
        t.len() > 1 && t[1] != '\n' && quotable(t.skip(2))
    } else {
        t[0] != '"' && t[0] != '\n' && quotable(t.skip(1))
    }
}

proof fn lemma_dot_front(c: char, rest: Seq<char>, n: nat)
    requires
        n <= rest.len(),
    ensures
        railroad::dot_upto(seq![c] + rest, n + 1) == railroad::dot_char(c) + railroad::dot_upto(
            rest,
            n,
        ),
    decreases n,
{
    let s = seq![c] + rest;
    reveal_with_fuel(railroad::dot_upto, 2);
    if n == 0 {
        assert(s[0] == c);
        assert(Seq::<char>::empty() + railroad::dot_char(c) =~= railroad::dot_char(c)
            + Seq::<char>::empty());
    } else {
        lemma_dot_front(c, rest, (n - 1) as nat);
        assert(s[n as int] == rest[n - 1]);
        assert(railroad::dot_char(c) + railroad::dot_upto(rest, (n - 1) as nat)
            + railroad::dot_char(rest[n - 1]) =~= railroad::dot_char(c) + (railroad::dot_upto(
            rest,
            (n - 1) as nat,
        ) + railroad::dot_char(rest[n - 1])));
    }
}

/// A label is read as the text that it was made from, and can stand between
/// quotes.
pub proof fn law_labels_are_read_back(cs: Seq<char>)
    ensures
        label_read(railroad::dot_text(cs)) == cs,
        quotable(railroad::dot_text(cs)),
    decreases cs.len(),
{
    reveal_strlit("\\\"");
    reveal_strlit("\\\\");
    reveal_strlit("\\n");
    let t = railroad::dot_text(cs);
    if cs.len() == 0 {
        assert(t =~= Seq::<char>::empty());
        assert(cs =~= Seq::<char>::empty());
    } else {
        let c = cs[0];
        let rest = cs.skip(1);
        law_labels_are_read_back(rest);
        assert(seq![c] + rest =~= cs);
        lemma_dot_front(c, rest, rest.len());
        let d = railroad::dot_char(c);
        assert(t == d + railroad::dot_text(rest));
        assert(t.skip(d.len() as int) =~= railroad::dot_text(rest));
        if d.len() == 2 {
            assert(t[0] == '\\' && t[1] == d[1]);
        } else {
            assert(t[0] == c);
        }
    }
}

} // verus!
