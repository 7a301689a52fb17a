//! What the numbers of tokens and modes stand for.
use vstd::prelude::*;

use crate::grammar::ir::{ModeActionView, TokenView};
use crate::lowering::program;

verus! {

/// The names that kinds stand for are those of the tokens that are no fragments,
/// in their order.
pub proof fn law_kinds_name_the_tokens(tokens: Seq<TokenView>)
    ensures
        program::kind_names(tokens) == tokens.filter(|t: TokenView| !t.is_fragment).map_values(
            |t: TokenView| t.name,
        ),
    decreases tokens.len(),
{
    let f = |t: TokenView| !t.is_fragment;
    let g = |t: TokenView| t.name;
    reveal(Seq::filter);
    if tokens.len() > 0 {
        let p = tokens.drop_last();
        law_kinds_name_the_tokens(p);
        if f(tokens.last()) {
            assert(p.filter(f).push(tokens.last()).map_values(g) =~= p.filter(f).map_values(g).push(
                tokens.last().name,
            ));
        }
    }
    assert(program::kind_names(tokens) =~= tokens.filter(f).map_values(g));
}

/// A kind stands for one name: that of its place, counted from one. A name that
/// no token has, but for fragments, has kind zero.
pub proof fn law_kinds_stand_for_names(tokens: Seq<TokenView>, name: Seq<char>)
    requires
        program::kind_names(tokens).len() < u16::MAX,
    ensures
        program::kind_of(tokens, name) <= program::kind_names(tokens).len(),
        program::kind_of(tokens, name) > 0 <==> exists|i: int|
            0 <= i < tokens.len() && !(#[trigger] tokens[i]).is_fragment && tokens[i].name == name,
        program::kind_of(tokens, name) > 0 ==> program::kind_names(
            tokens,
        )[program::kind_of(tokens, name) - 1] == name,
{
    let l = program::kind_names(tokens);
    program::lemma_place(l, name);
    lemma_kind_names(tokens, name);
}

proof fn lemma_kind_names(tokens: Seq<TokenView>, name: Seq<char>)
    ensures
        program::kind_names(tokens).contains(name) <==> exists|i: int|
            0 <= i < tokens.len() && !(#[trigger] tokens[i]).is_fragment && tokens[i].name == name,
    decreases tokens.len(),
{
    if tokens.len() > 0 {
        let p = tokens.drop_last();
        let l = program::kind_names(tokens);
        let k = program::kind_names(p);
        lemma_kind_names(p, name);
        assert(tokens[tokens.len() - 1] == tokens.last());
        if k.contains(name) {
            let i = choose|i: int|
                0 <= i < p.len() && !(#[trigger] p[i]).is_fragment && p[i].name == name;
            assert(tokens[i].name == name && !tokens[i].is_fragment);
            let j = choose|j: int| 0 <= j < k.len() && k[j] == name;
            assert(l[j] == name);
        }
        if !tokens.last().is_fragment {
            assert(l[k.len() as int] == tokens.last().name);
        }
        if l.contains(name) {
            let j = choose|j: int| 0 <= j < l.len() && l[j] == name;
            if j < k.len() {
                assert(k[j] == name);
            }
        }
        if exists|i: int|
            0 <= i < tokens.len() && !(#[trigger] tokens[i]).is_fragment && tokens[i].name == name {
            let i = choose|i: int|
                0 <= i < tokens.len() && !(#[trigger] tokens[i]).is_fragment && tokens[i].name
                    == name;
            if i < p.len() {
                assert(p[i].name == name && !p[i].is_fragment);
            }
        }
    }
}

/// The token is in the mode, or pushes it.
pub open spec fn names_mode(t: TokenView, n: Seq<char>) -> bool {
    t.modes.contains(n) || t.mode_actions.contains(ModeActionView::Push(n))
}

proof fn lemma_joined(l: Seq<Seq<char>>, x: Seq<char>)
    requires
        l.no_duplicates(),
    ensures
        program::joined(l, x).no_duplicates(),
        l.is_prefix_of(program::joined(l, x)),
        forall|n: Seq<char>| #[trigger] program::joined(l, x).contains(n) <==> l.contains(n) || n == x,
{
    program::lemma_place(l, x);
    let r = program::joined(l, x);
    if !l.contains(x) {
        assert(r[l.len() as int] == x);
    }
    assert forall|n: Seq<char>| #[trigger] r.contains(n) <==> l.contains(n) || n == x by {
        if l.contains(n) {
            let i = choose|i: int| 0 <= i < l.len() && l[i] == n;
            assert(r[i] == n);
        }
        if r.contains(n) {
            let i = choose|i: int| 0 <= i < r.len() && r[i] == n;
            if i < l.len() {
                assert(l[i] == n);
            }
        }
    }
    assert(l =~= r.subrange(0, l.len() as int));
}

proof fn lemma_joined_all(l: Seq<Seq<char>>, more: Seq<Seq<char>>)
    requires
        l.no_duplicates(),
    ensures
        program::joined_all(l, more).no_duplicates(),
        l.is_prefix_of(program::joined_all(l, more)),
        forall|n: Seq<char>| #[trigger]
            program::joined_all(l, more).contains(n) <==> l.contains(n) || more.contains(n),
    decreases more.len(),
{
    if more.len() > 0 {
        let p = more.drop_last();
        lemma_joined_all(l, p);
        lemma_joined(program::joined_all(l, p), more.last());
        lemma_last(more);
    }
}

proof fn lemma_last<A>(l: Seq<A>)
    requires
        l.len() > 0,
    ensures
        forall|x: A| #[trigger] l.contains(x) <==> l.drop_last().contains(x) || x == l.last(),
{
    let p = l.drop_last();
    assert forall|x: A| #[trigger] l.contains(x) <==> p.contains(x) || x == l.last() by {
        assert(l[l.len() - 1] == l.last());
        if p.contains(x) {
            let i = choose|i: int| 0 <= i < p.len() && p[i] == x;
            assert(l[i] == x);
        }
        if l.contains(x) {
            let i = choose|i: int| 0 <= i < l.len() && l[i] == x;
            if i < p.len() {
                assert(p[i] == x);
            }
        }
    }
}

proof fn lemma_pushed(l: Seq<Seq<char>>, actions: Seq<ModeActionView>)
    requires
        l.no_duplicates(),
    ensures
        program::pushed_modes(l, actions).no_duplicates(),
        l.is_prefix_of(program::pushed_modes(l, actions)),
        forall|n: Seq<char>| #[trigger]
            program::pushed_modes(l, actions).contains(n) <==> l.contains(n) || actions.contains(
                ModeActionView::Push(n),
            ),
    decreases actions.len(),
{
    if actions.len() > 0 {
        let p = actions.drop_last();
        lemma_pushed(l, p);
        lemma_last(actions);
        match actions.last() {
            ModeActionView::Push(x) => lemma_joined(program::pushed_modes(l, p), x),
            ModeActionView::Pop => {},
        }
    }
}

/// The modes are numbered without repetition, the default mode first: it, and
/// those that some token is in or pushes, and no others. A mode keeps its number
/// when tokens are added behind.
pub proof fn law_modes_are_those_that_tokens_name(tokens: Seq<TokenView>)
    ensures
        program::mode_list(tokens).no_duplicates(),
        program::mode_list(tokens).len() > 0 && program::mode_list(tokens)[0] == "default"@,
        forall|n: Seq<char>| #[trigger]
            program::mode_list(tokens).contains(n) <==> n == "default"@ || exists|i: int|
                0 <= i < tokens.len() && names_mode(#[trigger] tokens[i], n),
        tokens.len() > 0 ==> program::mode_list(tokens.drop_last()).is_prefix_of(
            program::mode_list(tokens),
        ),
    decreases tokens.len(),
{
    let r = program::mode_list(tokens);
    if tokens.len() == 0 {
        assert(r[0] == "default"@);
    } else {
        let p = tokens.drop_last();
        let t = tokens.last();
        let before = program::mode_list(p);
        law_modes_are_those_that_tokens_name(p);
        let mid = program::joined_all(before, t.modes);
        lemma_joined_all(before, t.modes);
        lemma_pushed(mid, t.mode_actions);
        assert(before.len() <= mid.len() <= r.len());
        assert(mid[0] == before[0]) by {
            assert(before == mid.subrange(0, before.len() as int));
        }
        assert(r[0] == mid[0]) by {
            assert(mid == r.subrange(0, mid.len() as int));
        }
        assert(before =~= r.subrange(0, before.len() as int)) by {
            assert(mid == r.subrange(0, mid.len() as int));
            assert(before == mid.subrange(0, before.len() as int));
            assert(r.subrange(0, before.len() as int) =~= r.subrange(
                0,
                mid.len() as int,
            ).subrange(0, before.len() as int));
        }
        assert(tokens[tokens.len() - 1] == t);
        assert forall|n: Seq<char>| #[trigger] r.contains(n) <==> n == "default"@ || exists|i: int|
            0 <= i < tokens.len() && names_mode(#[trigger] tokens[i], n) by {
            assert(r.contains(n) <==> before.contains(n) || names_mode(t, n)) by {
                assert(mid.contains(n) <==> before.contains(n) || t.modes.contains(n));
            }
            if exists|i: int| 0 <= i < p.len() && names_mode(#[trigger] p[i], n) {
                let i = choose|i: int| 0 <= i < p.len() && names_mode(#[trigger] p[i], n);
                assert(names_mode(tokens[i], n));
            }
            if exists|i: int| 0 <= i < tokens.len() && names_mode(#[trigger] tokens[i], n) {
                let i = choose|i: int| 0 <= i < tokens.len() && names_mode(#[trigger] tokens[i], n);
                if i < p.len() {
                    assert(names_mode(p[i], n));
                }
            }
        }
    }
}

} // verus!
