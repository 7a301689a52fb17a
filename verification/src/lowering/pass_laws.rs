//! What each pass over the states leaves.
use vstd::prelude::*;

use crate::lowering::optimize::{self, LoweringOpts};
use crate::lowering::table::{self, BodyView, InstrView, StateView, TailView};
use crate::lowering::validate;

verus! {

/// The body ends in a jump to the first state of `chain`, that one's body in a jump
/// to the second, and so on; what has been put together is legal all along.
pub open spec fn chains(states: Seq<StateView>, b: BodyView, chain: Seq<u32>) -> bool
    decreases chain.len(),
{
    chain.len() == 0 || {
        &&& b.tail == TailView::Jump(chain[0])
        &&& table::body_of(states, chain[0]) is Some
        &&& validate::valid_body(strung(states, b, seq![chain[0]]))
        &&& chains(states, strung(states, b, seq![chain[0]]), chain.skip(1))
    }
}

/// The body, then the instructions of the states of `chain`, with the end of the
/// last one.
pub open spec fn strung(states: Seq<StateView>, b: BodyView, chain: Seq<u32>) -> BodyView
    decreases chain.len(),
{
    if chain.len() == 0 {
        b
    } else {
        let next = table::body_of(states, chain[0])->0;
        strung(
            states,
            BodyView { instrs: b.instrs + next.instrs, tail: next.tail },
            chain.skip(1),
        )
    }
}

/// Nothing more can be taken in: the body does not end in a jump, or it jumps to
/// a state that is taken in already, is not there, or would not be legal.
pub open spec fn at_end(states: Seq<StateView>, b: BodyView, taken: Seq<u32>) -> bool {
    match b.tail {
        TailView::Jump(t) => {
            ||| taken.contains(t)
            ||| taken.len() >= states.len()
            ||| table::body_of(states, t) is None
            ||| !validate::valid_body(strung(states, b, seq![t]))
        },
        _ => true,
    }
}

/// `r` is the body with the states of `chain` in the place of the jumps to them: as
/// many as can be.
pub open spec fn takes_in(
    states: Seq<StateView>,
    b: BodyView,
    taken: Seq<u32>,
    chain: Seq<u32>,
    r: BodyView,
) -> bool {
    &&& chains(states, b, chain)
    &&& r == strung(states, b, chain)
    &&& (taken + chain).no_duplicates()
    &&& at_end(states, r, taken + chain)
}

proof fn lemma_one(states: Seq<StateView>, b: BodyView, t: u32)
    requires
        table::body_of(states, t) is Some,
    ensures
        strung(states, b, seq![t]) == optimize::spliced(b, table::body_of(states, t)->0),
{
    reveal_with_fuel(strung, 2);
    assert(seq![t][0] == t);
    assert(seq![t].skip(1).len() == 0);
}

proof fn lemma_absorbed(states: Seq<StateView>, b: BodyView, visited: Seq<u32>)
    requires
        visited.no_duplicates(),
    ensures
        exists|chain: Seq<u32>| #[trigger]
            takes_in(states, b, visited, chain, optimize::absorbed(states, b, visited)),
    decreases states.len() - visited.len(),
{
    let r = optimize::absorbed(states, b, visited);
    let none = Seq::<u32>::empty();
    assert(visited + none =~= visited);
    match b.tail {
        TailView::Jump(t) => {
            if visited.contains(t) || visited.len() >= states.len() || table::body_of(
                states,
                t,
            ) is None {
                assert(takes_in(states, b, visited, none, r));
            } else {
                let next = table::body_of(states, t)->0;
                let longer = optimize::spliced(b, next);
                lemma_one(states, b, t);
                if validate::valid_body(longer) {
                    assert(visited.push(t).no_duplicates());
                    lemma_absorbed(states, longer, visited.push(t));
                    let rest = choose|chain: Seq<u32>| #[trigger]
                        takes_in(states, longer, visited.push(t), chain, r);
                    let chain = seq![t] + rest;
                    assert(chain.skip(1) =~= rest);
                    assert(chain[0] == t);
                    assert(visited + chain =~= visited.push(t) + rest);
                    assert(takes_in(states, b, visited, chain, r));
                } else {
                    assert(takes_in(states, b, visited, none, r));
                }
            }
        },
        _ => {
            assert(takes_in(states, b, visited, none, r));
        },
    }
}

/// A state whose jumps were taken in does what it did: in the place of the jump
/// at its end stands the body of the state it led to, and so on along a chain of
/// states, none of them twice, as far as that is legal.
pub proof fn law_inlined_jumps_do_the_same(states: Seq<StateView>, i: int)
    requires
        0 <= i < states.len(),
    ensures
        optimize::jumps_inlined(states).len() == states.len(),
        optimize::jumps_inlined(states)[i].id == states[i].id,
        exists|chain: Seq<u32>| #[trigger]
            takes_in(
                states,
                states[i].body,
                seq![states[i].id],
                chain,
                optimize::jumps_inlined(states)[i].body,
            ),
{
    lemma_absorbed(states, states[i].body, seq![states[i].id]);
}

/// The state is no entry point, and all it does is return.
pub open spec fn trampoline(states: Seq<StateView>, entries: Seq<u32>, s: u32) -> bool {
    &&& !entries.contains(s)
    &&& table::body_of(states, s) matches Some(b) && b.instrs.len() == 0 && b.tail is Ret
}

proof fn lemma_trampoline(states: Seq<StateView>, entries: Seq<u32>, s: u32)
    ensures
        optimize::only_returns(states, entries, s) == trampoline(states, entries, s),
{
    match table::body_of(states, s) {
        Some(b) => {
            if b.instrs.len() == 0 {
                assert(b.instrs =~= Seq::<InstrView>::empty());
            }
        },
        None => {},
    }
}

/// Folding leaves the instructions in their order, but for the return addresses
/// of states that only return.
pub proof fn law_folding_drops_trampolines(
    states: Seq<StateView>,
    entries: Seq<u32>,
    l: Seq<InstrView>,
)
    ensures
        optimize::instrs_folded(states, entries, l) == l.filter(
            |x: InstrView| !(x is PushRet && trampoline(states, entries, x->PushRet_0)),
        ),
    decreases l.len(),
{
    let f = |x: InstrView| !(x is PushRet && trampoline(states, entries, x->PushRet_0));
    reveal(Seq::filter);
    if l.len() > 0 {
        law_folding_drops_trampolines(states, entries, l.drop_last());
        if let InstrView::PushRet(s) = l.last() {
            lemma_trampoline(states, entries, s);
        }
    } else {
        assert(l.filter(f) =~= l);
    }
}

/// Folding takes a continuation away if and only if it only returns.
pub proof fn law_folding_drops_continuations(
    states: Seq<StateView>,
    entries: Seq<u32>,
    c: Option<u32>,
)
    ensures
        optimize::cont_folded(states, entries, c) == if c is Some && trampoline(
            states,
            entries,
            c->0,
        ) {
            None
        } else {
            c
        },
{
    if let Some(s) = c {
        lemma_trampoline(states, entries, s);
    }
}

/// The states that are kept are those that an entry point reaches, in their
/// order.
pub proof fn law_reached_states_are_kept(
    states: Seq<StateView>,
    entries: Seq<u32>,
    l: Seq<StateView>,
)
    ensures
        optimize::kept(states, entries, l) == l.filter(
            |s: StateView| optimize::reached(states, entries, s.id),
        ),
    decreases l.len(),
{
    let f = |s: StateView| optimize::reached(states, entries, s.id);
    reveal(Seq::filter);
    if l.len() > 0 {
        law_reached_states_are_kept(states, entries, l.drop_last());
    } else {
        assert(l.filter(f) =~= l);
    }
}

/// What `n` rounds make of the states.
pub open spec fn after_rounds(
    states: Seq<StateView>,
    entries: Seq<u32>,
    opts: LoweringOpts,
    n: nat,
) -> Seq<StateView>
    decreases n,
{
    if n == 0 {
        states
    } else {
        after_rounds(optimize::one_round(states, entries, opts), entries, opts, (n - 1) as nat)
    }
}

/// The rounds go on until one changes nothing, or until all that are allowed are
/// over.
pub proof fn law_rounds_settle(
    states: Seq<StateView>,
    entries: Seq<u32>,
    opts: LoweringOpts,
    n: nat,
)
    ensures
        ({
            let r = optimize::rounds(states, entries, opts, n);
            ||| optimize::one_round(r, entries, opts) == r
            ||| r == after_rounds(states, entries, opts, n + 1)
        }),
    decreases n,
{
    reveal_with_fuel(after_rounds, 2);
    let next = optimize::one_round(states, entries, opts);
    if n > 0 && next != states {
        law_rounds_settle(next, entries, opts, (n - 1) as nat);
    }
}

} // verus!
