//! Stamping recovery sites changes no parse that has no error.
use vstd::prelude::*;

use crate::lowering::optimize;
use crate::lowering::recovery::{self, InsertionView};
use crate::lowering::state_first::Firsts;
use crate::lowering::table::{
    self, BodyView, InstrView, LeafView, StateTable, StateView, TailView, TreeView,
};
use crate::runtime::laws::{self, RawView};
use crate::runtime::lexer::TableMatcher;
use crate::runtime::parser::{self, CursorView, ParserView, TurnView};
use crate::runtime::tree;

verus! {

/// The tables say the same but for the recovery sites of their states.
pub open spec fn stamped_from(before: StateTable, after: StateTable, f: Firsts) -> bool {
    &&& after == (StateTable { states: after.states, first_sets: after.first_sets, ..before })
    &&& after.states@ == recovery::stamped(before, f)
    &&& forall|id: u32| #[trigger]
        parser::first_seqs(after, id) == parser::first_seqs(before, id)
}

/// The event is an error.
spec fn failed(e: Option<RawView>) -> bool {
    e is Some && e->0 is Error
}

/// The steps are the same, or both are errors.
spec fn agree(r: (CursorView, Option<RawView>), q: (CursorView, Option<RawView>)) -> bool {
    r == q || failed(r.1) && failed(q.1)
}

proof fn lemma_instrs(
    before: StateTable,
    after: StateTable,
    f: Firsts,
    c: CursorView,
    l: Seq<InstrView>,
    n: nat,
)
    requires
        stamped_from(before, after, f),
    ensures
        parser::instrs_step(after, c, l, n) == parser::instrs_step(before, c, l, n),
    decreases n,
{
    if 0 < n <= l.len() {
        lemma_instrs(before, after, f, c, l, (n - 1) as nat);
    }
}

proof fn lemma_body(
    before: StateTable,
    after: StateTable,
    f: Firsts,
    rule: Seq<char>,
    c: CursorView,
    b: BodyView,
)
    requires
        stamped_from(before, after, f),
    ensures
        ({
            let r = parser::body_step(after, c, recovery::body_stamped(before, f, rule, b));
            agree(r, parser::body_step(before, c, b))
        }),
    decreases b, 1nat,
{
    let n = b.instrs.len();
    lemma_instrs(before, after, f, c, b.instrs, n);
    lemma_tail(before, after, f, rule, parser::instrs_step(before, c, b.instrs, n).0, b.tail);
}

proof fn lemma_tail(
    before: StateTable,
    after: StateTable,
    f: Firsts,
    rule: Seq<char>,
    c: CursorView,
    t: TailView,
)
    requires
        stamped_from(before, after, f),
    ensures
        ({
            let r = parser::tail_step(after, c, recovery::tail_stamped(before, f, rule, t));
            agree(r, parser::tail_step(before, c, t))
        }),
    decreases t, 0nat,
{
    match t {
        TailView::Star(first, x, _, head) => {
            assert(parser::first_seqs(after, first) == parser::first_seqs(before, first));
            lemma_body(before, after, f, rule, parser::pushed(c, head), *x);
        },
        TailView::Opt(first, x, cont) => {
            assert(parser::first_seqs(after, first) == parser::first_seqs(before, first));
            lemma_body(before, after, f, rule, parser::calling(c, cont), *x);
        },
        TailView::Dispatch(tree, sync, cont, l) => {
            lemma_tree(
                before,
                after,
                f,
                rule,
                c,
                tree,
                sync,
                cont,
                l,
                recovery::tree_insertions(before, f, rule, tree, cont),
            );
        },
        _ => {},
    }
}

proof fn lemma_leaf(
    before: StateTable,
    after: StateTable,
    f: Firsts,
    rule: Seq<char>,
    c: CursorView,
    leaf: LeafView,
    sync: u32,
    cont: Option<u32>,
    l: Seq<InsertionView>,
    m: Seq<InsertionView>,
)
    requires
        stamped_from(before, after, f),
    ensures
        ({
            let r = parser::leaf_step(
                after,
                c,
                recovery::leaf_stamped(before, f, rule, leaf),
                sync,
                cont,
                m,
            );
            agree(r, parser::leaf_step(before, c, leaf, sync, cont, l))
        }),
    decreases leaf, 0nat,
{
    if let LeafView::Arm(x) = leaf {
        lemma_body(before, after, f, rule, parser::calling(c, cont), *x);
    }
}

proof fn lemma_tree(
    before: StateTable,
    after: StateTable,
    f: Firsts,
    rule: Seq<char>,
    c: CursorView,
    tree: TreeView,
    sync: u32,
    cont: Option<u32>,
    l: Seq<InsertionView>,
    m: Seq<InsertionView>,
)
    requires
        stamped_from(before, after, f),
    ensures
        ({
            let r = parser::tree_step(
                after,
                c,
                recovery::tree_stamped(before, f, rule, tree),
                sync,
                cont,
                m,
            );
            agree(r, parser::tree_step(before, c, tree, sync, cont, l))
        }),
    decreases tree, 0nat,
{
    match tree {
        TreeView::Leaf(leaf) => lemma_leaf(before, after, f, rule, c, leaf, sync, cont, l, m),
        TreeView::Switch(depth, kinds, subs, default) => {
            let j = parser::arm_for(kinds, parser::look_kind(c, depth as int));
            let stamped = recovery::trees_stamped(before, f, rule, subs);
            lemma_trees(before, f, rule, subs);
            if 0 <= j < subs.len() {
                lemma_tree(before, after, f, rule, c, subs[j], sync, cont, l, m);
                assert(stamped[j] == recovery::tree_stamped(before, f, rule, subs[j]));
            } else {
                lemma_leaf(before, after, f, rule, c, default, sync, cont, l, m);
            }
        },
    }
}

/// Stamping a list of trees stamps each.
pub proof fn lemma_trees(st: StateTable, f: Firsts, rule: Seq<char>, subs: Seq<TreeView>)
    ensures
        recovery::trees_stamped(st, f, rule, subs).len() == subs.len(),
        forall|j: int|
            0 <= j < subs.len() ==> #[trigger] recovery::trees_stamped(st, f, rule, subs)[j]
                == recovery::tree_stamped(st, f, rule, subs[j]),
    decreases subs.len(),
{
    if subs.len() > 0 {
        lemma_trees(st, f, rule, subs.drop_last());
    }
}

proof fn lemma_found(st: StateTable, f: Firsts, states: Seq<StateView>, r: Seq<StateView>, id: u32)
    requires
        r.len() == states.len(),
        forall|i: int|
            0 <= i < r.len() ==> #[trigger] r[i] == optimize::with_body(
                states[i],
                recovery::body_stamped(st, f, states[i].rule, states[i].body),
            ),
    ensures
        match table::body_of(states, id) {
            Some(b) => exists|rule: Seq<char>|
                table::body_of(r, id) == Some(#[trigger] recovery::body_stamped(st, f, rule, b)),
            None => table::body_of(r, id) is None,
        },
    decreases states.len(),
{
    if states.len() > 0 {
        let n = states.len() - 1;
        assert(r[n].id == states[n].id);
        if states[n].id == id {
            assert(table::body_of(r, id) == Some(
                recovery::body_stamped(st, f, states[n].rule, states[n].body),
            ));
        } else {
            assert forall|i: int| 0 <= i < r.drop_last().len() implies #[trigger] r.drop_last()[i]
                == optimize::with_body(
                states.drop_last()[i],
                recovery::body_stamped(
                    st,
                    f,
                    states.drop_last()[i].rule,
                    states.drop_last()[i].body,
                ),
            ) by {
                assert(r.drop_last()[i] == r[i]);
            }
            lemma_found(st, f, states.drop_last(), r.drop_last(), id);
        }
    }
}

proof fn lemma_turn(
    before: StateTable,
    after: StateTable,
    f: Firsts,
    m: TableMatcher,
    emit: bool,
    p: ParserView,
)
    requires
        stamped_from(before, after, f),
    ensures
        ({
            let r = parser::turn(after, m, emit, p);
            let q = parser::turn(before, m, emit, p);
            r == q || r.1 is Event && r.1->Event_0 is Error && q.1 is Event && q.1->Event_0 is Error
        }),
{
    let c = p.cursor;
    lemma_found(before, f, before.states@, after.states@, c.state);
    if let Some(b) = table::body_of(before.states@, c.state) {
        let rule = choose|rule: Seq<char>|
            table::body_of(after.states@, c.state) == Some(
                #[trigger] recovery::body_stamped(before, f, rule, b),
            );
        lemma_body(before, after, f, rule, c, b);
    }
}

/// Where a stamped table gives no error, or the table before stamping gives
/// none, both give the same events and come to the same place, and one of them
/// to the end exactly if the other does.
pub proof fn law_stamping_keeps_clean_events(
    before: StateTable,
    after: StateTable,
    f: Firsts,
    m: TableMatcher,
    emit: bool,
    p: ParserView,
    n: nat,
)
    requires
        stamped_from(before, after, f),
        tree::clean(parser::events_within(after, m, emit, p, n)) || tree::clean(
            parser::events_within(before, m, emit, p, n),
        ),
    ensures
        parser::events_within(before, m, emit, p, n) == parser::events_within(
            after,
            m,
            emit,
            p,
            n,
        ),
        laws::after_turns(before, m, emit, p, n) == laws::after_turns(after, m, emit, p, n),
        parser::turn(after, m, emit, laws::after_turns(after, m, emit, p, n)).1 is Done
            <==> parser::turn(before, m, emit, laws::after_turns(before, m, emit, p, n)).1 is Done,
    decreases n,
{
    if n == 0 {
        lemma_turn(before, after, f, m, emit, p);
    } else {
        let (q, t) = parser::turn(after, m, emit, p);
        let (g, u) = parser::turn(before, m, emit, p);
        lemma_turn(before, after, f, m, emit, p);
        if let TurnView::Event(e) = t {
            let rest = parser::events_within(after, m, emit, q, (n - 1) as nat);
            if tree::clean(parser::events_within(after, m, emit, p, n)) {
                tree::lemma_clean_parts(seq![e], rest);
                assert(!(seq![e][0] is Error));
            }
        }
        if let TurnView::Event(e) = u {
            let rest = parser::events_within(before, m, emit, g, (n - 1) as nat);
            if tree::clean(parser::events_within(before, m, emit, p, n)) {
                tree::lemma_clean_parts(seq![e], rest);
                assert(!(seq![e][0] is Error));
            }
        }
        if t is Done {
            laws::law_done_is_final(after, m, emit, p);
        }
        law_stamping_keeps_clean_events(before, after, f, m, emit, q, (n - 1) as nat);
    }
}

} // verus!
