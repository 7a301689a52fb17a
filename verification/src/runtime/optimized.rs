//! An optimized table gives the events of the table that it was made from.
use vstd::prelude::*;

use crate::analysis::AnalyzedGrammar;
use crate::lowering::closed;
use crate::lowering::dispatch::{self, Entry};
use crate::lowering::kept;
use crate::lowering::layout::{self, Plan};
use crate::lowering::levels::{self, Owed};
use crate::lowering::nesting;
use crate::lowering::optimize::{self, LoweringOpts};
use crate::lowering::program::{self, OpView, Program};
use crate::lowering::reach;
use crate::lowering::recovery::InsertionView;
use crate::lowering::table::{
    self, BodyView, InstrView, LeafView, StateTable, StateView, TailView, TreeView,
};
use crate::lowering::validate;
use crate::runtime::laws;
use crate::runtime::lexer::TableMatcher;
use crate::runtime::parser::{self, CursorView, ParserView, TERMINATED};
use crate::runtime::passes;
use crate::runtime::renaming;
use crate::runtime::simulation;
use crate::runtime::tree;
use crate::runtime::undisturbed;

verus! {

proof fn lemma_absorbed_unstamped(states: Seq<StateView>, body: BodyView, visited: Seq<u32>)
    requires
        renaming::all_unstamped(states),
        renaming::unstamped(body),
    ensures
        renaming::unstamped(optimize::absorbed(states, body, visited)),
    decreases states.len() - visited.len(),
{
    if let TailView::Jump(t) = body.tail {
        if !(visited.contains(t) || visited.len() >= states.len()) {
            if let Some(next) = table::body_of(states, t) {
                lemma_unstamped_at(states, t);
                if validate::valid_body(optimize::spliced(body, next)) {
                    lemma_absorbed_unstamped(
                        states,
                        optimize::spliced(body, next),
                        visited.push(t),
                    );
                }
            }
        }
    }
}

proof fn lemma_unstamped_at(states: Seq<StateView>, s: u32)
    requires
        renaming::all_unstamped(states),
    ensures
        match table::body_of(states, s) {
            Some(b) => renaming::unstamped(b),
            None => true,
        },
{
    laws::lemma_body_of(states, s);
    if let Some(b) = table::body_of(states, s) {
        let i = choose|i: int|
            0 <= i < states.len() && (#[trigger] states[i]).id == s && states[i].body == b;
        assert(renaming::unstamped(states[i].body));
    }
}

proof fn lemma_branch_unstamped(
    states: Seq<StateView>,
    entries: Seq<u32>,
    b: BodyView,
    depth: nat,
)
    requires
        renaming::all_unstamped(states),
        renaming::unstamped(b),
    ensures
        renaming::unstamped(optimize::branch_inlined(states, entries, b, depth)),
    decreases depth, b, 1nat,
{
    match optimize::branch_target(states, entries, b) {
        Some(next) => {
            if depth > 0 {
                lemma_unstamped_at(states, b.tail->Jump_0);
                lemma_inlined_unstamped(states, entries, next.tail, (depth - 1) as nat);
            }
        },
        None => lemma_inlined_unstamped(states, entries, b.tail, depth),
    }
}

proof fn lemma_inlined_unstamped(
    states: Seq<StateView>,
    entries: Seq<u32>,
    t: TailView,
    depth: nat,
)
    requires
        renaming::all_unstamped(states),
        renaming::tail_unstamped(t),
    ensures
        renaming::tail_unstamped(optimize::tail_inlined(states, entries, t, depth)),
    decreases depth, t, 0nat,
{
    match t {
        TailView::Star(_, b, _, _) => lemma_branch_unstamped(states, entries, *b, depth),
        TailView::Opt(_, b, _) => lemma_branch_unstamped(states, entries, *b, depth),
        TailView::Dispatch(tree, _, _, _) => lemma_tree_unstamped(states, entries, tree, depth),
        _ => {},
    }
}

proof fn lemma_leaf_unstamped(
    states: Seq<StateView>,
    entries: Seq<u32>,
    l: LeafView,
    depth: nat,
)
    requires
        renaming::all_unstamped(states),
        renaming::leaf_unstamped(l),
    ensures
        renaming::leaf_unstamped(optimize::leaf_inlined(states, entries, l, depth)),
    decreases depth, l, 0nat,
{
    if let LeafView::Arm(b) = l {
        lemma_branch_unstamped(states, entries, *b, depth);
    }
}

proof fn lemma_tree_unstamped(
    states: Seq<StateView>,
    entries: Seq<u32>,
    t: TreeView,
    depth: nat,
)
    requires
        renaming::all_unstamped(states),
        renaming::tree_unstamped(t),
    ensures
        renaming::tree_unstamped(optimize::tree_inlined(states, entries, t, depth)),
    decreases depth, t, 0nat,
{
    match t {
        TreeView::Leaf(l) => lemma_leaf_unstamped(states, entries, l, depth),
        TreeView::Switch(_, _, subs, default) => {
            lemma_leaf_unstamped(states, entries, default, depth);
            let next = optimize::trees_inlined(states, entries, subs, depth);
            assert forall|i: int| 0 <= i < next.len() implies renaming::tree_unstamped(
                #[trigger] next[i],
            ) by {
                assert(renaming::tree_unstamped(subs[i]));
                lemma_tree_unstamped(states, entries, subs[i], depth);
            }
        },
    }
}

/// What the second parser gives in `n` turns the first gives too, if no token
/// has a mode action or nothing of it is an error.
pub open spec fn gives_upto(
    st: StateTable,
    slow: Seq<StateView>,
    fast: Seq<StateView>,
    m: TableMatcher,
    emit: bool,
    p: ParserView,
    q: ParserView,
    n: nat,
) -> bool {
    simulation::modeless(st) || tree::clean(simulation::events_in(st, fast, m, emit, q, n))
        ==> exists|k: nat| #[trigger]
        simulation::keeps_up(st, slow, fast, m, emit, p, q, n, k)
}

/// The second list of states gives the events of the first. This holds of
/// every text if no token has a mode action, and otherwise of the texts that
/// are parsed without an error. Where the first never gives an error, the
/// second never does.
pub open spec fn gives_same(
    st: StateTable,
    slow: Seq<StateView>,
    fast: Seq<StateView>,
    m: TableMatcher,
    emit: bool,
    p: ParserView,
    q: ParserView,
) -> bool {
    &&& forall|n: nat| #[trigger] gives_upto(st, slow, fast, m, emit, p, q, n)
    &&& undisturbed::always_clean(st, slow, m, emit, p) ==> undisturbed::always_clean(
        st,
        fast,
        m,
        emit,
        q,
    )
}

proof fn lemma_same_then_same(
    st: StateTable,
    a: Seq<StateView>,
    b: Seq<StateView>,
    c: Seq<StateView>,
    m: TableMatcher,
    emit: bool,
    p: ParserView,
    q: ParserView,
    r: ParserView,
)
    requires
        gives_same(st, a, b, m, emit, p, q),
        gives_same(st, b, c, m, emit, q, r),
    ensures
        gives_same(st, a, c, m, emit, p, r),
{
    assert forall|n: nat| #[trigger] gives_upto(st, a, c, m, emit, p, r, n) by {
        if simulation::modeless(st) || tree::clean(
            simulation::events_in(st, c, m, emit, r, n),
        ) {
            assert(gives_upto(st, b, c, m, emit, q, r, n));
            let i = choose|k: nat| #[trigger] simulation::keeps_up(st, b, c, m, emit, q, r, n, k);
            assert(gives_upto(st, a, b, m, emit, p, q, i));
            let j = choose|k: nat| #[trigger] simulation::keeps_up(st, a, b, m, emit, p, q, i, k);
            assert(simulation::keeps_up(st, a, c, m, emit, p, r, n, j));
        }
    }
}

proof fn lemma_carried_same(
    st: StateTable,
    slow: Seq<StateView>,
    fast: Seq<StateView>,
    m: TableMatcher,
    emit: bool,
    base: simulation::Base,
    p: ParserView,
    q: ParserView,
)
    requires
        simulation::carries(st, slow, fast, m, emit, base),
        validate::all_valid(slow),
        p.garbage == q.garbage,
        base(p.cursor, q.cursor),
        q.cursor.lex.modes.len() == 1,
    ensures
        gives_same(st, slow, fast, m, emit, p, q),
{
    if undisturbed::always_clean(st, slow, m, emit, p) {
        assert forall|n: nat| tree::clean(
            #[trigger] simulation::events_in(st, fast, m, emit, q, n),
        ) by {
            undisturbed::lemma_clean_carried(st, slow, fast, m, emit, base, p, q, 0, n);
        }
    }
    assert(simulation::behind(st, slow, base, p.cursor, q.cursor, 0));
    assert forall|n: nat| #[trigger] gives_upto(st, slow, fast, m, emit, p, q, n) by {
        if simulation::modeless(st) || tree::clean(
            simulation::events_in(st, fast, m, emit, q, n),
        ) {
            let k = simulation::lemma_run_carried(st, slow, fast, m, emit, base, p, q, 0, n);
            assert(simulation::keeps_up(st, slow, fast, m, emit, p, q, n, k));
        }
    }
}

proof fn lemma_same_as_self(
    st: StateTable,
    states: Seq<StateView>,
    m: TableMatcher,
    emit: bool,
    p: ParserView,
)
    ensures
        gives_same(st, states, states, m, emit, p, p),
{
    assert forall|n: nat| #[trigger] gives_upto(st, states, states, m, emit, p, p, n) by {
        assert(simulation::keeps_up(st, states, states, m, emit, p, p, n, n));
    }
}

/// States to which the passes apply.
pub open spec fn sound(o: Owed, states: Seq<StateView>) -> bool {
    &&& table::ascending(states)
    &&& validate::all_valid(states)
    &&& levels::all_level(o, states)
    &&& renaming::all_unstamped(states)
    &&& passes::ends_apart(states)
}

proof fn lemma_ids_apart(a: Seq<StateView>, b: Seq<StateView>)
    requires
        passes::ends_apart(a),
        forall|i: int|
            0 <= i < b.len() ==> exists|j: int|
                0 <= j < a.len() && (#[trigger] b[i]).id == (#[trigger] a[j]).id,
    ensures
        passes::ends_apart(b),
{
    if table::has_state(b, TERMINATED) {
        let i = choose|i: int| 0 <= i < b.len() && (#[trigger] b[i]).id == TERMINATED;
        let j = choose|j: int| 0 <= j < a.len() && b[i].id == (#[trigger] a[j]).id;
        assert(a[j].id == TERMINATED);
    }
}

proof fn lemma_start_alike(t: Set<u32>, p: ParserView)
    ensures
        (simulation::alike_base(t))(p.cursor, p.cursor),
{
    simulation::lemma_thin_same(t, p.cursor.ret);
}

/// One round of the passes changes no event.
pub proof fn law_round_keeps_events(
    st: StateTable,
    o: Owed,
    states: Seq<StateView>,
    entries: Seq<u32>,
    opts: LoweringOpts,
    m: TableMatcher,
    emit: bool,
    src: Seq<char>,
    e: u32,
)
    requires
        sound(o, states),
        entries.contains(e),
        o.contains_key(e),
    ensures
        ({
            let next = optimize::one_round(states, entries, opts);
            let p = parser::started(src, e);
            &&& sound(levels::among(o, next), next)
            &&& levels::among(o, next).contains_key(e)
            &&& gives_same(st, states, next, m, emit, p, p)
        }),
{
    let p = parser::started(src, e);
    let none = Set::<u32>::empty();
    let only_jumps = LoweringOpts {
        inline_jumps: opts.inline_jumps,
        fold_trampolines: false,
        inline_branch_bodies: false,
        eliminate_dead: false,
    };
    let only_folds = LoweringOpts {
        inline_jumps: false,
        fold_trampolines: opts.fold_trampolines,
        inline_branch_bodies: false,
        eliminate_dead: false,
    };
    let only_branches = LoweringOpts {
        inline_jumps: false,
        fold_trampolines: false,
        inline_branch_bodies: opts.inline_branch_bodies,
        eliminate_dead: false,
    };
    let a = optimize::one_round(states, entries, only_jumps);
    lemma_part_sound(o, states, entries, only_jumps);
    if opts.inline_jumps {
        passes::lemma_jumps_carry(st, states, m, emit);
        lemma_start_alike(none, p);
        lemma_carried_same(st, states, a, m, emit, simulation::alike_base(none), p, p);
    } else {
        lemma_same_as_self(st, states, m, emit, p);
    }
    let b = optimize::one_round(a, entries, only_folds);
    lemma_part_sound(o, a, entries, only_folds);
    if opts.fold_trampolines {
        let t = passes::trampolines(a, entries);
        passes::lemma_folds_carry(st, a, entries, m, emit);
        lemma_start_alike(t, p);
        lemma_carried_same(st, a, b, m, emit, simulation::alike_base(t), p, p);
    } else {
        lemma_same_as_self(st, a, m, emit, p);
    }
    lemma_same_then_same(st, states, a, b, m, emit, p, p, p);
    let c = optimize::one_round(b, entries, only_branches);
    lemma_part_sound(o, b, entries, only_branches);
    if opts.inline_branch_bodies {
        passes::lemma_branches_carry(st, b, entries, m, emit);
        lemma_start_alike(none, p);
        lemma_carried_same(st, b, c, m, emit, simulation::alike_base(none), p, p);
    } else {
        lemma_same_as_self(st, b, m, emit, p);
    }
    lemma_same_then_same(st, states, b, c, m, emit, p, p, p);
    let d = optimize::one_round(states, entries, opts);
    let q = levels::among(o, d);
    if opts.eliminate_dead {
        let known = renaming::alive(o, c, entries);
        reach::lemma_entry_reached(optimize::edges_of(c), entries, e);
        let base = renaming::named_base(renaming::same_names(known));
        renaming::lemma_elimination_carries(st, o, c, entries, m, emit);
        assert(e != TERMINATED) by {
            assert(table::has_state(c, e));
        }
        assert(base(p.cursor, p.cursor));
        lemma_carried_same(st, c, d, m, emit, base, p, p);
        lemma_same_then_same(st, states, c, d, m, emit, p, p, p);
        optimize::lemma_kept_ascending(c, entries, c);
        assert forall|i: int| 0 <= i < d.len() implies validate::valid_body(
            (#[trigger] d[i]).body,
        ) && renaming::unstamped(d[i].body) by {
            assert(d.contains(d[i]));
            let j = choose|j: int| 0 <= j < c.len() && c[j] == d[i];
            assert(validate::valid_body(c[j].body));
            assert(renaming::unstamped(c[j].body));
        }
        assert forall|i: int| 0 <= i < d.len() implies exists|j: int|
            0 <= j < c.len() && (#[trigger] d[i]).id == (#[trigger] c[j]).id by {
            assert(d.contains(d[i]));
            let j = choose|j: int| 0 <= j < c.len() && c[j] == d[i];
            assert(c[j].id == d[i].id);
        }
        lemma_ids_apart(c, d);
    }
    levels::law_round_keeps_level(o, states, entries, opts);
    assert(table::has_state(states, e));
    kept::law_round_keeps_entries(states, entries, opts, e);
}

/// A pass that leaves out no state keeps the states sound.
proof fn lemma_part_sound(
    o: Owed,
    states: Seq<StateView>,
    entries: Seq<u32>,
    opts: LoweringOpts,
)
    requires
        sound(o, states),
        !opts.eliminate_dead,
        !(opts.inline_jumps && (opts.fold_trampolines || opts.inline_branch_bodies)),
        !(opts.fold_trampolines && opts.inline_branch_bodies),
    ensures
        sound(o, optimize::one_round(states, entries, opts)),
{
    let next = optimize::one_round(states, entries, opts);
    optimize::lemma_round_names(states, entries, opts);
    kept::law_round_keeps_valid(states, entries, opts);
    levels::law_round_keeps_level(o, states, entries, opts);
    assert(next.len() == states.len());
    assert forall|i: int| 0 <= i < states.len() implies (#[trigger] next[i]).id
        == states[i].id by {}
    assert(levels::among(o, next) =~= o) by {
        assert forall|s: u32| o.contains_key(s) implies #[trigger] table::has_state(next, s) by {
            assert(table::has_state(states, s));
            let i = choose|i: int| 0 <= i < states.len() && (#[trigger] states[i]).id == s;
            assert(next[i].id == s);
        }
    }
    assert forall|i: int| 0 <= i < next.len() implies renaming::unstamped(
        (#[trigger] next[i]).body,
    ) by {
        let b = states[i].body;
        assert(renaming::unstamped(states[i].body));
        if opts.inline_jumps {
            lemma_absorbed_unstamped(states, b, seq![states[i].id]);
        }
        if opts.inline_branch_bodies {
            lemma_inlined_unstamped(states, entries, b.tail, usize::MAX as nat);
        }
    }
    assert forall|i: int| 0 <= i < next.len() implies exists|j: int|
        0 <= j < states.len() && (#[trigger] next[i]).id == (#[trigger] states[j]).id by {
        assert(next[i].id == states[i].id);
    }
    lemma_ids_apart(states, next);
}

/// The passes change no event, however often they run.
pub proof fn law_rounds_keep_events(
    st: StateTable,
    o: Owed,
    states: Seq<StateView>,
    entries: Seq<u32>,
    opts: LoweringOpts,
    n: nat,
    m: TableMatcher,
    emit: bool,
    src: Seq<char>,
    e: u32,
)
    requires
        sound(o, states),
        entries.contains(e),
        o.contains_key(e),
    ensures
        ({
            let last = optimize::rounds(states, entries, opts, n);
            let p = parser::started(src, e);
            &&& sound(levels::among(o, last), last)
            &&& levels::among(o, last).contains_key(e)
            &&& gives_same(st, states, last, m, emit, p, p)
        }),
    decreases n,
{
    let next = optimize::one_round(states, entries, opts);
    let p = parser::started(src, e);
    law_round_keeps_events(st, o, states, entries, opts, m, emit, src, e);
    if !(n == 0 || next == states) {
        let q = levels::among(o, next);
        let k = (n - 1) as nat;
        let last = optimize::rounds(next, entries, opts, k);
        law_rounds_keep_events(st, q, next, entries, opts, k, m, emit, src, e);
        lemma_same_then_same(st, states, next, last, m, emit, p, p, p);
        levels::law_rounds_keep_level(o, states, entries, opts, n);
        assert forall|s: u32| #[trigger] table::has_state(last, s) implies table::has_state(
            next,
            s,
        ) by {
            levels::lemma_rounds_among(next, entries, opts, k, s);
        }
        assert(levels::among(q, last) =~= levels::among(o, last));
    }
}

/// The tables differ in their states and entry points only.
pub open spec fn same_rest(a: StateTable, b: StateTable) -> bool {
    a.k == b.k && a.tokens == b.tokens && a.first_sets == b.first_sets && a.sync_sets
        == b.sync_sets
}

proof fn lemma_instrs_table(
    a: StateTable,
    b: StateTable,
    c: CursorView,
    l: Seq<InstrView>,
    n: nat,
)
    requires
        same_rest(a, b),
    ensures
        parser::instrs_step(a, c, l, n) == parser::instrs_step(b, c, l, n),
    decreases n,
{
    if 0 < n <= l.len() {
        lemma_instrs_table(a, b, c, l, (n - 1) as nat);
    }
}

proof fn lemma_body_table(a: StateTable, b: StateTable, c: CursorView, x: BodyView)
    requires
        same_rest(a, b),
    ensures
        parser::body_step(a, c, x) == parser::body_step(b, c, x),
    decreases x, 1nat,
{
    lemma_instrs_table(a, b, c, x.instrs, x.instrs.len());
    lemma_tail_table(
        a,
        b,
        parser::instrs_step(a, c, x.instrs, x.instrs.len()).0,
        x.tail,
    );
}

proof fn lemma_tail_table(a: StateTable, b: StateTable, c: CursorView, t: TailView)
    requires
        same_rest(a, b),
    ensures
        parser::tail_step(a, c, t) == parser::tail_step(b, c, t),
    decreases t, 0nat,
{
    match t {
        TailView::Star(_, x, _, head) => {
            lemma_body_table(a, b, parser::pushed(c, head), *x);
        },
        TailView::Opt(_, x, cont) => {
            lemma_body_table(a, b, parser::calling(c, cont), *x);
        },
        TailView::Dispatch(tree, sync, cont, l) => {
            lemma_tree_table(a, b, c, tree, sync, cont, l);
        },
        _ => {},
    }
}

proof fn lemma_leaf_table(
    a: StateTable,
    b: StateTable,
    c: CursorView,
    leaf: LeafView,
    sync: u32,
    cont: Option<u32>,
    l: Seq<InsertionView>,
)
    requires
        same_rest(a, b),
    ensures
        parser::leaf_step(a, c, leaf, sync, cont, l) == parser::leaf_step(
            b,
            c,
            leaf,
            sync,
            cont,
            l,
        ),
    decreases leaf, 0nat,
{
    match leaf {
        LeafView::Arm(x) => {
            lemma_body_table(a, b, parser::calling(c, cont), *x);
        },
        LeafView::Error => {
            let i = parser::insertion_for(l, parser::look_kind(c, 0));
            let kinds = l[i].candidate_kinds;
            assert(parser::expected_text(a, kinds) == parser::expected_text(b, kinds)) by {
                assert(Seq::new(kinds.len(), |j: int| parser::shown_kind(a, kinds[j]))
                    =~= Seq::new(kinds.len(), |j: int| parser::shown_kind(b, kinds[j])));
            }
        },
        _ => {},
    }
}

proof fn lemma_tree_table(
    a: StateTable,
    b: StateTable,
    c: CursorView,
    tree: TreeView,
    sync: u32,
    cont: Option<u32>,
    l: Seq<InsertionView>,
)
    requires
        same_rest(a, b),
    ensures
        parser::tree_step(a, c, tree, sync, cont, l) == parser::tree_step(
            b,
            c,
            tree,
            sync,
            cont,
            l,
        ),
    decreases tree, 0nat,
{
    match tree {
        TreeView::Leaf(leaf) => lemma_leaf_table(a, b, c, leaf, sync, cont, l),
        TreeView::Switch(depth, kinds, subs, default) => {
            let j = parser::arm_for(kinds, parser::look_kind(c, depth as int));
            if 0 <= j < subs.len() {
                lemma_tree_table(a, b, c, subs[j], sync, cont, l);
            } else {
                lemma_leaf_table(a, b, c, default, sync, cont, l);
            }
        },
    }
}

proof fn lemma_events_table(
    a: StateTable,
    b: StateTable,
    states: Seq<StateView>,
    m: TableMatcher,
    emit: bool,
    p: ParserView,
    n: nat,
)
    requires
        same_rest(a, b),
    ensures
        simulation::turn_in(a, states, m, emit, p) == simulation::turn_in(b, states, m, emit, p),
        simulation::events_in(a, states, m, emit, p, n) == simulation::events_in(
            b,
            states,
            m,
            emit,
            p,
            n,
        ),
        simulation::after_in(a, states, m, emit, p, n) == simulation::after_in(
            b,
            states,
            m,
            emit,
            p,
            n,
        ),
    decreases n,
{
    if let Some(x) = table::body_of(states, p.cursor.state) {
        lemma_body_table(a, b, p.cursor, x);
    }
    if n > 0 {
        let q = simulation::turn_in(a, states, m, emit, p).0;
        lemma_events_table(a, b, states, m, emit, q, (n - 1) as nat);
    }
}

/// The second table is the first after the passes.
pub open spec fn optimized_from(before: StateTable, after: StateTable, opts: LoweringOpts) -> bool {
    let last = optimize::rounds(
        before.states@,
        optimize::entry_set(before.entry_states@),
        opts,
        usize::MAX as nat,
    );
    &&& after == (StateTable { states: after.states, entry_states: after.entry_states, ..before })
    &&& after.states@ == optimize::compacted(last)
    &&& layout::entries_view(after.entry_states@) == optimize::entries_renumbered(
        last,
        layout::entries_view(before.entry_states@),
    )
}

/// In `k` turns the parser of the first table gives what that of the second
/// gives in `n`, and comes to the end exactly if that does.
pub open spec fn gives_as(
    before: StateTable,
    after: StateTable,
    m: TableMatcher,
    emit: bool,
    p: ParserView,
    q: ParserView,
    n: nat,
    k: nat,
) -> bool {
    &&& k >= n
    &&& parser::events_within(before, m, emit, p, k) == parser::events_within(
        after,
        m,
        emit,
        q,
        n,
    )
    &&& parser::turn(after, m, emit, laws::after_turns(after, m, emit, q, n)).1 is Done
        <==> parser::turn(before, m, emit, laws::after_turns(before, m, emit, p, k)).1 is Done
}

/// Optimizing a table changes no event: from each entry point, whatever the
/// optimized table gives the other gives too, in at least as many turns. This
/// holds of every text if no token has a mode action, and otherwise of the
/// texts that either table parses without an error.
pub proof fn law_optimizing_keeps_events(
    before: StateTable,
    after: StateTable,
    opts: LoweringOpts,
    o: Owed,
    m: TableMatcher,
    emit: bool,
    src: Seq<char>,
    i: int,
    n: nat,
)
    requires
        optimized_from(before, after, opts),
        sound(o, before.states@),
        before.states@.len() < u32::MAX,
        0 <= i < before.entry_states@.len(),
        o.contains_key(before.entry_states@[i].1),
        simulation::modeless(before) || tree::clean(
            parser::events_within(
                after,
                m,
                emit,
                parser::started(src, after.entry_states@[i].1),
                n,
            ),
        ) || (forall|k: nat|
            tree::clean(
                #[trigger] parser::events_within(
                    before,
                    m,
                    emit,
                    parser::started(src, before.entry_states@[i].1),
                    k,
                ),
            )),
    ensures
        exists|k: nat| #[trigger]
            gives_as(
                before,
                after,
                m,
                emit,
                parser::started(src, before.entry_states@[i].1),
                parser::started(src, after.entry_states@[i].1),
                n,
                k,
            ),
{
    let states = before.states@;
    let entries = optimize::entry_set(before.entry_states@);
    let e = before.entry_states@[i].1;
    assert(entries[i] == e);
    assert(entries.contains(e));
    let last = optimize::rounds(states, entries, opts, usize::MAX as nat);
    law_rounds_keep_events(before, o, states, entries, opts, usize::MAX as nat, m, emit, src, e);
    kept::law_rounds_keep_valid(states, entries, opts, usize::MAX as nat);
    let b = levels::among(o, last);
    let fast = optimize::compacted(last);
    kept::law_compacting_keeps_valid(last);
    renaming::lemma_compacting_carries(before, b, last, m, emit);
    let w = renaming::new_names(b.dom(), last);
    let base = renaming::named_base(w);
    let p = parser::started(src, e);
    let q = parser::started(src, optimize::new_id(last, e));
    assert(e != TERMINATED) by {
        assert(table::has_state(last, e));
    }
    assert(base(p.cursor, q.cursor));
    lemma_carried_same(before, last, fast, m, emit, base, p, q);
    lemma_same_then_same(before, states, last, fast, m, emit, p, p, q);
    let old_entries = layout::entries_view(before.entry_states@);
    let new_entries = layout::entries_view(after.entry_states@);
    assert(old_entries[i].1 == e);
    assert(new_entries[i].1 == optimize::new_id(last, e));
    assert(new_entries.len() == after.entry_states@.len());
    assert(after.entry_states@[i].1 == optimize::new_id(last, e));
    lemma_events_table(before, after, fast, m, emit, q, n);
    simulation::lemma_events_in(after, m, emit, q, n);
    if forall|k: nat| tree::clean(#[trigger] parser::events_within(before, m, emit, p, k)) {
        assert(undisturbed::always_clean(before, states, m, emit, p)) by {
            assert forall|k: nat| tree::clean(
                #[trigger] simulation::events_in(before, states, m, emit, p, k),
            ) by {
                simulation::lemma_events_in(before, m, emit, p, k);
                assert(tree::clean(parser::events_within(before, m, emit, p, k)));
            }
        }
        assert(tree::clean(simulation::events_in(before, fast, m, emit, q, n)));
    }
    assert(gives_upto(before, states, fast, m, emit, p, q, n));
    let k = choose|k: nat| #[trigger]
        simulation::keeps_up(before, states, fast, m, emit, p, q, n, k);
    simulation::lemma_events_in(before, m, emit, p, k);
    let x = laws::after_turns(after, m, emit, q, n);
    let y = laws::after_turns(before, m, emit, p, k);
    simulation::lemma_events_in(after, m, emit, x, 0);
    simulation::lemma_events_in(before, m, emit, y, 0);
    lemma_events_table(before, after, fast, m, emit, x, 0);
    assert(gives_as(before, after, m, emit, p, q, n, k));
}

proof fn lemma_trie_unstamped(
    entries: Seq<Entry>,
    depth: usize,
    outer: LeafView,
    bound: nat,
)
    requires
        renaming::leaf_unstamped(outer),
    ensures
        renaming::tree_unstamped(dispatch::trie(entries, depth, outer, bound)),
    decreases bound - depth,
{
    let deeper = dispatch::going_on(entries, depth as int);
    let default = dispatch::default_at(entries, depth as int, outer);
    let e = dispatch::end_at(entries, depth as int);
    if e < entries.len() {
        assert(renaming::unstamped(table::jump_body(entries[e].1)));
    }
    assert(renaming::leaf_unstamped(default));
    let t = dispatch::trie(entries, depth, outer, bound);
    if !(deeper.len() == 0 || depth >= bound || depth >= usize::MAX) {
        let subs = t->Switch_2;
        let kinds = t->Switch_1;
        assert forall|i: int| 0 <= i < subs.len() implies renaming::tree_unstamped(
            #[trigger] subs[i],
        ) by {
            lemma_trie_unstamped(
                dispatch::with_kind(deeper, depth as int, kinds[i]),
                (depth + 1) as usize,
                default,
                bound,
            );
        }
    }
}

proof fn lemma_op_unstamped(p: Plan, op: OpView, here: u32, is_tail: bool)
    ensures
        renaming::unstamped(layout::op_body(p, op, here, is_tail)),
{
    match op {
        OpView::Opt(_, t) => {
            assert(renaming::unstamped(table::jump_body(layout::state_of(p, t))));
        },
        OpView::Star(_, t) => {
            assert(renaming::unstamped(table::jump_body(layout::state_of(p, t))));
        },
        OpView::Dispatch(arms, has_eps, _) => {
            let entries = dispatch::arm_entries(layout::arm_states(p, arms), p.pool);
            let outer = dispatch::outer_default(has_eps);
            lemma_trie_unstamped(entries, 0, outer, dispatch::longest(entries));
        },
        _ => {},
    }
}

proof fn lemma_layout_unstamped(p: Plan, n: nat)
    requires
        n <= p.order.len(),
    ensures
        renaming::all_unstamped(layout::states_upto(p, n)),
    decreases n,
{
    if n > 0 {
        lemma_layout_unstamped(p, (n - 1) as nat);
        let states = layout::states_upto(p, n);
        let before = layout::states_upto(p, (n - 1) as nat);
        let b = p.blocks[p.order[n - 1] as int];
        let base = 1 + layout::slots_upto(p.blocks, p.order, (n - 1) as nat);
        let here = layout::block_states(p, b, base);
        assert forall|i: int| 0 <= i < states.len() implies renaming::unstamped(
            (#[trigger] states[i]).body,
        ) by {
            if i < before.len() {
                assert(states[i] == before[i]);
            } else {
                let j = i - before.len();
                assert(states[i] == here[j]);
                if b.steps.len() > 0 {
                    lemma_op_unstamped(
                        p,
                        b.steps[j].0,
                        (base + j) as u32,
                        j + 1 == b.steps.len(),
                    );
                }
            }
        }
    }
}

/// What a program is laid out to can be optimized.
pub proof fn law_layout_is_sound(prog: Program, ag: AnalyzedGrammar)
    requires
        program::is_program(prog, ag),
        layout::program_ok(prog),
        layout::program_slots(prog) < u32::MAX,
    ensures
        ({
            let p = layout::plan_of(prog);
            sound(nesting::plan_owed(p), layout::states_upto(p, p.order.len()))
        }),
{
    let p = layout::plan_of(prog);
    let states = layout::states_upto(p, p.order.len());
    nesting::law_layout_is_level(prog, ag);
    closed::law_layout_is_valid(p, p.order.len());
    layout::lemma_state_ids(p, p.order.len());
    lemma_layout_unstamped(p, p.order.len());
    assert(passes::ends_apart(states)) by {
        if table::has_state(states, TERMINATED) {
            let i = choose|i: int| 0 <= i < states.len() && (#[trigger] states[i]).id == TERMINATED;
            assert(states[i].id == i + 1);
        }
    }
}

} // verus!
