//! Merging of lexer states that behave alike.
//!
//! The states are split into classes: first by what they accept, then again
//! and again by the classes that their bytes lead into, until no class is
//! split any more. The classes are in order throughout.
use vstd::prelude::*;

use crate::lowering::subset::{self, Row};

verus! {

/// Some string tells the states of index `i` and `j` apart: after it one is
/// stuck and the other is not, or they accept differently.
pub open spec fn differ(rows: Seq<Row>, i: int, j: int) -> bool {
    exists|w: Seq<u8>| #[trigger]
        subset::outcome(rows, i + 1, w) != subset::outcome(rows, j + 1, w)
}

/// The class of a transition target; none comes behind all classes.
pub open spec fn class(cls: Seq<usize>, id: usize) -> int {
    if id == 0 {
        usize::MAX as int
    } else {
        cls[id - 1] as int
    }
}

/// Every byte below `n` leads both states into the same class.
pub open spec fn same_moves(rows: Seq<Row>, cls: Seq<usize>, i: int, j: int, n: int) -> bool {
    forall|b: int|
        0 <= b < n ==> class(cls, #[trigger] rows[i].table@[b]) == class(cls, rows[j].table@[b])
}

/// At the first byte that leads the states into different classes, that of the
/// first state comes first.
pub open spec fn moves_before(rows: Seq<Row>, cls: Seq<usize>, i: int, j: int) -> bool {
    exists|b: int|
        0 <= b < 256 && same_moves(rows, cls, i, j, b) && class(cls, #[trigger] rows[i].table@[b])
            < class(cls, rows[j].table@[b])
}

/// What accepts nothing comes before what accepts, and small kinds come before
/// large ones.
pub open spec fn accept_before(a: Option<u16>, b: Option<u16>) -> bool {
    match (a, b) {
        (None, Some(_)) => true,
        (Some(x), Some(y)) => x < y,
        _ => false,
    }
}

/// The states are not told apart: they accept the same or, where there are
/// classes already, they are in one class and every byte leads them into one.
pub open spec fn same(rows: Seq<Row>, old: Option<Seq<usize>>, i: int, j: int) -> bool {
    match old {
        None => rows[i].accept == rows[j].accept,
        Some(cls) => cls[i] == cls[j] && same_moves(rows, cls, i, j, 256),
    }
}

/// The first state comes before the second: by what they accept or, where
/// there are classes already, by class and then by where their bytes lead.
pub open spec fn before(rows: Seq<Row>, old: Option<Seq<usize>>, i: int, j: int) -> bool {
    match old {
        None => accept_before(rows[i].accept, rows[j].accept),
        Some(cls) => cls[i] < cls[j] || cls[i] == cls[j] && moves_before(rows, cls, i, j),
    }
}

/// Every number below that of a class is that of a class.
pub open spec fn dense(cls: Seq<usize>) -> bool {
    forall|i: int, c: usize|
        0 <= i < cls.len() && c < #[trigger] cls[i] ==> #[trigger] cls.contains(c)
}

/// The classes are numbered in the order of their states.
pub open spec fn split(rows: Seq<Row>, old: Option<Seq<usize>>, cls: Seq<usize>) -> bool {
    &&& cls.len() == rows.len()
    &&& dense(cls)
    &&& forall|i: int, j: int|
        #![trigger cls[i], cls[j]]
        0 <= i < rows.len() && 0 <= j < rows.len() ==> (cls[i] < cls[j] <==> before(
            rows,
            old,
            i,
            j,
        ))
}

/// The classes after `n` rounds.
pub open spec fn refined(rows: Seq<Row>, n: nat, cls: Seq<usize>) -> bool
    decreases n,
{
    if n == 0 {
        split(rows, None, cls)
    } else {
        exists|prev: Seq<usize>|
            refined(rows, (n - 1) as nat, prev) && #[trigger] split(rows, Some(prev), cls)
    }
}

/// No class is split any more.
pub open spec fn stable(rows: Seq<Row>, cls: Seq<usize>) -> bool {
    forall|i: int, j: int|
        #![trigger cls[i], cls[j]]
        0 <= i < rows.len() && 0 <= j < rows.len() && cls[i] == cls[j] ==> same_moves(
            rows,
            cls,
            i,
            j,
            256,
        )
}

/// The id of a class: that of the first state comes first, the others keep
/// their order.
pub open spec fn number(cls: Seq<usize>, c: usize) -> int {
    if c == cls[0] {
        1
    } else if c < cls[0] {
        c + 2
    } else {
        c + 1
    }
}

/// The id of the class of a transition target; 0 for none.
pub open spec fn merged_id(cls: Seq<usize>, id: usize) -> int {
    if id == 0 {
        0
    } else {
        number(cls, cls[id - 1])
    }
}

/// Each class as one state.
pub open spec fn merged(rows: Seq<Row>, cls: Seq<usize>, out: Seq<Row>) -> bool {
    &&& forall|i: int|
        0 <= i < rows.len() ==> 0 < number(cls, #[trigger] cls[i]) <= out.len() && out[number(
            cls,
            cls[i],
        ) - 1].accept == rows[i].accept
    &&& forall|i: int, b: int|
        0 <= i < rows.len() && 0 <= b < 256 ==> out[number(cls, cls[i]) - 1].table@[b]
            == merged_id(cls, #[trigger] rows[i].table@[b])
    &&& forall|k: int| 0 <= k < out.len() ==> #[trigger] is_number(cls, k + 1)
}

/// The id is that of a class.
pub open spec fn is_number(cls: Seq<usize>, id: int) -> bool {
    exists|i: int| 0 <= i < cls.len() && id == number(cls, #[trigger] cls[i])
}

/// How two states stand to each other.
#[derive(Clone, Copy, PartialEq, Eq, Structural)]
enum Side {
    Before,
    Same,
    Behind,
}

spec fn is_side(rows: Seq<Row>, old: Option<Seq<usize>>, i: int, j: int, s: Side) -> bool {
    match s {
        Side::Before => before(rows, old, i, j),
        Side::Same => same(rows, old, i, j),
        Side::Behind => before(rows, old, j, i),
    }
}

/// The classes fit the states.
spec fn fits(rows: Seq<Row>, old: Option<Seq<usize>>) -> bool {
    match old {
        None => true,
        Some(cls) => cls.len() == rows.len() && forall|i: int|
            0 <= i < cls.len() ==> #[trigger] cls[i] < rows.len(),
    }
}

spec fn old_view(old: &Option<Vec<usize>>) -> Option<Seq<usize>> {
    match old {
        None => None,
        Some(v) => Some(v@),
    }
}

fn accept_side(a: Option<u16>, b: Option<u16>) -> (s: Side)
    ensures
        match s {
            Side::Before => accept_before(a, b),
            Side::Same => a == b,
            Side::Behind => accept_before(b, a),
        },
{
    match (a, b) {
        (None, None) => Side::Same,
        (None, Some(_)) => Side::Before,
        (Some(_), None) => Side::Behind,
        (Some(x), Some(y)) => if x < y {
            Side::Before
        } else if x == y {
            Side::Same
        } else {
            Side::Behind
        },
    }
}

fn target_class(cls: &Vec<usize>, id: usize) -> (r: usize)
    requires
        id <= cls@.len(),
    ensures
        r == class(cls@, id),
{
    if id == 0 {
        usize::MAX
    } else {
        cls[id - 1]
    }
}

fn side_of(rows: &Vec<Row>, old: &Option<Vec<usize>>, i: usize, j: usize) -> (s: Side)
    requires
        subset::rows_ok(rows@),
        fits(rows@, old_view(old)),
        i < rows@.len(),
        j < rows@.len(),
    ensures
        is_side(rows@, old_view(old), i as int, j as int, s),
{
    let cls = match old {
        None => {
            return accept_side(rows[i].accept, rows[j].accept);
        },
        Some(v) => v,
    };
    if cls[i] < cls[j] {
        return Side::Before;
    }
    if cls[j] < cls[i] {
        return Side::Behind;
    }
    let mut b: usize = 0;
    while b < 256
        invariant
            b <= 256,
            subset::rows_ok(rows@),
            old_view(old) == Some(cls@),
            cls@.len() == rows@.len(),
            i < rows@.len(),
            j < rows@.len(),
            cls@[i as int] == cls@[j as int],
            same_moves(rows@, cls@, i as int, j as int, b as int),
        decreases 256 - b,
    {
        let x = target_class(cls, rows[i].table[b]);
        let y = target_class(cls, rows[j].table[b]);
        if x < y {
            assert(class(cls@, rows@[i as int].table@[b as int]) < class(
                cls@,
                rows@[j as int].table@[b as int],
            ));
            return Side::Before;
        }
        if y < x {
            proof {
                lemma_same_moves_back(rows@, cls@, i as int, j as int, b as int);
                assert(class(cls@, rows@[j as int].table@[b as int]) < class(
                    cls@,
                    rows@[i as int].table@[b as int],
                ));
            }
            return Side::Behind;
        }
        b += 1;
    }
    Side::Same
}

proof fn lemma_same_moves_back(rows: Seq<Row>, cls: Seq<usize>, i: int, j: int, n: int)
    requires
        same_moves(rows, cls, i, j, n),
    ensures
        same_moves(rows, cls, j, i, n),
{
    assert forall|b: int| 0 <= b < n implies class(cls, #[trigger] rows[j].table@[b]) == class(
        cls,
        rows[i].table@[b],
    ) by {
        assert(class(cls, rows[i].table@[b]) == class(cls, rows[j].table@[b]));
    }
}

proof fn lemma_same_moves_trans(rows: Seq<Row>, cls: Seq<usize>, i: int, j: int, k: int, n: int)
    requires
        same_moves(rows, cls, i, j, n),
        same_moves(rows, cls, j, k, n),
    ensures
        same_moves(rows, cls, i, k, n),
{
    assert forall|b: int| 0 <= b < n implies class(cls, #[trigger] rows[i].table@[b]) == class(
        cls,
        rows[k].table@[b],
    ) by {
        assert(class(cls, rows[j].table@[b]) == class(cls, rows[k].table@[b]));
    }
}

proof fn lemma_same(rows: Seq<Row>, old: Option<Seq<usize>>, i: int, j: int)
    requires
        same(rows, old, i, j),
    ensures
        same(rows, old, j, i),
        !before(rows, old, i, j),
        !before(rows, old, j, i),
{
    if let Some(cls) = old {
        lemma_same_moves_back(rows, cls, i, j, 256);
        if moves_before(rows, cls, i, j) {
            let b = choose|b: int|
                0 <= b < 256 && same_moves(rows, cls, i, j, b) && class(
                    cls,
                    #[trigger] rows[i].table@[b],
                ) < class(cls, rows[j].table@[b]);
            assert(class(cls, rows[i].table@[b]) == class(cls, rows[j].table@[b]));
        }
        if moves_before(rows, cls, j, i) {
            let b = choose|b: int|
                0 <= b < 256 && same_moves(rows, cls, j, i, b) && class(
                    cls,
                    #[trigger] rows[j].table@[b],
                ) < class(cls, rows[i].table@[b]);
            assert(class(cls, rows[j].table@[b]) == class(cls, rows[i].table@[b]));
        }
    }
}

proof fn lemma_same_trans(rows: Seq<Row>, old: Option<Seq<usize>>, i: int, j: int, k: int)
    requires
        same(rows, old, i, j),
        same(rows, old, j, k),
    ensures
        same(rows, old, i, k),
{
    if let Some(cls) = old {
        lemma_same_moves_trans(rows, cls, i, j, k, 256);
    }
}

/// The order goes on over states that are the same or come behind.
proof fn lemma_before_trans(rows: Seq<Row>, old: Option<Seq<usize>>, i: int, j: int, k: int)
    requires
        before(rows, old, i, j) || same(rows, old, i, j),
        before(rows, old, j, k) || same(rows, old, j, k),
        before(rows, old, i, j) || before(rows, old, j, k),
    ensures
        before(rows, old, i, k),
{
    if let Some(cls) = old {
        if cls[i] == cls[j] && cls[j] == cls[k] {
            let n: int = 256;
            let a: int = if moves_before(rows, cls, i, j) {
                choose|b: int|
                    0 <= b < 256 && same_moves(rows, cls, i, j, b) && class(
                        cls,
                        #[trigger] rows[i].table@[b],
                    ) < class(cls, rows[j].table@[b])
            } else {
                n
            };
            let d: int = if moves_before(rows, cls, j, k) {
                choose|b: int|
                    0 <= b < 256 && same_moves(rows, cls, j, k, b) && class(
                        cls,
                        #[trigger] rows[j].table@[b],
                    ) < class(cls, rows[k].table@[b])
            } else {
                n
            };
            let m = if a <= d {
                a
            } else {
                d
            };
            assert(m < 256);
            assert(same_moves(rows, cls, i, j, m));
            assert(same_moves(rows, cls, j, k, m));
            lemma_same_moves_trans(rows, cls, i, j, k, m);
            if a < d {
                assert(class(cls, rows[j].table@[m]) == class(cls, rows[k].table@[m]));
            } else if d < a {
                assert(class(cls, rows[i].table@[m]) == class(cls, rows[j].table@[m]));
            }
            assert(class(cls, rows[i].table@[m]) < class(cls, rows[k].table@[m]));
        }
    }
}

proof fn lemma_before_asym(rows: Seq<Row>, old: Option<Seq<usize>>, i: int, j: int)
    requires
        before(rows, old, i, j),
    ensures
        !before(rows, old, j, i),
        !same(rows, old, i, j),
        !same(rows, old, j, i),
{
    if same(rows, old, i, j) {
        lemma_same(rows, old, i, j);
    }
    if same(rows, old, j, i) {
        lemma_same(rows, old, j, i);
    }
    if before(rows, old, j, i) {
        lemma_before_trans(rows, old, i, j, i);
        assert(same(rows, old, i, i));
        lemma_same(rows, old, i, i);
    }
}

/// The states are in strict order.
spec fn in_order(rows: Seq<Row>, old: Option<Seq<usize>>, reps: Seq<usize>) -> bool {
    &&& forall|c: int| 0 <= c < reps.len() ==> #[trigger] reps[c] < rows.len()
    &&& forall|c: int, d: int|
        0 <= c < d < reps.len() ==> before(
            rows,
            old,
            #[trigger] reps[c] as int,
            #[trigger] reps[d] as int,
        )
}

/// One of the states is the same as that of index `i`.
spec fn stands_in(rows: Seq<Row>, old: Option<Seq<usize>>, reps: Seq<usize>, i: int) -> bool {
    exists|c: int| 0 <= c < reps.len() && same(rows, old, #[trigger] reps[c] as int, i)
}

/// The first of the states that does not come before that of index `i`, and
/// how it stands to it.
fn place_of(rows: &Vec<Row>, old: &Option<Vec<usize>>, reps: &Vec<usize>, i: usize) -> (r: (
    usize,
    bool,
))
    requires
        subset::rows_ok(rows@),
        fits(rows@, old_view(old)),
        forall|c: int| 0 <= c < reps@.len() ==> #[trigger] reps@[c] < rows@.len(),
        i < rows@.len(),
    ensures
        r.0 <= reps@.len(),
        forall|c: int|
            0 <= c < r.0 ==> before(rows@, old_view(old), #[trigger] reps@[c] as int, i as int),
        r.1 ==> r.0 < reps@.len() && same(
            rows@,
            old_view(old),
            reps@[r.0 as int] as int,
            i as int,
        ),
        !r.1 && r.0 < reps@.len() ==> before(
            rows@,
            old_view(old),
            i as int,
            reps@[r.0 as int] as int,
        ),
{
    let mut c: usize = 0;
    while c < reps.len()
        invariant
            c <= reps@.len(),
            subset::rows_ok(rows@),
            fits(rows@, old_view(old)),
            forall|k: int| 0 <= k < reps@.len() ==> #[trigger] reps@[k] < rows@.len(),
            i < rows@.len(),
            forall|k: int|
                0 <= k < c ==> before(
                    rows@,
                    old_view(old),
                    #[trigger] reps@[k] as int,
                    i as int,
                ),
        decreases reps@.len() - c,
    {
        match side_of(rows, old, reps[c], i) {
            Side::Before => {},
            Side::Same => {
                return (c, true);
            },
            Side::Behind => {
                return (c, false);
            },
        }
        c += 1;
    }
    (c, false)
}

/// One state of each class, in order.
fn representatives(rows: &Vec<Row>, old: &Option<Vec<usize>>) -> (reps: Vec<usize>)
    requires
        subset::rows_ok(rows@),
        fits(rows@, old_view(old)),
    ensures
        in_order(rows@, old_view(old), reps@),
        forall|i: int|
            0 <= i < rows@.len() ==> #[trigger] stands_in(rows@, old_view(old), reps@, i),
{
    let ghost ov = old_view(old);
    let mut reps: Vec<usize> = Vec::new();
    let mut i: usize = 0;
    while i < rows.len()
        invariant
            i <= rows@.len(),
            subset::rows_ok(rows@),
            fits(rows@, ov),
            ov == old_view(old),
            in_order(rows@, ov, reps@),
            forall|k: int| 0 <= k < i ==> #[trigger] stands_in(rows@, ov, reps@, k),
        decreases rows@.len() - i,
    {
        let (c, known) = place_of(rows, old, &reps, i);
        let ghost prev = reps@;
        if !known {
            reps.insert(c, i);
            proof {
                lemma_inserted(rows@, ov, prev, reps@, c as int, i);
            }
        } else {
            assert(same(rows@, ov, reps@[c as int] as int, i as int));
        }
        proof {
            assert forall|k: int| 0 <= k <= i implies #[trigger] stands_in(rows@, ov, reps@, k) by {
                if k < i {
                    assert(stands_in(rows@, ov, prev, k));
                }
            }
        }
        i += 1;
    }
    reps
}

proof fn lemma_inserted(
    rows: Seq<Row>,
    old: Option<Seq<usize>>,
    prev: Seq<usize>,
    reps: Seq<usize>,
    c: int,
    i: usize,
)
    requires
        in_order(rows, old, prev),
        0 <= c <= prev.len(),
        i < rows.len(),
        reps == prev.insert(c, i),
        forall|k: int| 0 <= k < c ==> before(rows, old, #[trigger] prev[k] as int, i as int),
        c < prev.len() ==> before(rows, old, i as int, prev[c] as int),
    ensures
        in_order(rows, old, reps),
        forall|k: int| #[trigger]
            stands_in(rows, old, prev, k) ==> stands_in(rows, old, reps, k),
        stands_in(rows, old, reps, i as int),
{
    assert forall|a: int| 0 <= a < reps.len() implies #[trigger] reps[a] < rows.len() by {
        if a < c {
            assert(reps[a] == prev[a]);
        } else if a > c {
            assert(reps[a] == prev[a - 1]);
        }
    }
    assert forall|a: int, d: int| 0 <= a < d < reps.len() implies before(
        rows,
        old,
        #[trigger] reps[a] as int,
        #[trigger] reps[d] as int,
    ) by {
        if d < c {
            assert(reps[a] == prev[a] && reps[d] == prev[d]);
        } else if d == c {
            assert(reps[a] == prev[a] && reps[d] == i);
        } else if a < c {
            assert(reps[a] == prev[a] && reps[d] == prev[d - 1]);
        } else if a == c {
            assert(reps[a] == i && reps[d] == prev[d - 1]);
            if d - 1 > c {
                lemma_before_trans(rows, old, i as int, prev[c] as int, prev[d - 1] as int);
            }
        } else {
            assert(reps[a] == prev[a - 1] && reps[d] == prev[d - 1]);
        }
    }
    assert forall|k: int| #[trigger] stands_in(rows, old, prev, k) implies stands_in(
        rows,
        old,
        reps,
        k,
    ) by {
        let a = choose|a: int| 0 <= a < prev.len() && same(rows, old, #[trigger] prev[a] as int, k);
        let m = if a < c {
            a
        } else {
            a + 1
        };
        assert(reps[m] == prev[a]);
    }
    assert(reps[c] == i);
    assert(same(rows, old, reps[c] as int, i as int));
}

/// The class of each state.
spec fn classed(rows: Seq<Row>, old: Option<Seq<usize>>, reps: Seq<usize>, cls: Seq<usize>) -> bool {
    &&& cls.len() == rows.len()
    &&& forall|i: int|
        0 <= i < cls.len() ==> #[trigger] cls[i] < reps.len() && same(
            rows,
            old,
            reps[cls[i] as int] as int,
            i,
        )
}

/// The classes of the states, and one state of each.
fn classes(rows: &Vec<Row>, old: &Option<Vec<usize>>) -> (r: (Vec<usize>, Vec<usize>))
    requires
        subset::rows_ok(rows@),
        fits(rows@, old_view(old)),
    ensures
        in_order(rows@, old_view(old), r.0@),
        classed(rows@, old_view(old), r.0@, r.1@),
        split(rows@, old_view(old), r.1@),
        r.0@.len() > 0,
        r.0@.len() <= rows@.len(),
        forall|c: int| 0 <= c < r.0@.len() ==> r.1@[#[trigger] r.0@[c] as int] == c,
{
    let ghost ov = old_view(old);
    let reps = representatives(rows, old);
    let mut cls: Vec<usize> = Vec::new();
    let mut i: usize = 0;
    while i < rows.len()
        invariant
            i <= rows@.len(),
            subset::rows_ok(rows@),
            fits(rows@, ov),
            ov == old_view(old),
            in_order(rows@, ov, reps@),
            forall|k: int| 0 <= k < rows@.len() ==> #[trigger] stands_in(rows@, ov, reps@, k),
            cls@.len() == i,
            forall|k: int|
                0 <= k < i ==> #[trigger] cls@[k] < reps@.len() && same(
                    rows@,
                    ov,
                    reps@[cls@[k] as int] as int,
                    k,
                ),
        decreases rows@.len() - i,
    {
        let (c, known) = place_of(rows, old, &reps, i);
        assert(known) by {
            assert(stands_in(rows@, ov, reps@, i as int));
            let d = choose|d: int|
                0 <= d < reps@.len() && same(rows@, ov, #[trigger] reps@[d] as int, i as int);
            lemma_same(rows@, ov, reps@[d] as int, i as int);
            if !known && c < reps@.len() {
                if d < c {
                    assert(before(rows@, ov, reps@[d] as int, i as int));
                } else if d == c {
                    assert(before(rows@, ov, i as int, reps@[d] as int));
                } else {
                    lemma_before_trans(
                        rows@,
                        ov,
                        i as int,
                        reps@[c as int] as int,
                        reps@[d] as int,
                    );
                }
            }
        }
        cls.push(c);
        i += 1;
    }
    proof {
        lemma_classed(rows@, ov, reps@, cls@);
        lemma_distinct_bound(reps@, rows@.len() as int);
    }
    (reps, cls)
}

proof fn lemma_classed(
    rows: Seq<Row>,
    old: Option<Seq<usize>>,
    reps: Seq<usize>,
    cls: Seq<usize>,
)
    requires
        rows.len() > 0,
        in_order(rows, old, reps),
        classed(rows, old, reps, cls),
    ensures
        split(rows, old, cls),
        reps.len() > 0,
        forall|c: int, d: int| 0 <= c < d < reps.len() ==> #[trigger] reps[c] != #[trigger] reps[d],
        forall|c: int| 0 <= c < reps.len() ==> cls[#[trigger] reps[c] as int] == c,
{
    assert(cls[0] < reps.len());
    assert forall|c: int, d: int| 0 <= c < d < reps.len() implies #[trigger] reps[c]
        != #[trigger] reps[d] by {
        lemma_before_asym(rows, old, reps[c] as int, reps[d] as int);
    }
    assert forall|c: int| 0 <= c < reps.len() implies cls[#[trigger] reps[c] as int] == c by {
        let i = reps[c] as int;
        let d = cls[i] as int;
        assert(same(rows, old, reps[d] as int, i));
        if c < d {
            lemma_before_asym(rows, old, reps[c] as int, reps[d] as int);
        } else if d < c {
            lemma_before_asym(rows, old, reps[d] as int, reps[c] as int);
        }
    }
    assert forall|i: int, c: usize| 0 <= i < cls.len() && c < #[trigger] cls[i] implies
        #[trigger] cls.contains(c) by {
        assert(cls[reps[c as int] as int] == c);
    }
    assert forall|i: int, j: int|
        #![trigger cls[i], cls[j]]
        0 <= i < rows.len() && 0 <= j < rows.len() implies (cls[i] < cls[j] <==> before(
        rows,
        old,
        i,
        j,
    )) by {
        let x = reps[cls[i] as int] as int;
        let y = reps[cls[j] as int] as int;
        assert(same(rows, old, x, i) && same(rows, old, y, j));
        lemma_same(rows, old, x, i);
        lemma_same(rows, old, y, j);
        if cls[i] < cls[j] {
            lemma_before_trans(rows, old, i, x, y);
            lemma_before_trans(rows, old, i, y, j);
        } else if cls[j] < cls[i] {
            lemma_before_trans(rows, old, j, y, x);
            lemma_before_trans(rows, old, j, x, i);
            lemma_before_asym(rows, old, j, i);
        } else {
            lemma_same_trans(rows, old, i, x, j);
            lemma_same(rows, old, i, j);
        }
    }
}

/// Distinct indices below `n` are at most `n`.
proof fn lemma_distinct_bound(s: Seq<usize>, n: int)
    requires
        n >= 0,
        forall|c: int| 0 <= c < s.len() ==> #[trigger] s[c] < n,
        forall|c: int, d: int| 0 <= c < d < s.len() ==> #[trigger] s[c] != #[trigger] s[d],
    ensures
        s.len() <= n,
{
    let t = Seq::new(s.len(), |i: int| s[i] as int);
    assert(t.no_duplicates());
    t.unique_seq_to_set();
    vstd::set_lib::lemma_int_range(0, n);
    assert(t.to_set().subset_of(vstd::set_lib::set_int_range(0, n)));
    vstd::set_lib::lemma_len_subset(t.to_set(), vstd::set_lib::set_int_range(0, n));
}

/// States of one class accept the same, and states of different classes can be
/// told apart.
spec fn honest(rows: Seq<Row>, cls: Seq<usize>) -> bool {
    forall|i: int, j: int|
        #![trigger cls[i], cls[j]]
        0 <= i < rows.len() && 0 <= j < rows.len() ==> if cls[i] == cls[j] {
            rows[i].accept == rows[j].accept
        } else {
            differ(rows, i, j)
        }
}

/// States that are classed alike are the same, and others are not.
proof fn lemma_one_class(
    rows: Seq<Row>,
    old: Option<Seq<usize>>,
    reps: Seq<usize>,
    cls: Seq<usize>,
    i: int,
    j: int,
)
    requires
        split(rows, old, cls),
        classed(rows, old, reps, cls),
        0 <= i < rows.len(),
        0 <= j < rows.len(),
    ensures
        cls[i] == cls[j] <==> same(rows, old, i, j),
{
    let x = reps[cls[i] as int] as int;
    assert(same(rows, old, x, i));
    assert(same(rows, old, reps[cls[j] as int] as int, j));
    lemma_same(rows, old, x, i);
    if cls[i] == cls[j] {
        lemma_same_trans(rows, old, i, x, j);
    } else if same(rows, old, i, j) {
        lemma_same(rows, old, i, j);
    }
}

proof fn lemma_first_honest(rows: Seq<Row>, reps: Seq<usize>, cls: Seq<usize>)
    requires
        split(rows, None, cls),
        classed(rows, None, reps, cls),
    ensures
        honest(rows, cls),
{
    assert forall|i: int, j: int|
        #![trigger cls[i], cls[j]]
        0 <= i < rows.len() && 0 <= j < rows.len() implies if cls[i] == cls[j] {
        rows[i].accept == rows[j].accept
    } else {
        differ(rows, i, j)
    } by {
        lemma_one_class(rows, None, reps, cls, i, j);
        if cls[i] != cls[j] {
            let w = Seq::<u8>::empty();
            assert(subset::outcome(rows, i + 1, w) != subset::outcome(rows, j + 1, w));
        }
    }
}

/// States whose bytes lead into different classes can be told apart.
proof fn lemma_moves_differ(rows: Seq<Row>, cls: Seq<usize>, i: int, j: int)
    requires
        subset::rows_ok(rows),
        fits(rows, Some(cls)),
        honest(rows, cls),
        0 <= i < rows.len(),
        0 <= j < rows.len(),
        !same_moves(rows, cls, i, j, 256),
    ensures
        differ(rows, i, j),
{
    let b = choose|b: int|
        0 <= b < 256 && class(cls, #[trigger] rows[i].table@[b]) != class(cls, rows[j].table@[b]);
    let x = rows[i].table@[b];
    let y = rows[j].table@[b];
    assert(x <= rows.len());
    assert(y <= rows.len());
    let v: Seq<u8> = if x == 0 || y == 0 {
        Seq::empty()
    } else {
        assert(cls[x - 1] != cls[y - 1]);
        assert(differ(rows, x - 1, y - 1));
        choose|w: Seq<u8>| #[trigger]
            subset::outcome(rows, x - 1 + 1, w) != subset::outcome(rows, y - 1 + 1, w)
    };
    let w = seq![b as u8] + v;
    assert(w.skip(1) =~= v);
    assert(w[0] as int == b);
    assert(subset::run_rows(rows, i + 1, w) == subset::run_rows(rows, x as int, v));
    assert(subset::run_rows(rows, j + 1, w) == subset::run_rows(rows, y as int, v));
    assert(subset::outcome(rows, i + 1, w) != subset::outcome(rows, j + 1, w));
}

proof fn lemma_next_honest(rows: Seq<Row>, cls: Seq<usize>, reps: Seq<usize>, next: Seq<usize>)
    requires
        subset::rows_ok(rows),
        fits(rows, Some(cls)),
        honest(rows, cls),
        split(rows, Some(cls), next),
        classed(rows, Some(cls), reps, next),
    ensures
        honest(rows, next),
{
    assert forall|i: int, j: int|
        #![trigger next[i], next[j]]
        0 <= i < rows.len() && 0 <= j < rows.len() implies if next[i] == next[j] {
        rows[i].accept == rows[j].accept
    } else {
        differ(rows, i, j)
    } by {
        lemma_one_class(rows, Some(cls), reps, next, i, j);
        assert(cls[i] == cls[j] || cls[i] != cls[j]);
        if next[i] != next[j] && cls[i] == cls[j] {
            lemma_moves_differ(rows, cls, i, j);
        }
    }
}

/// The class that a later class comes from.
spec fn from_class(cls: Seq<usize>, reps: Seq<usize>, c: int) -> int {
    cls[reps[c] as int] as int
}

/// Some later class comes from the class.
spec fn is_split(cls: Seq<usize>, reps: Seq<usize>, e: int) -> bool {
    exists|a: int| 0 <= a < reps.len() && #[trigger] from_class(cls, reps, a) == e
}

/// A list that grows by steps and leaves nothing out does not run ahead of its
/// index.
proof fn lemma_slow(cls: Seq<usize>, reps: Seq<usize>, n: int, c: int)
    requires
        0 <= c < reps.len(),
        forall|a: int, b: int|
            0 <= a <= b < reps.len() ==> #[trigger] from_class(cls, reps, a)
                <= #[trigger] from_class(cls, reps, b),
        forall|e: int| 0 <= e < n ==> #[trigger] is_split(cls, reps, e),
        forall|a: int| 0 <= a < reps.len() ==> 0 <= #[trigger] from_class(cls, reps, a) < n,
    ensures
        from_class(cls, reps, c) <= c,
        c + 1 < reps.len() ==> from_class(cls, reps, c + 1) <= from_class(cls, reps, c) + 1,
    decreases c,
{
    if c > 0 {
        lemma_slow(cls, reps, n, c - 1);
    } else {
        assert(0 <= from_class(cls, reps, 0) < n);
        assert(is_split(cls, reps, 0));
        let z = choose|a: int| 0 <= a < reps.len() && #[trigger] from_class(cls, reps, a) == 0;
        assert(from_class(cls, reps, 0) <= from_class(cls, reps, z));
    }
    if c + 1 < reps.len() {
        let e = from_class(cls, reps, c) + 1;
        if from_class(cls, reps, c + 1) > e {
            assert(0 <= from_class(cls, reps, c + 1) < n);
            assert(is_split(cls, reps, e));
            let a = choose|a: int| 0 <= a < reps.len() && #[trigger] from_class(cls, reps, a) == e;
            if a <= c {
                assert(from_class(cls, reps, a) <= from_class(cls, reps, c));
            } else {
                assert(from_class(cls, reps, c + 1) <= from_class(cls, reps, a));
            }
        }
    }
}

/// Such a list, if it is as long as what it runs through, runs through it one
/// by one.
proof fn lemma_exact(cls: Seq<usize>, reps: Seq<usize>, n: int, c: int)
    requires
        0 <= c < reps.len(),
        reps.len() == n,
        forall|a: int, b: int|
            0 <= a <= b < reps.len() ==> #[trigger] from_class(cls, reps, a)
                <= #[trigger] from_class(cls, reps, b),
        forall|e: int| 0 <= e < n ==> #[trigger] is_split(cls, reps, e),
        forall|a: int| 0 <= a < reps.len() ==> 0 <= #[trigger] from_class(cls, reps, a) < n,
    ensures
        from_class(cls, reps, c) == c,
    decreases reps.len() - c,
{
    lemma_slow(cls, reps, n, c);
    if c + 1 < reps.len() {
        lemma_exact(cls, reps, n, c + 1);
    } else {
        assert(is_split(cls, reps, n - 1));
        let a = choose|a: int|
            0 <= a < reps.len() && #[trigger] from_class(cls, reps, a) == n - 1;
        assert(from_class(cls, reps, a) <= from_class(cls, reps, c));
    }
}

/// A round does not lose classes, and if it makes no more there is nothing
/// left to split.
proof fn lemma_round(
    rows: Seq<Row>,
    before_last: Option<Seq<usize>>,
    reps: Seq<usize>,
    cls: Seq<usize>,
    more: Seq<usize>,
    next: Seq<usize>,
)
    requires
        classed(rows, before_last, reps, cls),
        forall|c: int| 0 <= c < reps.len() ==> cls[#[trigger] reps[c] as int] == c,
        forall|c: int| 0 <= c < reps.len() ==> #[trigger] reps[c] < rows.len(),
        in_order(rows, Some(cls), more),
        split(rows, Some(cls), next),
        classed(rows, Some(cls), more, next),
        more.len() > 0,
        reps.len() > 0,
    ensures
        more.len() >= reps.len(),
        more.len() == reps.len() ==> stable(rows, cls),
{
    let n = reps.len() as int;
    assert forall|a: int, b: int| 0 <= a <= b < more.len() implies #[trigger] from_class(
        cls,
        more,
        a,
    ) <= #[trigger] from_class(cls, more, b) by {
        if a < b {
            assert(before(rows, Some(cls), more[a] as int, more[b] as int));
        }
    }
    assert forall|a: int| 0 <= a < more.len() implies 0 <= #[trigger] from_class(cls, more, a)
        < n by {
        assert(more[a] < rows.len());
        assert(cls[more[a] as int] < reps.len());
    }
    assert forall|e: int| 0 <= e < n implies #[trigger] is_split(cls, more, e) by {
        let i = reps[e] as int;
        assert(cls[i] == e);
        let a = next[i] as int;
        assert(same(rows, Some(cls), more[a] as int, i));
        assert(from_class(cls, more, a) == e);
    }
    assert(is_split(cls, more, n - 1));
    let last = choose|a: int| 0 <= a < more.len() && #[trigger] from_class(cls, more, a) == n - 1;
    lemma_slow(cls, more, n, last);
    if more.len() == reps.len() {
        assert forall|i: int, j: int|
            #![trigger cls[i], cls[j]]
            0 <= i < rows.len() && 0 <= j < rows.len() && cls[i] == cls[j] implies same_moves(
            rows,
            cls,
            i,
            j,
            256,
        ) by {
            assert(next[i] < more.len() && next[j] < more.len());
            assert(same(rows, Some(cls), more[next[i] as int] as int, i));
            assert(same(rows, Some(cls), more[next[j] as int] as int, j));
            lemma_exact(cls, more, n, next[i] as int);
            lemma_exact(cls, more, n, next[j] as int);
            lemma_one_class(rows, Some(cls), more, next, i, j);
        }
    }
}

/// The class that gets the id.
fn class_at(start: usize, k: usize) -> (c: usize)
    requires
        k >= 1,
    ensures
        c == (if k == 1 {
            start as int
        } else if k - 2 < start {
            k - 2
        } else {
            k - 1
        }),
{
    if k == 1 {
        start
    } else if k - 2 < start {
        k - 2
    } else {
        k - 1
    }
}

fn id_of(start: usize, c: usize) -> (r: usize)
    requires
        c < usize::MAX,
        start < usize::MAX,
    ensures
        r == (if c == start {
            1int
        } else if c < start {
            c + 2
        } else {
            c + 1
        }),
{
    if c == start {
        1
    } else if c < start {
        c + 2
    } else {
        c + 1
    }
}

/// The row of a class.
fn merged_row(row: &Row, cls: &Vec<usize>) -> (r: Row)
    requires
        cls@.len() > 0,
        row.table@.len() == 256,
        forall|b: int| 0 <= b < 256 ==> #[trigger] row.table@[b] <= cls@.len(),
        forall|i: int| 0 <= i < cls@.len() ==> #[trigger] cls@[i] < usize::MAX,
    ensures
        r.accept == row.accept,
        r.table@.len() == 256,
        forall|b: int| 0 <= b < 256 ==> r.table@[b] == merged_id(cls@, #[trigger] row.table@[b]),
{
    let mut table: Vec<usize> = Vec::new();
    let mut b: usize = 0;
    while b < 256
        invariant
            b <= 256,
            cls@.len() > 0,
            row.table@.len() == 256,
            forall|k: int| 0 <= k < 256 ==> #[trigger] row.table@[k] <= cls@.len(),
            forall|i: int| 0 <= i < cls@.len() ==> #[trigger] cls@[i] < usize::MAX,
            table@.len() == b,
            forall|k: int|
                0 <= k < b ==> table@[k] == merged_id(cls@, #[trigger] row.table@[k]),
        decreases 256 - b,
    {
        let id = row.table[b];
        if id == 0 {
            table.push(0);
        } else {
            table.push(id_of(cls[0], cls[id - 1]));
        }
        b += 1;
    }
    Row { table, accept: row.accept }
}

/// A run of the merged states goes where one of their members goes.
proof fn lemma_merged_run(rows: Seq<Row>, cls: Seq<usize>, out: Seq<Row>, i: int, w: Seq<u8>)
    requires
        subset::rows_ok(rows),
        cls.len() == rows.len(),
        merged(rows, cls, out),
        0 <= i < rows.len(),
    ensures
        0 <= subset::run_rows(rows, i + 1, w) <= rows.len(),
        subset::run_rows(out, number(cls, cls[i]), w) == merged_id(
            cls,
            subset::run_rows(rows, i + 1, w) as usize,
        ),
    decreases w.len(),
{
    let c = number(cls, cls[i]);
    assert(0 < c <= out.len());
    if w.len() > 0 {
        let b = w[0] as int;
        let v = w.skip(1);
        let x = rows[i].table@[b];
        assert(out[c - 1].table@[b] == merged_id(cls, rows[i].table@[b]));
        assert(x <= rows.len());
        if x == 0 {
            assert(subset::run_rows(out, 0, v) == 0);
            assert(subset::run_rows(rows, 0, v) == 0);
        } else {
            lemma_merged_run(rows, cls, out, x - 1, v);
        }
    }
}

/// If every state can be reached, so can every merged one.
proof fn lemma_merged_reached(rows: Seq<Row>, cls: Seq<usize>, out: Seq<Row>, k: int)
    requires
        subset::rows_ok(rows),
        cls.len() == rows.len(),
        merged(rows, cls, out),
        subset::numbered_as_met(rows),
        1 <= k <= out.len(),
    ensures
        subset::reached(out, k),
{
    assert(is_number(cls, (k - 1) + 1));
    let i = choose|i: int| 0 <= i < cls.len() && k == number(cls, #[trigger] cls[i]);
    subset::lemma_met_is_reached(rows, i + 1);
    let w = choose|w: Seq<u8>| #[trigger] subset::run_rows(rows, 1, w) == i + 1;
    lemma_merged_run(rows, cls, out, 0, w);
    assert(subset::run_rows(out, 1, w) == k);
}

/// The merged states do what their members do.
proof fn lemma_quotient(rows: Seq<Row>, cls: Seq<usize>, out: Seq<Row>, i: int, w: Seq<u8>)
    requires
        subset::rows_ok(rows),
        cls.len() == rows.len(),
        merged(rows, cls, out),
        0 <= i < rows.len(),
    ensures
        subset::outcome(out, number(cls, cls[i]), w) == subset::outcome(rows, i + 1, w),
    decreases w.len(),
{
    let c = number(cls, cls[i]);
    assert(0 < c <= out.len() && out[c - 1].accept == rows[i].accept);
    if w.len() > 0 {
        let b = w[0] as int;
        let v = w.skip(1);
        let x = rows[i].table@[b];
        assert(out[c - 1].table@[b] == merged_id(cls, rows[i].table@[b]));
        assert(x <= rows.len());
        if x == 0 {
            assert(subset::run_rows(out, 0, v) == 0);
            assert(subset::run_rows(rows, 0, v) == 0);
        } else {
            lemma_quotient(rows, cls, out, x - 1, v);
        }
    }
}

/// Merge states that behave alike: same acceptance, and every byte leads both
/// into merged states. What the automaton does on any input is unchanged, and
/// no two remaining states behave alike. The class of the first state is
/// first, and the others are in the order in which the rounds of splitting put
/// them.
pub fn minimize(rows: Vec<Row>) -> (out: Vec<Row>)
    requires
        subset::rows_ok(rows@),
    ensures
        subset::rows_ok(out@),
        out@.len() <= rows@.len(),
        exists|n: nat, cls: Seq<usize>| #[trigger]
            refined(rows@, n, cls) && stable(rows@, cls) && #[trigger] merged(rows@, cls, out@),
        forall|w: Seq<u8>| #[trigger]
            subset::outcome(out@, 1, w) == subset::outcome(rows@, 1, w),
        forall|i: int, j: int|
            0 <= i < j < out@.len() ==> #[trigger] differ(out@, i, j),
        subset::numbered_as_met(rows@) ==> forall|k: int|
            1 <= k <= out@.len() ==> #[trigger] subset::reached(out@, k),
{
    let none: Option<Vec<usize>> = None;
    let (mut reps, mut cls) = classes(&rows, &none);
    let ghost mut n: nat = 0;
    let ghost mut from: Option<Seq<usize>> = None;
    let mut done = false;
    proof {
        lemma_first_honest(rows@, reps@, cls@);
    }
    while !done
        invariant
            subset::rows_ok(rows@),
            0 < reps@.len() <= rows@.len(),
            classed(rows@, from, reps@, cls@),
            forall|c: int| 0 <= c < reps@.len() ==> #[trigger] reps@[c] < rows@.len(),
            forall|c: int| 0 <= c < reps@.len() ==> cls@[#[trigger] reps@[c] as int] == c,
            honest(rows@, cls@),
            refined(rows@, n, cls@),
            done ==> stable(rows@, cls@),
        decreases rows@.len() - reps@.len(), (if done { 0int } else { 1int }),
    {
        proof {
            assert forall|i: int| 0 <= i < cls@.len() implies #[trigger] cls@[i] < rows@.len() by {
                assert(cls@[i] < reps@.len());
            }
        }
        let old = Some(cls);
        let (more, next) = classes(&rows, &old);
        let cls_back = match old {
            Some(v) => v,
            None => Vec::new(),
        };
        proof {
            lemma_round(rows@, from, reps@, cls_back@, more@, next@);
            lemma_next_honest(rows@, cls_back@, more@, next@);
        }
        if more.len() == reps.len() {
            cls = cls_back;
            done = true;
        } else {
            proof {
                assert(split(rows@, Some(cls_back@), next@));
                assert(refined(rows@, n, cls_back@));
                n = n + 1;
                assert(refined(rows@, n, next@));
                from = Some(cls_back@);
            }
            reps = more;
            cls = next;
        }
    }
    let ghost count = reps@.len() as int;
    proof {
        assert forall|i: int| 0 <= i < cls@.len() implies #[trigger] cls@[i] < count by {
            assert(cls@[i] < reps@.len());
        }
    }
    let start = cls[0];
    let mut out: Vec<Row> = Vec::new();
    while out.len() < reps.len()
        invariant
            out@.len() <= reps@.len(),
            count == reps@.len(),
            reps@.len() <= rows@.len(),
            subset::rows_ok(rows@),
            cls@.len() == rows@.len(),
            start == cls@[0],
            forall|i: int| 0 <= i < cls@.len() ==> #[trigger] cls@[i] < count,
            forall|c: int| 0 <= c < reps@.len() ==> #[trigger] reps@[c] < rows@.len(),
            forall|k: int| 0 <= k < out@.len() ==> #[trigger] row_of(rows@, cls@, reps@, out@, k),
        decreases reps@.len() - out@.len(),
    {
        let k = out.len();
        let c = class_at(start, k + 1);
        let row = &rows[reps[c]];
        let r = merged_row(row, &cls);
        let ghost prev = out@;
        out.push(r);
        proof {
            assert forall|m: int| 0 <= m < out@.len() implies #[trigger] row_of(
                rows@,
                cls@,
                reps@,
                out@,
                m,
            ) by {
                if m < prev.len() {
                    assert(row_of(rows@, cls@, reps@, prev, m));
                    assert(out@[m] == prev[m]);
                }
            }
        }
    }
    proof {
        lemma_merged(rows@, cls@, reps@, out@);
        if subset::numbered_as_met(rows@) {
            assert forall|k: int| 1 <= k <= out@.len() implies #[trigger] subset::reached(
                out@,
                k,
            ) by {
                lemma_merged_reached(rows@, cls@, out@, k);
            }
        }
        assert forall|w: Seq<u8>| #[trigger]
            subset::outcome(out@, 1, w) == subset::outcome(rows@, 1, w) by {
            lemma_quotient(rows@, cls@, out@, 0, w);
        }
        assert forall|i: int, j: int| 0 <= i < j < out@.len() implies #[trigger] differ(
            out@,
            i,
            j,
        ) by {
            assert(is_number(cls@, i + 1) && is_number(cls@, j + 1));
            let a = choose|a: int| 0 <= a < cls@.len() && i + 1 == number(cls@, #[trigger] cls@[a]);
            let b = choose|b: int| 0 <= b < cls@.len() && j + 1 == number(cls@, #[trigger] cls@[b]);
            assert(cls@[a] != cls@[b]);
            assert(differ(rows@, a, b));
            let w = choose|w: Seq<u8>| #[trigger]
                subset::outcome(rows@, a + 1, w) != subset::outcome(rows@, b + 1, w);
            lemma_quotient(rows@, cls@, out@, a, w);
            lemma_quotient(rows@, cls@, out@, b, w);
            assert(subset::outcome(out@, i + 1, w) != subset::outcome(out@, j + 1, w));
        }
    }
    out
}

/// The class that the index gets.
spec fn class_for(cls: Seq<usize>, k: int) -> int {
    if k == 0 {
        cls[0] as int
    } else if k - 1 < cls[0] {
        k - 1
    } else {
        k
    }
}

/// The row is that of its class.
spec fn row_of(
    rows: Seq<Row>,
    cls: Seq<usize>,
    reps: Seq<usize>,
    out: Seq<Row>,
    k: int,
) -> bool {
    let row = rows[reps[class_for(cls, k)] as int];
    &&& out[k].accept == row.accept
    &&& out[k].table@.len() == 256
    &&& forall|b: int|
        0 <= b < 256 ==> out[k].table@[b] == merged_id(cls, #[trigger] row.table@[b])
}

proof fn lemma_merged(rows: Seq<Row>, cls: Seq<usize>, reps: Seq<usize>, out: Seq<Row>)
    requires
        subset::rows_ok(rows),
        cls.len() == rows.len(),
        0 < reps.len() <= rows.len(),
        out.len() == reps.len(),
        honest(rows, cls),
        stable(rows, cls),
        forall|i: int| 0 <= i < cls.len() ==> #[trigger] cls[i] < reps.len(),
        forall|c: int| 0 <= c < reps.len() ==> #[trigger] reps[c] < rows.len(),
        forall|c: int| 0 <= c < reps.len() ==> cls[#[trigger] reps[c] as int] == c,
        forall|k: int| 0 <= k < out.len() ==> #[trigger] row_of(rows, cls, reps, out, k),
    ensures
        merged(rows, cls, out),
        subset::rows_ok(out),
{
    assert(cls[0] < reps.len());
    assert forall|i: int| 0 <= i < rows.len() implies 0 < number(cls, #[trigger] cls[i])
        <= out.len() && out[number(cls, cls[i]) - 1].accept == rows[i].accept by {
        let k = number(cls, cls[i]) - 1;
        assert(cls[i] < reps.len());
        assert(class_for(cls, k) == cls[i]);
        assert(row_of(rows, cls, reps, out, k));
        let r = reps[cls[i] as int] as int;
        assert(cls[r] == cls[i]);
    }
    assert forall|i: int, b: int| 0 <= i < rows.len() && 0 <= b < 256 implies out[number(
        cls,
        cls[i],
    ) - 1].table@[b] == merged_id(cls, #[trigger] rows[i].table@[b]) by {
        let k = number(cls, cls[i]) - 1;
        assert(cls[i] < reps.len());
        assert(class_for(cls, k) == cls[i]);
        assert(row_of(rows, cls, reps, out, k));
        let r = reps[cls[i] as int] as int;
        assert(cls[r] == cls[i]);
        assert(same_moves(rows, cls, r, i, 256));
        let x = rows[r].table@[b];
        let y = rows[i].table@[b];
        assert(class(cls, x) == class(cls, y));
        assert(x <= rows.len() && y <= rows.len());
        if x != 0 {
            assert(cls[x - 1] < reps.len());
        }
        if y != 0 {
            assert(cls[y - 1] < reps.len());
        }
    }
    assert forall|k: int| 0 <= k < out.len() implies #[trigger] is_number(cls, k + 1) by {
        let c = class_for(cls, k);
        let i = reps[c] as int;
        assert(cls[i] == c);
        assert(k + 1 == number(cls, cls[i]));
    }
    assert forall|k: int, b: int| 0 <= k < out.len() && 0 <= b < 256 implies
        #[trigger] out[k].table@[b] <= out.len() by {
        assert(row_of(rows, cls, reps, out, k));
        let id = rows[reps[class_for(cls, k)] as int].table@[b];
        assert(id <= rows.len());
        assert(out[k].table@[b] == merged_id(cls, id));
        if id != 0 {
            assert(cls[id - 1] < reps.len());
        }
    }
    assert forall|k: int| 0 <= k < out.len() implies (#[trigger] out[k]).table@.len() == 256 by {
        assert(row_of(rows, cls, reps, out, k));
    }
}

} // verus!
