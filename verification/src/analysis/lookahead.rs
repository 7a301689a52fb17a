//! LL conflicts, and the search for the smallest lookahead without any.
use vstd::prelude::*;

use crate::analysis::first_follow::{self, FirstTable, Firsts, NullTable, Nulls};
use crate::analysis::first_set::{self, FirstSet, NameSeq};
use crate::analysis::follow;
use crate::analysis::follow_k;
use crate::diagnostic::{self, Diagnostic, DiagnosticView};
use crate::grammar::ir::{self, Expr, ExprView, Grammar, RuleView};
use crate::names;
use crate::span::Span;
use crate::text;

verus! {

/// The rounds without progress after which the search for a lookahead ends.
pub const STUCK_LIMIT: usize = 3;

/// Two alternatives that predict on the same tokens.
#[derive(Debug)]
pub struct RawConflict {
    /// The rule with the alternatives.
    pub rule_name: String,
    /// Where the rule stands.
    pub rule_span: Span,
    /// The first alternative.
    pub arm_i: usize,
    /// The second alternative.
    pub arm_j: usize,
    /// What both predict on.
    pub ambiguous: FirstSet,
}

/// What a [`RawConflict`] says.
pub ghost struct ConflictView {
    pub rule_name: Seq<char>,
    pub rule_span: Span,
    pub arm_i: int,
    pub arm_j: int,
    pub ambiguous: Set<NameSeq>,
}

impl RawConflict {
    /// What the conflict says.
    pub open spec fn view(self) -> ConflictView {
        ConflictView {
            rule_name: self.rule_name@,
            rule_span: self.rule_span,
            arm_i: self.arm_i as int,
            arm_j: self.arm_j as int,
            ambiguous: self.ambiguous@,
        }
    }
}

/// What the conflicts say.
pub open spec fn conflicts_view(cs: Seq<RawConflict>) -> Seq<ConflictView> {
    Seq::new(cs.len(), |i: int| cs[i]@)
}

/// What FIRST(k) says of an expression.
pub ghost struct Tables {
    pub nulls: Nulls,
    pub firsts: Firsts,
    pub k: nat,
}

/// FIRST(k) of an expression.
pub open spec fn first(t: Tables, e: ExprView) -> Set<NameSeq> {
    first_follow::first_expr(e, t.nulls, t.firsts, t.k)
}

/// What an alternative predicts on, where `tail` comes after it.
pub open spec fn predict(t: Tables, e: ExprView, tail: Set<NameSeq>) -> Set<NameSeq> {
    first_set::concat_k_of(first(t, e), tail, t.k).remove(Seq::empty())
}

/// The sequences of one set that are a prefix of one in the other.
pub open spec fn overlap(a: Set<NameSeq>, b: Set<NameSeq>) -> Set<NameSeq> {
    Set::new(
        |s: NameSeq|
            {
                ||| b.contains(s) && exists|x: NameSeq| #[trigger] a.contains(x) && s.is_prefix_of(x)
                ||| a.contains(s) && exists|x: NameSeq| #[trigger] b.contains(x) && s.is_prefix_of(x)
            },
    )
}

/// The conflicts between alternative `i` and those from `j` on.
pub open spec fn row_conflicts(
    t: Tables,
    xs: Seq<ExprView>,
    tail: Set<NameSeq>,
    r: RuleView,
    i: int,
    j: int,
) -> Seq<ConflictView>
    decreases xs.len() - j,
{
    if j < 0 || j >= xs.len() {
        Seq::empty()
    } else {
        let both = overlap(predict(t, xs[i], tail), predict(t, xs[j], tail));
        let here = if both == Set::<NameSeq>::empty() {
            Seq::empty()
        } else {
            seq![
                ConflictView {
                    rule_name: r.name,
                    rule_span: r.span,
                    arm_i: i,
                    arm_j: j,
                    ambiguous: both,
                },
            ]
        };
        here + row_conflicts(t, xs, tail, r, i, j + 1)
    }
}

/// The conflicts between alternatives from `i` on.
pub open spec fn arm_conflicts(
    t: Tables,
    xs: Seq<ExprView>,
    tail: Set<NameSeq>,
    r: RuleView,
    i: int,
) -> Seq<ConflictView>
    decreases xs.len() - i,
{
    if i < 0 || i >= xs.len() {
        Seq::empty()
    } else {
        row_conflicts(t, xs, tail, r, i, i + 1) + arm_conflicts(t, xs, tail, r, i + 1)
    }
}

/// The conflicts in an expression of rule `r`, where `tail` comes after it.
pub open spec fn expr_conflicts(t: Tables, e: ExprView, tail: Set<NameSeq>, r: RuleView) -> Seq<
    ConflictView,
>
    decreases e, 0nat,
{
    match e {
        ExprView::Concat(xs) => seq_conflicts(t, xs, tail, r, xs.len()),
        ExprView::Alt(xs) => arm_conflicts(t, xs, tail, r, 0) + alt_conflicts(
            t,
            xs,
            tail,
            r,
            xs.len(),
        ),
        ExprView::Opt(x) => expr_conflicts(t, *x, tail, r),
        ExprView::Star(x) => expr_conflicts(
            t,
            *x,
            follow_k::loop_tail(*x, tail, t.nulls, t.firsts, t.k),
            r,
        ),
        ExprView::Plus(x) => expr_conflicts(
            t,
            *x,
            follow_k::loop_tail(*x, tail, t.nulls, t.firsts, t.k),
            r,
        ),
        ExprView::Label(_, x) => expr_conflicts(t, *x, tail, r),
        _ => Seq::empty(),
    }
}

/// The conflicts in the first `n` items of a sequence.
pub open spec fn seq_conflicts(
    t: Tables,
    xs: Seq<ExprView>,
    tail: Set<NameSeq>,
    r: RuleView,
    n: nat,
) -> Seq<ConflictView>
    decreases xs, n,
{
    if n == 0 || n > xs.len() {
        Seq::empty()
    } else {
        seq_conflicts(t, xs, tail, r, (n - 1) as nat) + expr_conflicts(
            t,
            xs[n - 1],
            follow_k::rest_then(xs, n as int, tail, t.nulls, t.firsts, t.k),
            r,
        )
    }
}

/// The conflicts in the first `n` alternatives.
pub open spec fn alt_conflicts(
    t: Tables,
    xs: Seq<ExprView>,
    tail: Set<NameSeq>,
    r: RuleView,
    n: nat,
) -> Seq<ConflictView>
    decreases xs, n,
{
    if n == 0 || n > xs.len() {
        Seq::empty()
    } else {
        alt_conflicts(t, xs, tail, r, (n - 1) as nat) + expr_conflicts(t, xs[n - 1], tail, r)
    }
}

/// The conflicts in the first `n` rules.
pub open spec fn rules_conflicts(t: Tables, rules: Seq<RuleView>, fo: Firsts, n: nat) -> Seq<
    ConflictView,
>
    decreases n,
{
    if n == 0 || n > rules.len() {
        Seq::empty()
    } else {
        let r = rules[n - 1];
        rules_conflicts(t, rules, fo, (n - 1) as nat) + expr_conflicts(
            t,
            r.body,
            first_follow::set_at(fo, r.name),
            r,
        )
    }
}

proof fn lemma_conflicts_push(cs: Seq<RawConflict>, c: RawConflict)
    ensures
        conflicts_view(cs.push(c)) == conflicts_view(cs).push(c@),
{
    assert(conflicts_view(cs.push(c)) =~= conflicts_view(cs).push(c@));
}

/// True iff `b` is a prefix of `a`.
fn starts_with(a: &Vec<String>, b: &Vec<String>) -> (r: bool)
    ensures
        r == names::list_view(b@).is_prefix_of(names::list_view(a@)),
{
    let ghost av = names::list_view(a@);
    let ghost bv = names::list_view(b@);
    if b.len() > a.len() {
        return false;
    }
    let mut i: usize = 0;
    while i < b.len()
        invariant
            i <= b@.len() <= a@.len(),
            av == names::list_view(a@),
            bv == names::list_view(b@),
            forall|j: int| 0 <= j < i ==> #[trigger] av[j] == bv[j],
        decreases b@.len() - i,
    {
        if a[i] != b[i] {
            assert(av[i as int] != bv[i as int]);
            assert(!bv.is_prefix_of(av)) by {
                if bv.is_prefix_of(av) {
                    assert(av.subrange(0, bv.len() as int)[i as int] == av[i as int]);
                }
            }
            return false;
        }
        assert(av[i as int] == bv[i as int]);
        i += 1;
    }
    assert(bv =~= av.subrange(0, bv.len() as int));
    true
}

/// The part of the overlap that the first `n` sequences of the one list and
/// the other set give.
spec fn overlap_upto(a: Seq<NameSeq>, n: int, b: Set<NameSeq>) -> Set<NameSeq> {
    overlap(a.take(n).to_set(), b)
}

/// The part of the overlap that one sequence gives.
spec fn overlap_one(x: NameSeq, b: Seq<NameSeq>, m: int) -> Set<NameSeq> {
    overlap(Set::empty().insert(x), b.take(m).to_set())
}

proof fn lemma_overlap_add(a: Set<NameSeq>, x: NameSeq, b: Set<NameSeq>)
    ensures
        overlap(a.insert(x), b) == overlap(a, b).union(overlap(Set::empty().insert(x), b)),
        overlap(b, a.insert(x)) == overlap(b, a).union(overlap(b, Set::empty().insert(x))),
{
    let one = Set::<NameSeq>::empty().insert(x);
    let more = a.insert(x);
    assert forall|s: NameSeq| overlap(more, b).contains(s) <==> overlap(a, b).union(
        overlap(one, b),
    ).contains(s) by {
        if b.contains(s) && exists|y: NameSeq| #[trigger] more.contains(y) && s.is_prefix_of(y) {
            let y = choose|y: NameSeq| #[trigger] more.contains(y) && s.is_prefix_of(y);
            if y == x {
                assert(one.contains(y));
            } else {
                assert(a.contains(y));
            }
        }
        if b.contains(s) && exists|y: NameSeq| #[trigger] a.contains(y) && s.is_prefix_of(y) {
            let y = choose|y: NameSeq| #[trigger] a.contains(y) && s.is_prefix_of(y);
            assert(more.contains(y));
        }
        if b.contains(s) && exists|y: NameSeq| #[trigger] one.contains(y) && s.is_prefix_of(y) {
            assert(more.contains(x));
        }
    }
    assert(overlap(more, b) =~= overlap(a, b).union(overlap(one, b)));
    assert forall|s: NameSeq| overlap(b, more).contains(s) <==> overlap(b, a).union(
        overlap(b, one),
    ).contains(s) by {
        if b.contains(s) && exists|y: NameSeq| #[trigger] more.contains(y) && s.is_prefix_of(y) {
            let y = choose|y: NameSeq| #[trigger] more.contains(y) && s.is_prefix_of(y);
            if y == x {
                assert(one.contains(y));
            } else {
                assert(a.contains(y));
            }
        }
        if b.contains(s) && exists|y: NameSeq| #[trigger] a.contains(y) && s.is_prefix_of(y) {
            let y = choose|y: NameSeq| #[trigger] a.contains(y) && s.is_prefix_of(y);
            assert(more.contains(y));
        }
        if b.contains(s) && exists|y: NameSeq| #[trigger] one.contains(y) && s.is_prefix_of(y) {
            assert(more.contains(x));
        }
    }
    assert(overlap(b, more) =~= overlap(b, a).union(overlap(b, one)));
}

/// What two single sequences give.
proof fn lemma_overlap_pair(x: NameSeq, y: NameSeq)
    ensures
        overlap(Set::empty().insert(x), Set::empty().insert(y)) == (if y.is_prefix_of(x) {
            Set::<NameSeq>::empty().insert(y)
        } else if x.is_prefix_of(y) {
            Set::<NameSeq>::empty().insert(x)
        } else {
            Set::<NameSeq>::empty()
        }),
{
    let a = Set::<NameSeq>::empty().insert(x);
    let b = Set::<NameSeq>::empty().insert(y);
    let want = if y.is_prefix_of(x) {
        Set::<NameSeq>::empty().insert(y)
    } else if x.is_prefix_of(y) {
        Set::<NameSeq>::empty().insert(x)
    } else {
        Set::<NameSeq>::empty()
    };
    assert forall|s: NameSeq| overlap(a, b).contains(s) <==> want.contains(s) by {
        assert(a.contains(x) && b.contains(y));
        if y.is_prefix_of(x) && x.is_prefix_of(y) {
            assert(x.len() == y.len());
            assert(x =~= y);
        }
    }
    assert(overlap(a, b) =~= want);
}

/// The sequences of one set that are a prefix of one in the other.
fn ambiguous_of(a: &FirstSet, b: &FirstSet) -> (r: FirstSet)
    ensures
        r.wf(),
        r@ == overlap(a@, b@),
{
    let ghost al = a.list();
    let ghost bl = b.list();
    let mut r = FirstSet::new();
    let mut i: usize = 0;
    assert(overlap_upto(al, 0, b@) =~= Set::empty()) by {
        assert(al.take(0).to_set() =~= Set::empty());
    }
    while i < a.len()
        invariant
            i <= al.len(),
            al == a.list(),
            bl == b.list(),
            r.wf(),
            r@ == overlap_upto(al, i as int, b@),
        decreases al.len() - i,
    {
        let ghost r0 = r@;
        let ghost x = al[i as int];
        let mut j: usize = 0;
        proof {
            assert(bl.take(0).to_set() =~= Set::empty());
            assert(overlap_one(x, bl, 0) =~= Set::empty());
            assert(r@ =~= r0.union(overlap_one(x, bl, 0)));
        }
        while j < b.len()
            invariant
                i < al.len(),
                j <= bl.len(),
                al == a.list(),
                bl == b.list(),
                x == al[i as int],
                r.wf(),
                r@ == r0.union(overlap_one(x, bl, j as int)),
            decreases bl.len() - j,
        {
            let ghost r1 = r@;
            let ghost y = bl[j as int];
            let p = a.get(i);
            let q = b.get(j);
            if starts_with(p, q) {
                r.insert(first_set::clone_seq(q));
            } else if starts_with(q, p) {
                r.insert(first_set::clone_seq(p));
            }
            proof {
                assert(bl.take(j + 1) =~= bl.take(j as int).push(y));
                first_set::lemma_push_set(bl.take(j as int), y);
                lemma_overlap_add(bl.take(j as int).to_set(), y, Set::empty().insert(x));
                lemma_overlap_pair(x, y);
                assert(r@ =~= r0.union(overlap_one(x, bl, j + 1)));
            }
            j += 1;
        }
        proof {
            assert(bl.take(j as int) =~= bl);
            assert(al.take(i + 1) =~= al.take(i as int).push(x));
            first_set::lemma_push_set(al.take(i as int), x);
            lemma_overlap_add(al.take(i as int).to_set(), x, b@);
            assert(r@ =~= overlap_upto(al, i + 1, b@));
        }
        i += 1;
    }
    assert(al.take(i as int) =~= al);
    r
}

/// What the tables say.
pub open spec fn tables(nullable: NullTable, rule_first: FirstTable, k: nat) -> Tables {
    Tables { nulls: nullable@, firsts: first_follow::firsts(rule_first), k }
}

/// What an alternative predicts on.
fn predict_of(
    x: &Expr,
    tail: &FirstSet,
    nullable: &NullTable,
    rule_first: &FirstTable,
    k: usize,
) -> (r: FirstSet)
    requires
        nullable.wf(),
        first_follow::table_wf(*rule_first),
        tail.wf(),
    ensures
        r.wf(),
        r@ == predict(tables(*nullable, *rule_first, k as nat), x@, tail@),
{
    let f = first_follow::first_of(x, nullable, rule_first, k);
    let all = first_set::concat_k(&f, tail, k);
    let (r, _) = first_set::split_nullable(&all);
    assert(r@ =~= predict(tables(*nullable, *rule_first, k as nat), x@, tail@));
    r
}

/// Appends the conflicts between the alternatives.
fn check_arms(
    xs: &Vec<Expr>,
    tail: &FirstSet,
    rule_name: &str,
    rule_span: Span,
    nullable: &NullTable,
    rule_first: &FirstTable,
    k: usize,
    out: &mut Vec<RawConflict>,
    Ghost(r): Ghost<RuleView>,
)
    requires
        nullable.wf(),
        first_follow::table_wf(*rule_first),
        tail.wf(),
        r.name == rule_name@,
        r.span == rule_span,
        forall|c: int| 0 <= c < old(out)@.len() ==> (#[trigger] old(out)@[c]).ambiguous.wf(),
    ensures
        conflicts_view(final(out)@) == conflicts_view(old(out)@) + arm_conflicts(
            tables(*nullable, *rule_first, k as nat),
            ir::exprs_view(xs@),
            tail@,
            r,
            0,
        ),
        forall|c: int| 0 <= c < final(out)@.len() ==> (#[trigger] final(out)@[c]).ambiguous.wf(),
{
    let ghost t = tables(*nullable, *rule_first, k as nat);
    let ghost views = ir::exprs_view(xs@);
    let ghost c0 = conflicts_view(out@);
    let mut arms: Vec<FirstSet> = Vec::new();
    let mut n: usize = 0;
    while n < xs.len()
        invariant
            n <= xs@.len(),
            nullable.wf(),
            first_follow::table_wf(*rule_first),
            tail.wf(),
            t == tables(*nullable, *rule_first, k as nat),
            views == ir::exprs_view(xs@),
            arms@.len() == n,
            forall|c: int|
                0 <= c < n ==> (#[trigger] arms@[c]).wf() && arms@[c]@ == predict(
                    t,
                    views[c],
                    tail@,
                ),
        decreases xs@.len() - n,
    {
        arms.push(predict_of(&xs[n], tail, nullable, rule_first, k));
        n += 1;
    }
    let mut i: usize = 0;
    assert(c0 + arm_conflicts(t, views, tail@, r, 0) =~= conflicts_view(out@) + arm_conflicts(
        t,
        views,
        tail@,
        r,
        0,
    ));
    while i < arms.len()
        invariant
            i <= arms@.len(),
            arms@.len() == views.len(),
            r.name == rule_name@,
            r.span == rule_span,
            forall|c: int|
                0 <= c < views.len() ==> (#[trigger] arms@[c]).wf() && arms@[c]@ == predict(
                    t,
                    views[c],
                    tail@,
                ),
            forall|c: int| 0 <= c < out@.len() ==> (#[trigger] out@[c]).ambiguous.wf(),
            c0 + arm_conflicts(t, views, tail@, r, 0) == conflicts_view(out@) + arm_conflicts(
                t,
                views,
                tail@,
                r,
                i as int,
            ),
        decreases arms@.len() - i,
    {
        let ghost c1 = conflicts_view(out@);
        let mut j: usize = i + 1;
        proof {
            assert(arm_conflicts(t, views, tail@, r, i as int) == row_conflicts(
                t,
                views,
                tail@,
                r,
                i as int,
                i + 1,
            ) + arm_conflicts(t, views, tail@, r, i + 1));
        }
        while j < arms.len()
            invariant
                i < j <= arms@.len(),
                arms@.len() == views.len(),
                r.name == rule_name@,
                r.span == rule_span,
                forall|c: int|
                    0 <= c < views.len() ==> (#[trigger] arms@[c]).wf() && arms@[c]@ == predict(
                        t,
                        views[c],
                        tail@,
                    ),
                forall|c: int| 0 <= c < out@.len() ==> (#[trigger] out@[c]).ambiguous.wf(),
                c1 + row_conflicts(t, views, tail@, r, i as int, i + 1) == conflicts_view(out@)
                    + row_conflicts(t, views, tail@, r, i as int, j as int),
            decreases arms@.len() - j,
        {
            let ambiguous = ambiguous_of(&arms[i], &arms[j]);
            let ghost before = out@;
            let ghost rest = row_conflicts(t, views, tail@, r, i as int, j + 1);
            if !ambiguous.is_empty() {
                let ghost both = ambiguous@;
                out.push(
                    RawConflict {
                        rule_name: rule_name.to_owned(),
                        rule_span,
                        arm_i: i,
                        arm_j: j,
                        ambiguous,
                    },
                );
                proof {
                    lemma_conflicts_push(before, out@.last());
                    assert(out@ =~= before.push(out@.last()));
                    let c = out@.last()@;
                    assert(row_conflicts(t, views, tail@, r, i as int, j as int) == seq![c] + rest);
                    assert(conflicts_view(before) + (seq![c] + rest) =~= conflicts_view(out@)
                        + rest);
                }
            } else {
                proof {
                    assert(row_conflicts(t, views, tail@, r, i as int, j as int) =~= rest);
                }
            }
            j += 1;
        }
        proof {
            let row = row_conflicts(t, views, tail@, r, i as int, i + 1);
            let next = arm_conflicts(t, views, tail@, r, i + 1);
            assert(row_conflicts(t, views, tail@, r, i as int, j as int) =~= Seq::empty());
            assert(c1 + row =~= conflicts_view(out@));
            assert(c1 + (row + next) =~= conflicts_view(out@) + next);
        }
        i += 1;
    }
    assert(arm_conflicts(t, views, tail@, r, i as int) =~= Seq::empty());
    assert(conflicts_view(out@) =~= c0 + arm_conflicts(t, views, tail@, r, 0));
}

/// Appends the conflicts in an expression.
fn walk_check_conflicts(
    e: &Expr,
    tail: &FirstSet,
    rule_name: &str,
    rule_span: Span,
    nullable: &NullTable,
    rule_first: &FirstTable,
    k: usize,
    out: &mut Vec<RawConflict>,
    Ghost(r): Ghost<RuleView>,
)
    requires
        nullable.wf(),
        first_follow::table_wf(*rule_first),
        tail.wf(),
        r.name == rule_name@,
        r.span == rule_span,
        forall|c: int| 0 <= c < old(out)@.len() ==> (#[trigger] old(out)@[c]).ambiguous.wf(),
    ensures
        conflicts_view(final(out)@) == conflicts_view(old(out)@) + expr_conflicts(
            tables(*nullable, *rule_first, k as nat),
            e@,
            tail@,
            r,
        ),
        forall|c: int| 0 <= c < final(out)@.len() ==> (#[trigger] final(out)@[c]).ambiguous.wf(),
    decreases e,
{
    let ghost t = tables(*nullable, *rule_first, k as nat);
    let ghost c0 = conflicts_view(out@);
    match e {
        Expr::Empty => {
            assert(c0 =~= c0 + expr_conflicts(t, e@, tail@, r));
        },
        Expr::Token(_) => {
            assert(c0 =~= c0 + expr_conflicts(t, e@, tail@, r));
        },
        Expr::Rule(_) => {
            assert(c0 =~= c0 + expr_conflicts(t, e@, tail@, r));
        },
        Expr::Concat(xs) => {
            check_items(
                xs,
                tail,
                rule_name,
                rule_span,
                nullable,
                rule_first,
                k,
                out,
                Ghost(r),
            );
            assert(e@->Concat_0 == ir::exprs_view(xs@));
        },
        Expr::Alt(xs) => {
            check_arms(
                xs,
                tail,
                rule_name,
                rule_span,
                nullable,
                rule_first,
                k,
                out,
                Ghost(r),
            );
            check_alternatives(
                xs,
                tail,
                rule_name,
                rule_span,
                nullable,
                rule_first,
                k,
                out,
                Ghost(r),
            );
            proof {
                let views = ir::exprs_view(xs@);
                assert(e@->Alt_0 == views);
                let a = arm_conflicts(t, views, tail@, r, 0);
                let b = alt_conflicts(t, views, tail@, r, views.len());
                assert(c0 + a + b =~= c0 + (a + b));
            }
        },
        Expr::Opt(x) => {
            walk_check_conflicts(
                x,
                tail,
                rule_name,
                rule_span,
                nullable,
                rule_first,
                k,
                out,
                Ghost(r),
            );
        },
        Expr::Label(_, x) => {
            walk_check_conflicts(
                x,
                tail,
                rule_name,
                rule_span,
                nullable,
                rule_first,
                k,
                out,
                Ghost(r),
            );
        },
        Expr::Star(x) => {
            let fx = first_follow::first_of(x, nullable, rule_first, k);
            let body_tail = first_set::concat_k(&first_set::star_k(&fx, k), tail, k);
            walk_check_conflicts(
                x,
                &body_tail,
                rule_name,
                rule_span,
                nullable,
                rule_first,
                k,
                out,
                Ghost(r),
            );
        },
        Expr::Plus(x) => {
            let fx = first_follow::first_of(x, nullable, rule_first, k);
            let body_tail = first_set::concat_k(&first_set::star_k(&fx, k), tail, k);
            walk_check_conflicts(
                x,
                &body_tail,
                rule_name,
                rule_span,
                nullable,
                rule_first,
                k,
                out,
                Ghost(r),
            );
        },
    }
}

fn check_alternatives(
    xs: &Vec<Expr>,
    tail: &FirstSet,
    rule_name: &str,
    rule_span: Span,
    nullable: &NullTable,
    rule_first: &FirstTable,
    k: usize,
    out: &mut Vec<RawConflict>,
    Ghost(r): Ghost<RuleView>,
)
    requires
        nullable.wf(),
        first_follow::table_wf(*rule_first),
        tail.wf(),
        r.name == rule_name@,
        r.span == rule_span,
        forall|c: int| 0 <= c < old(out)@.len() ==> (#[trigger] old(out)@[c]).ambiguous.wf(),
    ensures
        conflicts_view(final(out)@) == conflicts_view(old(out)@) + alt_conflicts(
            tables(*nullable, *rule_first, k as nat),
            ir::exprs_view(xs@),
            tail@,
            r,
            xs@.len(),
        ),
        forall|c: int| 0 <= c < final(out)@.len() ==> (#[trigger] final(out)@[c]).ambiguous.wf(),
    decreases xs,
{
    let ghost t = tables(*nullable, *rule_first, k as nat);
    let ghost views = ir::exprs_view(xs@);
    let ghost c0 = conflicts_view(out@);
    let mut i: usize = 0;
    assert(c0 =~= c0 + alt_conflicts(t, views, tail@, r, 0));
    while i < xs.len()
        invariant
            i <= xs@.len(),
            nullable.wf(),
            first_follow::table_wf(*rule_first),
            tail.wf(),
            r.name == rule_name@,
            r.span == rule_span,
            t == tables(*nullable, *rule_first, k as nat),
            views == ir::exprs_view(xs@),
            forall|c: int| 0 <= c < out@.len() ==> (#[trigger] out@[c]).ambiguous.wf(),
            conflicts_view(out@) == c0 + alt_conflicts(t, views, tail@, r, i as nat),
        decreases xs@.len() - i,
    {
        walk_check_conflicts(
            &xs[i],
            tail,
            rule_name,
            rule_span,
            nullable,
            rule_first,
            k,
            out,
            Ghost(r),
        );
        proof {
            let a = alt_conflicts(t, views, tail@, r, i as nat);
            let b = expr_conflicts(t, views[i as int], tail@, r);
            assert(alt_conflicts(t, views, tail@, r, (i + 1) as nat) == a + b);
            assert(c0 + a + b =~= c0 + (a + b));
        }
        i += 1;
    }
}

fn check_items(
    xs: &Vec<Expr>,
    tail: &FirstSet,
    rule_name: &str,
    rule_span: Span,
    nullable: &NullTable,
    rule_first: &FirstTable,
    k: usize,
    out: &mut Vec<RawConflict>,
    Ghost(r): Ghost<RuleView>,
)
    requires
        nullable.wf(),
        first_follow::table_wf(*rule_first),
        tail.wf(),
        r.name == rule_name@,
        r.span == rule_span,
        forall|c: int| 0 <= c < old(out)@.len() ==> (#[trigger] old(out)@[c]).ambiguous.wf(),
    ensures
        conflicts_view(final(out)@) == conflicts_view(old(out)@) + seq_conflicts(
            tables(*nullable, *rule_first, k as nat),
            ir::exprs_view(xs@),
            tail@,
            r,
            xs@.len(),
        ),
        forall|c: int| 0 <= c < final(out)@.len() ==> (#[trigger] final(out)@[c]).ambiguous.wf(),
    decreases xs,
{
    let ghost t = tables(*nullable, *rule_first, k as nat);
    let ghost views = ir::exprs_view(xs@);
    let ghost c0 = conflicts_view(out@);
    let ghost n = views.len();
    // What comes after each item, last item first.
    let mut succ: Vec<FirstSet> = Vec::new();
    succ.push(tail.clone());
    let mut m: usize = xs.len();
    while m > 0
        invariant
            m <= xs@.len(),
            n == xs@.len(),
            nullable.wf(),
            first_follow::table_wf(*rule_first),
            t == tables(*nullable, *rule_first, k as nat),
            views == ir::exprs_view(xs@),
            succ@.len() == n - m + 1,
            forall|c: int|
                0 <= c < succ@.len() ==> (#[trigger] succ@[c]).wf() && succ@[c]@
                    == follow_k::rest_then(views, n - c, tail@, t.nulls, t.firsts, t.k),
        decreases m,
    {
        m -= 1;
        let fx = first_follow::first_of(&xs[m], nullable, rule_first, k);
        let next = first_set::concat_k(&fx, &succ[xs.len() - m - 1], k);
        succ.push(next);
    }
    let mut i: usize = 0;
    assert(c0 =~= c0 + seq_conflicts(t, views, tail@, r, 0));
    while i < xs.len()
        invariant
            i <= xs@.len(),
            n == xs@.len(),
            nullable.wf(),
            first_follow::table_wf(*rule_first),
            r.name == rule_name@,
            r.span == rule_span,
            t == tables(*nullable, *rule_first, k as nat),
            views == ir::exprs_view(xs@),
            succ@.len() == n + 1,
            forall|c: int|
                0 <= c < succ@.len() ==> (#[trigger] succ@[c]).wf() && succ@[c]@
                    == follow_k::rest_then(views, n - c, tail@, t.nulls, t.firsts, t.k),
            forall|c: int| 0 <= c < out@.len() ==> (#[trigger] out@[c]).ambiguous.wf(),
            conflicts_view(out@) == c0 + seq_conflicts(t, views, tail@, r, i as nat),
        decreases xs@.len() - i,
    {
        let after = xs.len() - i - 1;
        walk_check_conflicts(
            &xs[i],
            &succ[after],
            rule_name,
            rule_span,
            nullable,
            rule_first,
            k,
            out,
            Ghost(r),
        );
        proof {
            let a = seq_conflicts(t, views, tail@, r, i as nat);
            let rest = follow_k::rest_then(views, i + 1, tail@, t.nulls, t.firsts, t.k);
            assert(succ@[after as int]@ == rest);
            let b = expr_conflicts(t, views[i as int], rest, r);
            assert(seq_conflicts(t, views, tail@, r, (i + 1) as nat) == a + b);
            assert(c0 + a + b =~= c0 + (a + b));
        }
        i += 1;
    }
}

/// The conflicts of the grammar at lookahead `k`.
pub fn detect_conflicts(
    g: &Grammar,
    nullable: &NullTable,
    rule_first: &FirstTable,
    follow_k: &FirstTable,
    k: usize,
) -> (out: Vec<RawConflict>)
    requires
        nullable.wf(),
        first_follow::table_wf(*rule_first),
        first_follow::table_wf(*follow_k),
    ensures
        conflicts_view(out@) == rules_conflicts(
            tables(*nullable, *rule_first, k as nat),
            g.rule_list(),
            first_follow::firsts(*follow_k),
            g.rule_list().len(),
        ),
        forall|c: int| 0 <= c < out@.len() ==> (#[trigger] out@[c]).ambiguous.wf(),
{
    let rules = g.rule_values();
    let ghost rv = g.rule_list();
    assert(first_follow::rules_view(rules@) =~= rv);
    let ghost t = tables(*nullable, *rule_first, k as nat);
    let ghost fo = first_follow::firsts(*follow_k);
    let mut out: Vec<RawConflict> = Vec::new();
    let mut i: usize = 0;
    assert(conflicts_view(out@) =~= rules_conflicts(t, rv, fo, 0));
    while i < rules.len()
        invariant
            i <= rules@.len(),
            rv == first_follow::rules_view(rules@),
            nullable.wf(),
            first_follow::table_wf(*rule_first),
            first_follow::table_wf(*follow_k),
            t == tables(*nullable, *rule_first, k as nat),
            fo == first_follow::firsts(*follow_k),
            forall|c: int| 0 <= c < out@.len() ==> (#[trigger] out@[c]).ambiguous.wf(),
            conflicts_view(out@) == rules_conflicts(t, rv, fo, i as nat),
        decreases rules@.len() - i,
    {
        let r = rules[i];
        assert(rv[i as int] == r@);
        let tail = follow::set_of(follow_k, r.name.as_str());
        walk_check_conflicts(
            &r.body,
            &tail,
            r.name.as_str(),
            r.span,
            nullable,
            rule_first,
            k,
            &mut out,
            Ghost(r@),
        );
        i += 1;
    }
    out
}

/// The text of a sequence of tokens.
pub open spec fn seq_text(s: NameSeq) -> Seq<char> {
    if s.len() == 0 {
        "ε"@
    } else {
        "["@ + text::joined(s, " "@) + "]"@
    }
}

fn format_seq(seq: &Vec<String>) -> (r: String)
    ensures
        r@ == seq_text(names::list_view(seq@)),
{
    if seq.len() == 0 {
        "ε".to_owned()
    } else {
        let mut r = "[".to_owned();
        r.append(text::join(seq, " ").as_str());
        r.append("]");
        r
    }
}

/// The texts of the first sequences, at most three.
pub open spec fn sample(seqs: Seq<NameSeq>) -> Seq<Seq<char>> {
    Seq::new(
        if seqs.len() < 3 {
            seqs.len()
        } else {
            3
        },
        |i: int| seq_text(seqs[i]),
    )
}

/// What is reported of a conflict.
pub open spec fn conflict_text(c: ConflictView) -> Seq<char> {
    let seqs = first_set::listed(c.ambiguous);
    "rule `"@ + c.rule_name + "`: alternatives "@ + text::decimal((c.arm_i + 1) as nat) + " and "@
        + text::decimal((c.arm_j + 1) as nat) + " both predict on "@ + text::joined(
        sample(seqs),
        ", "@,
    ) + (if seqs.len() > 3 {
        ", …"@
    } else {
        ""@
    })
}

/// What is reported of the conflicts.
pub open spec fn conflict_diags(cs: Seq<ConflictView>) -> Seq<DiagnosticView> {
    Seq::new(
        cs.len(),
        |i: int| diagnostic::error_at(conflict_text(cs[i]), cs[i].rule_span),
    )
}

fn render_conflict(c: &RawConflict) -> (d: Diagnostic)
    requires
        c.ambiguous.wf(),
    ensures
        d@ == diagnostic::error_at(conflict_text(c@), c.rule_span),
{
    let ghost seqs = c.ambiguous.list();
    proof {
        first_set::lemma_listed(c.ambiguous);
    }
    let mut parts: Vec<String> = Vec::new();
    let mut i: usize = 0;
    while i < c.ambiguous.len() && i < 3
        invariant
            i <= seqs.len(),
            i <= 3,
            seqs == c.ambiguous.list(),
            parts@.len() == i,
            forall|j: int| 0 <= j < i ==> (#[trigger] parts@[j])@ == seq_text(seqs[j]),
        decreases 3 - i,
    {
        parts.push(format_seq(c.ambiguous.get(i)));
        i += 1;
    }
    assert(names::list_view(parts@) =~= sample(seqs));
    let mut m = "rule `".to_owned();
    m.append(c.rule_name.as_str());
    m.append("`: alternatives ");
    text::push_decimal(&mut m, c.arm_i as u128 + 1);
    m.append(" and ");
    text::push_decimal(&mut m, c.arm_j as u128 + 1);
    m.append(" both predict on ");
    m.append(text::join(&parts, ", ").as_str());
    if c.ambiguous.len() > 3 {
        m.append(", …");
    } else {
        m.append("");
    }
    assert(m@ == conflict_text(c@));
    Diagnostic::error(m).at(c.rule_span)
}

/// Reports the conflicts.
fn render_conflicts(raws: &Vec<RawConflict>, diags: &mut Vec<Diagnostic>)
    requires
        forall|c: int| 0 <= c < raws@.len() ==> (#[trigger] raws@[c]).ambiguous.wf(),
    ensures
        diagnostic::diags_view(final(diags)@) == diagnostic::diags_view(old(diags)@)
            + conflict_diags(conflicts_view(raws@)),
{
    let ghost d0 = diagnostic::diags_view(diags@);
    let ghost all = conflict_diags(conflicts_view(raws@));
    let mut i: usize = 0;
    assert(d0 =~= d0 + all.take(0));
    while i < raws.len()
        invariant
            i <= raws@.len(),
            forall|c: int| 0 <= c < raws@.len() ==> (#[trigger] raws@[c]).ambiguous.wf(),
            all == conflict_diags(conflicts_view(raws@)),
            diagnostic::diags_view(diags@) == d0 + all.take(i as int),
        decreases raws@.len() - i,
    {
        let ghost before = diags@;
        let d = render_conflict(&raws[i]);
        let ghost dv = d@;
        diags.push(d);
        proof {
            diagnostic::lemma_diags_push(before, diags@.last());
            assert(diags@ =~= before.push(diags@.last()));
            assert(all[i as int] == dv);
            assert(d0 + all.take(i + 1) =~= (d0 + all.take(i as int)).push(dv));
        }
        i += 1;
    }
    assert(all.take(i as int) =~= all);
}

/// `cs` are the conflicts at lookahead `k`: those that the least FIRST(k) and
/// FOLLOW(k) tables give.
pub open spec fn conflicts_of(rules: Seq<RuleView>, k: nat, cs: Seq<ConflictView>) -> bool {
    exists|nulls: Nulls, f: Firsts, fo: Firsts|
        first_follow::is_first(rules, k, nulls, f) && #[trigger] follow_k::is_follow_k(
            rules,
            k,
            nulls,
            f,
            fo,
        ) && cs == rules_conflicts(Tables { nulls, firsts: f, k }, rules, fo, rules.len())
}

/// The conflicts at lookahead `k`.
pub open spec fn conflicts_at(rules: Seq<RuleView>, k: nat) -> Seq<ConflictView> {
    choose|cs: Seq<ConflictView>| conflicts_of(rules, k, cs)
}

/// The two give the same FIRST(k).
spec fn same_first(a: Tables, b: Tables) -> bool {
    a.k == b.k && forall|e: ExprView| #[trigger] first(a, e) == first(b, e)
}

spec fn same_sets(a: Firsts, b: Firsts) -> bool {
    forall|n: Seq<char>| #[trigger] first_follow::set_at(a, n) == first_follow::set_at(b, n)
}

proof fn lemma_le_same(a: Firsts, b: Firsts)
    requires
        first_follow::tables_le(a, b),
        first_follow::tables_le(b, a),
    ensures
        same_sets(a, b),
{
    assert forall|n: Seq<char>| #[trigger] first_follow::set_at(a, n) == first_follow::set_at(
        b,
        n,
    ) by {
        assert(first_follow::set_at(a, n).subset_of(first_follow::set_at(b, n)));
        assert(first_follow::set_at(b, n).subset_of(first_follow::set_at(a, n)));
        assert(first_follow::set_at(a, n) =~= first_follow::set_at(b, n));
    }
}

proof fn lemma_first_same(a: Tables, b: Tables)
    requires
        a.k == b.k,
        first_follow::tables_le(a.firsts, b.firsts),
        first_follow::tables_le(b.firsts, a.firsts),
        first_follow::nulls_le(a.nulls, b.nulls),
        first_follow::nulls_le(b.nulls, a.nulls),
    ensures
        same_first(a, b),
{
    assert forall|e: ExprView| #[trigger] first(a, e) == first(b, e) by {
        first_follow::lemma_first_mono(e, a.nulls, a.firsts, b.nulls, b.firsts, a.k);
        first_follow::lemma_first_mono(e, b.nulls, b.firsts, a.nulls, a.firsts, a.k);
        assert(first(a, e) =~= first(b, e));
    }
}

proof fn lemma_rest_same(a: Tables, b: Tables, xs: Seq<ExprView>, i: int, tail: Set<NameSeq>)
    requires
        same_first(a, b),
    ensures
        follow_k::rest_then(xs, i, tail, a.nulls, a.firsts, a.k) == follow_k::rest_then(
            xs,
            i,
            tail,
            b.nulls,
            b.firsts,
            b.k,
        ),
    decreases xs.len() - i,
{
    if 0 <= i < xs.len() {
        lemma_rest_same(a, b, xs, i + 1, tail);
        assert(first(a, xs[i]) == first(b, xs[i]));
    }
}

proof fn lemma_loop_same(a: Tables, b: Tables, x: ExprView, tail: Set<NameSeq>)
    requires
        same_first(a, b),
    ensures
        follow_k::loop_tail(x, tail, a.nulls, a.firsts, a.k) == follow_k::loop_tail(
            x,
            tail,
            b.nulls,
            b.firsts,
            b.k,
        ),
{
    assert(first(a, x) == first(b, x));
}

proof fn lemma_closed_same(a: Tables, b: Tables, e: ExprView, tail: Set<NameSeq>, fo: Firsts)
    requires
        same_first(a, b),
        follow_k::follow_k_closed(e, tail, a.nulls, a.firsts, fo, a.k),
    ensures
        follow_k::follow_k_closed(e, tail, b.nulls, b.firsts, fo, b.k),
    decreases e,
{
    match e {
        ExprView::Concat(xs) => {
            assert forall|i: int| 0 <= i < xs.len() implies follow_k::follow_k_closed(
                #[trigger] xs[i],
                follow_k::rest_then(xs, i + 1, tail, b.nulls, b.firsts, b.k),
                b.nulls,
                b.firsts,
                fo,
                b.k,
            ) by {
                lemma_rest_same(a, b, xs, i + 1, tail);
                lemma_closed_same(
                    a,
                    b,
                    xs[i],
                    follow_k::rest_then(xs, i + 1, tail, a.nulls, a.firsts, a.k),
                    fo,
                );
            }
        },
        ExprView::Alt(xs) => {
            assert forall|i: int| 0 <= i < xs.len() implies follow_k::follow_k_closed(
                #[trigger] xs[i],
                tail,
                b.nulls,
                b.firsts,
                fo,
                b.k,
            ) by {
                lemma_closed_same(a, b, xs[i], tail, fo);
            }
        },
        ExprView::Opt(x) => lemma_closed_same(a, b, *x, tail, fo),
        ExprView::Label(_, x) => lemma_closed_same(a, b, *x, tail, fo),
        ExprView::Star(x) => {
            lemma_loop_same(a, b, *x, tail);
            lemma_closed_same(
                a,
                b,
                *x,
                follow_k::loop_tail(*x, tail, a.nulls, a.firsts, a.k),
                fo,
            );
        },
        ExprView::Plus(x) => {
            lemma_loop_same(a, b, *x, tail);
            lemma_closed_same(
                a,
                b,
                *x,
                follow_k::loop_tail(*x, tail, a.nulls, a.firsts, a.k),
                fo,
            );
        },
        _ => {},
    }
}

proof fn lemma_holds_same(a: Tables, b: Tables, rules: Seq<RuleView>, fo: Firsts)
    requires
        same_first(a, b),
        follow_k::follow_k_holds(rules, a.k, a.nulls, a.firsts, fo),
    ensures
        follow_k::follow_k_holds(rules, b.k, b.nulls, b.firsts, fo),
{
    assert forall|i: int| 0 <= i < rules.len() implies follow::only_eof().subset_of(
        first_follow::set_at(fo, (#[trigger] rules[i]).name),
    ) && follow_k::follow_k_closed(
        rules[i].body,
        first_follow::set_at(fo, rules[i].name),
        b.nulls,
        b.firsts,
        fo,
        b.k,
    ) by {
        lemma_closed_same(a, b, rules[i].body, first_follow::set_at(fo, rules[i].name), fo);
    }
}

proof fn lemma_row_same(
    a: Tables,
    b: Tables,
    xs: Seq<ExprView>,
    tail: Set<NameSeq>,
    r: RuleView,
    i: int,
    j: int,
)
    requires
        same_first(a, b),
    ensures
        row_conflicts(a, xs, tail, r, i, j) == row_conflicts(b, xs, tail, r, i, j),
    decreases xs.len() - j,
{
    if 0 <= j < xs.len() {
        lemma_row_same(a, b, xs, tail, r, i, j + 1);
        assert(first(a, xs[i]) == first(b, xs[i]));
        assert(first(a, xs[j]) == first(b, xs[j]));
    }
}

proof fn lemma_arms_same(
    a: Tables,
    b: Tables,
    xs: Seq<ExprView>,
    tail: Set<NameSeq>,
    r: RuleView,
    i: int,
)
    requires
        same_first(a, b),
    ensures
        arm_conflicts(a, xs, tail, r, i) == arm_conflicts(b, xs, tail, r, i),
    decreases xs.len() - i,
{
    if 0 <= i < xs.len() {
        lemma_row_same(a, b, xs, tail, r, i, i + 1);
        lemma_arms_same(a, b, xs, tail, r, i + 1);
    }
}

proof fn lemma_conflicts_same(a: Tables, b: Tables, e: ExprView, tail: Set<NameSeq>, r: RuleView)
    requires
        same_first(a, b),
    ensures
        expr_conflicts(a, e, tail, r) == expr_conflicts(b, e, tail, r),
    decreases e, 0nat,
{
    match e {
        ExprView::Concat(xs) => lemma_seq_same(a, b, xs, tail, r, xs.len()),
        ExprView::Alt(xs) => {
            lemma_arms_same(a, b, xs, tail, r, 0);
            lemma_alt_same(a, b, xs, tail, r, xs.len());
        },
        ExprView::Opt(x) => lemma_conflicts_same(a, b, *x, tail, r),
        ExprView::Label(_, x) => lemma_conflicts_same(a, b, *x, tail, r),
        ExprView::Star(x) => {
            lemma_loop_same(a, b, *x, tail);
            lemma_conflicts_same(
                a,
                b,
                *x,
                follow_k::loop_tail(*x, tail, a.nulls, a.firsts, a.k),
                r,
            );
        },
        ExprView::Plus(x) => {
            lemma_loop_same(a, b, *x, tail);
            lemma_conflicts_same(
                a,
                b,
                *x,
                follow_k::loop_tail(*x, tail, a.nulls, a.firsts, a.k),
                r,
            );
        },
        _ => {},
    }
}

proof fn lemma_seq_same(
    a: Tables,
    b: Tables,
    xs: Seq<ExprView>,
    tail: Set<NameSeq>,
    r: RuleView,
    n: nat,
)
    requires
        same_first(a, b),
        n <= xs.len(),
    ensures
        seq_conflicts(a, xs, tail, r, n) == seq_conflicts(b, xs, tail, r, n),
    decreases xs, n,
{
    if n > 0 {
        lemma_seq_same(a, b, xs, tail, r, (n - 1) as nat);
        lemma_rest_same(a, b, xs, n as int, tail);
        lemma_conflicts_same(
            a,
            b,
            xs[n - 1],
            follow_k::rest_then(xs, n as int, tail, a.nulls, a.firsts, a.k),
            r,
        );
    }
}

proof fn lemma_alt_same(
    a: Tables,
    b: Tables,
    xs: Seq<ExprView>,
    tail: Set<NameSeq>,
    r: RuleView,
    n: nat,
)
    requires
        same_first(a, b),
        n <= xs.len(),
    ensures
        alt_conflicts(a, xs, tail, r, n) == alt_conflicts(b, xs, tail, r, n),
    decreases xs, n,
{
    if n > 0 {
        lemma_alt_same(a, b, xs, tail, r, (n - 1) as nat);
        lemma_conflicts_same(a, b, xs[n - 1], tail, r);
    }
}

proof fn lemma_rules_same(
    a: Tables,
    b: Tables,
    rules: Seq<RuleView>,
    fo1: Firsts,
    fo2: Firsts,
    n: nat,
)
    requires
        same_first(a, b),
        same_sets(fo1, fo2),
    ensures
        rules_conflicts(a, rules, fo1, n) == rules_conflicts(b, rules, fo2, n),
    decreases n,
{
    if 0 < n <= rules.len() {
        lemma_rules_same(a, b, rules, fo1, fo2, (n - 1) as nat);
        let r = rules[n - 1];
        assert(first_follow::set_at(fo1, r.name) == first_follow::set_at(fo2, r.name));
        lemma_conflicts_same(a, b, r.body, first_follow::set_at(fo1, r.name), r);
    }
}

/// A grammar has one list of conflicts at each lookahead.
pub proof fn lemma_conflicts_unique(
    rules: Seq<RuleView>,
    k: nat,
    cs1: Seq<ConflictView>,
    cs2: Seq<ConflictView>,
)
    requires
        conflicts_of(rules, k, cs1),
        conflicts_of(rules, k, cs2),
    ensures
        cs1 == cs2,
        cs1 == conflicts_at(rules, k),
{
    lemma_conflicts_equal(rules, k, cs1, cs2);
    lemma_conflicts_equal(rules, k, cs1, conflicts_at(rules, k));
}

proof fn lemma_conflicts_equal(
    rules: Seq<RuleView>,
    k: nat,
    cs1: Seq<ConflictView>,
    cs2: Seq<ConflictView>,
)
    requires
        conflicts_of(rules, k, cs1),
        conflicts_of(rules, k, cs2),
    ensures
        cs1 == cs2,
{
    let (n1, f1, fo1) = choose|nulls: Nulls, f: Firsts, fo: Firsts|
        first_follow::is_first(rules, k, nulls, f) && #[trigger] follow_k::is_follow_k(
            rules,
            k,
            nulls,
            f,
            fo,
        ) && cs1 == rules_conflicts(Tables { nulls, firsts: f, k }, rules, fo, rules.len());
    let (n2, f2, fo2) = choose|nulls: Nulls, f: Firsts, fo: Firsts|
        first_follow::is_first(rules, k, nulls, f) && #[trigger] follow_k::is_follow_k(
            rules,
            k,
            nulls,
            f,
            fo,
        ) && cs2 == rules_conflicts(Tables { nulls, firsts: f, k }, rules, fo, rules.len());
    assert(first_follow::first_closed(rules, k, n1, f1));
    assert(first_follow::first_closed(rules, k, n2, f2));
    let a = Tables { nulls: n1, firsts: f1, k };
    let b = Tables { nulls: n2, firsts: f2, k };
    lemma_first_same(a, b);
    assert(same_first(b, a)) by {
        lemma_first_same(b, a);
    }
    lemma_holds_same(a, b, rules, fo1);
    lemma_holds_same(b, a, rules, fo2);
    lemma_le_same(fo1, fo2);
    lemma_rules_same(a, b, rules, fo1, fo2, rules.len());
}

/// How much the conflicts leave open: the sequences that each is about, over
/// all of them.
pub open spec fn total(cs: Seq<ConflictView>) -> nat
    decreases cs.len(),
{
    if cs.len() == 0 {
        0
    } else {
        total(cs.drop_last()) + cs.last().ambiguous.len()
    }
}

/// How the search stands after some rounds.
pub ghost struct Search {
    /// The least total seen.
    pub least: Option<nat>,
    /// The rounds since the total last fell.
    pub stuck: nat,
}

/// How the search stands after one more round.
pub open spec fn step(s: Search, size: nat) -> Search {
    match s.least {
        None => Search { least: Some(size), stuck: s.stuck },
        Some(m) => if size < m {
            Search { least: Some(size), stuck: 0 }
        } else {
            Search { least: Some(m), stuck: s.stuck + 1 }
        },
    }
}

/// How the search stands after `k` rounds.
pub open spec fn search(rules: Seq<RuleView>, k: nat) -> Search
    decreases k,
{
    if k == 0 {
        Search { least: None, stuck: 0 }
    } else {
        step(search(rules, (k - 1) as nat), total(conflicts_at(rules, k)))
    }
}

/// Each of the first `k` rounds found conflicts and did not end the search.
pub open spec fn goes_on(rules: Seq<RuleView>, k: nat) -> bool {
    forall|j: nat|
        1 <= j <= k ==> conflicts_at(rules, j).len() > 0 && (#[trigger] search(rules, j)).stuck
            < STUCK_LIMIT
}

/// Lookahead `k` is the first without conflicts, and the search gets there.
pub open spec fn solved_at(rules: Seq<RuleView>, k: nat) -> bool {
    k >= 1 && goes_on(rules, (k - 1) as nat) && conflicts_at(rules, k).len() == 0
}

/// The search ends in conflicts at lookahead `k`: too many rounds have gone
/// without progress, or no larger lookahead can be counted.
pub open spec fn given_up_at(rules: Seq<RuleView>, k: nat) -> bool {
    &&& k >= 1
    &&& goes_on(rules, (k - 1) as nat)
    &&& conflicts_at(rules, k).len() > 0
    &&& search(rules, k).stuck >= STUCK_LIMIT || k == usize::MAX
}

/// What is reported when the search ends in conflicts at lookahead `k`.
pub open spec fn give_up_diags(rules: Seq<RuleView>, k: nat) -> Seq<DiagnosticView> {
    seq![
        diagnostic::error_view(
            "grammar is not LL(k) for any finite k: conflicts are stable at k = "@
                + text::decimal(k) + " (stopped iterating after no progress over "@
                + text::decimal(STUCK_LIMIT as nat) + " rounds)"@,
        ),
    ] + conflict_diags(conflicts_at(rules, k))
}

/// What all conflicts leave open.
fn total_of(cs: &Vec<RawConflict>) -> (n: u128)
    requires
        forall|c: int| 0 <= c < cs@.len() ==> (#[trigger] cs@[c]).ambiguous.wf(),
    ensures
        n == total(conflicts_view(cs@)),
{
    let ghost views = conflicts_view(cs@);
    let mut n: u128 = 0;
    let mut i: usize = 0;
    assert(views.take(0) =~= Seq::<ConflictView>::empty());
    while i < cs.len()
        invariant
            i <= cs@.len(),
            views == conflicts_view(cs@),
            forall|c: int| 0 <= c < cs@.len() ==> (#[trigger] cs@[c]).ambiguous.wf(),
            n == total(views.take(i as int)),
            n <= i * 0xffff_ffff_ffff_ffff,
        decreases cs@.len() - i,
    {
        proof {
            first_set::lemma_listed(cs@[i as int].ambiguous);
            assert(views.take(i + 1).drop_last() =~= views.take(i as int));
            assert(views.take(i + 1).last() == views[i as int]);
            assert(i < 0xffff_ffff_ffff_ffff);
            assert(i * 0xffff_ffff_ffff_ffff + 0xffff_ffff_ffff_ffff <= u128::MAX)
                by (nonlinear_arith)
                requires
                    i < 0xffff_ffff_ffff_ffff,
            ;
        }
        n += cs[i].ambiguous.len() as u128;
        i += 1;
    }
    assert(views.take(i as int) =~= views);
    n
}

/// Reports that the search ended in conflicts.
fn report_give_up(last_k: usize, conflicts: &Vec<RawConflict>, diags: &mut Vec<Diagnostic>)
    requires
        forall|c: int| 0 <= c < conflicts@.len() ==> (#[trigger] conflicts@[c]).ambiguous.wf(),
    ensures
        diagnostic::diags_view(final(diags)@) == diagnostic::diags_view(old(diags)@) + (seq![
            diagnostic::error_view(
                "grammar is not LL(k) for any finite k: conflicts are stable at k = "@
                    + text::decimal(last_k as nat)
                    + " (stopped iterating after no progress over "@ + text::decimal(
                    STUCK_LIMIT as nat,
                ) + " rounds)"@,
            ),
        ] + conflict_diags(conflicts_view(conflicts@))),
{
    let ghost d0 = diagnostic::diags_view(diags@);
    let ghost before = diags@;
    let mut m =
        "grammar is not LL(k) for any finite k: conflicts are stable at k = ".to_owned();
    text::push_decimal(&mut m, last_k as u128);
    m.append(" (stopped iterating after no progress over ");
    text::push_decimal(&mut m, STUCK_LIMIT as u128);
    m.append(" rounds)");
    let d = Diagnostic::error(m);
    let ghost dv = d@;
    diags.push(d);
    proof {
        diagnostic::lemma_diags_push(before, diags@.last());
        assert(diags@ =~= before.push(diags@.last()));
    }
    render_conflicts(conflicts, diags);
    proof {
        let tail = conflict_diags(conflicts_view(conflicts@));
        assert(d0.push(dv) + tail =~= d0 + (seq![dv] + tail));
    }
}

/// Pick the smallest `k` for which the grammar is LL(k): raise `k` one at a
/// time, recompute FIRST/FOLLOW, scan for conflicts, and stop when none
/// remain. Gives up after [`STUCK_LIMIT`] rounds in which the conflicts did
/// not become fewer; the conflicts are then reported.
pub fn solve_lookahead(g: &Grammar, diags: &mut Vec<Diagnostic>) -> (r: Result<
    (usize, NullTable, FirstTable),
    (),
>)
    ensures
        match r {
            Ok((k, nullable, rule_first)) => {
                &&& solved_at(g.rule_list(), k as nat)
                &&& nullable.wf()
                &&& first_follow::table_wf(rule_first)
                &&& first_follow::is_first(
                    g.rule_list(),
                    k as nat,
                    nullable@,
                    first_follow::firsts(rule_first),
                )
                &&& forall|n: Seq<char>| #[trigger]
                    first_follow::null_at(nullable@, n) == first_follow::set_at(
                        first_follow::firsts(rule_first),
                        n,
                    ).contains(Seq::empty())
                &&& final(diags)@ == old(diags)@
            },
            Err(_) => exists|k: nat| #[trigger]
                given_up_at(g.rule_list(), k) && diagnostic::diags_view(final(diags)@)
                    == diagnostic::diags_view(old(diags)@) + give_up_diags(g.rule_list(), k),
        },
{
    let ghost rv = g.rule_list();
    let mut least: Option<u128> = None;
    let mut stuck: usize = 0;
    let mut k: usize = 0;
    loop
        invariant
            rv == g.rule_list(),
            k < usize::MAX,
            goes_on(rv, k as nat),
            stuck < STUCK_LIMIT,
            search(rv, k as nat).stuck == stuck,
            match least {
                None => search(rv, k as nat).least is None && stuck == 0,
                Some(m) => search(rv, k as nat).least == Some(m as nat),
            },
            diags@ == old(diags)@,
        decreases
                (if least is None {
                    1int
                } else {
                    0int
                }),
                (match least {
                    None => 0int,
                    Some(m) => m as int,
                }),
                STUCK_LIMIT - stuck,
    {
        k += 1;
        let (nullable, rule_first) = first_follow::compute_first(g, k);
        let follow_k = follow_k::compute_follow_k(g, &rule_first, &nullable, k);
        let conflicts = detect_conflicts(g, &nullable, &rule_first, &follow_k, k);
        proof {
            let f = first_follow::firsts(rule_first);
            let fo = first_follow::firsts(follow_k);
            let cs = conflicts_view(conflicts@);
            assert(follow_k::is_follow_k(rv, k as nat, nullable@, f, fo));
            assert(cs == rules_conflicts(
                Tables { nulls: nullable@, firsts: f, k: k as nat },
                rv,
                fo,
                rv.len(),
            ));
            assert(conflicts_of(rv, k as nat, cs));
            lemma_conflicts_unique(rv, k as nat, cs, cs);
        }
        if conflicts.len() == 0 {
            return Ok((k, nullable, rule_first));
        }
        let size = total_of(&conflicts);
        match least {
            Some(m) => {
                if size < m {
                    least = Some(size);
                    stuck = 0;
                } else {
                    stuck += 1;
                }
            },
            None => {
                least = Some(size);
            },
        }
        if stuck >= STUCK_LIMIT || k == usize::MAX {
            assert(given_up_at(rv, k as nat));
            report_give_up(k, &conflicts, diags);
            return Err(());
        }
        proof {
            assert forall|j: nat| 1 <= j <= k implies conflicts_at(rv, j).len() > 0 && (
            #[trigger] search(rv, j)).stuck < STUCK_LIMIT by {
                if j < k {
                    assert(search(rv, j).stuck < STUCK_LIMIT);
                }
            }
        }
    }
}

} // verus!
