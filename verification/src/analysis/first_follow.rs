//! FIRST(k)/FOLLOW computation, plus the iterative-deepening driver that picks
//! the smallest `k` for which the grammar has no LL conflicts.
use vstd::prelude::*;

use crate::analysis::first_set::{self, FirstSet, NameSeq};
use crate::analysis::universe;
use crate::grammar::ir::{self, Expr, ExprView, Grammar, RuleDef, RuleView};
use crate::name_map::NameMap;
use crate::names::{self, NameSet};

verus! {

/// FIRST(k) of every rule, by name.
pub type FirstTable = NameMap<FirstSet>;

/// Whether each rule derives ε, by name.
pub type NullTable = NameMap<bool>;

/// FOLLOW of every rule, by name.
pub type FollowTable = NameMap<NameSet>;

/// What a [`FirstTable`] holds.
pub type Firsts = Map<Seq<char>, Set<NameSeq>>;

/// What a [`NullTable`] holds.
pub type Nulls = Map<Seq<char>, bool>;

/// What the table holds.
pub open spec fn firsts(t: FirstTable) -> Firsts {
    Map::new(|n: Seq<char>| t@.contains_key(n), |n: Seq<char>| t@[n]@)
}

/// The table and every set in it are well-formed.
pub open spec fn table_wf(t: FirstTable) -> bool {
    t.wf() && forall|n: Seq<char>| #[trigger] t@.contains_key(n) ==> t@[n].wf()
}

/// The set under `name`; empty if there is none.
pub open spec fn set_at(f: Firsts, name: Seq<char>) -> Set<NameSeq> {
    if f.contains_key(name) {
        f[name]
    } else {
        Set::empty()
    }
}

/// The rule `name` is known to derive ε.
pub open spec fn null_at(n: Nulls, name: Seq<char>) -> bool {
    n.contains_key(name) && n[name]
}

/// The set of ε alone.
pub open spec fn only_eps() -> Set<NameSeq> {
    Set::empty().insert(Seq::empty())
}

/// FIRST(k) of an expression, given the tables for the rules.
pub open spec fn first_expr(e: ExprView, nulls: Nulls, f: Firsts, k: nat) -> Set<NameSeq>
    decreases e,
{
    match e {
        ExprView::Empty => only_eps(),
        ExprView::Token(n) => if k == 0 {
            only_eps()
        } else {
            Set::empty().insert(seq![n])
        },
        ExprView::Rule(n) => if null_at(nulls, n) {
            set_at(f, n).union(only_eps())
        } else {
            set_at(f, n)
        },
        ExprView::Concat(xs) => first_concat(xs, nulls, f, k),
        ExprView::Alt(xs) => Set::new(
            |s: NameSeq|
                exists|i: int|
                    0 <= i < xs.len() && first_expr(#[trigger] xs[i], nulls, f, k).contains(s),
        ),
        ExprView::Opt(x) => first_expr(*x, nulls, f, k).union(only_eps()),
        ExprView::Star(x) => first_set::star_k_of(first_expr(*x, nulls, f, k), k),
        ExprView::Plus(x) => {
            let inner = first_expr(*x, nulls, f, k);
            first_set::concat_k_of(inner, first_set::star_k_of(inner, k), k)
        },
        ExprView::Label(_, x) => first_expr(*x, nulls, f, k),
    }
}

/// FIRST(k) of expressions in sequence.
pub open spec fn first_concat(xs: Seq<ExprView>, nulls: Nulls, f: Firsts, k: nat) -> Set<NameSeq>
    decreases xs,
{
    if xs.len() == 0 {
        only_eps()
    } else {
        first_set::concat_k_of(
            first_concat(xs.drop_last(), nulls, f, k),
            first_expr(xs.last(), nulls, f, k),
            k,
        )
    }
}

pub proof fn lemma_first_alt(xs: Seq<ExprView>, nulls: Nulls, f: Firsts, k: nat, s: NameSeq)
    ensures
        first_expr(ExprView::Alt(xs), nulls, f, k).contains(s) <==> exists|i: int|
            0 <= i < xs.len() && first_expr(#[trigger] xs[i], nulls, f, k).contains(s),
{
    let p = ExprView::Alt(xs);
    assert(p->Alt_0 == xs);
}

pub proof fn lemma_first_concat(xs: Seq<ExprView>, nulls: Nulls, f: Firsts, k: nat)
    ensures
        first_expr(ExprView::Concat(xs), nulls, f, k) == first_concat(xs, nulls, f, k),
{
    let p = ExprView::Concat(xs);
    assert(p->Concat_0 == xs);
}

/// Sequences that are long enough are not changed by what follows.
proof fn lemma_concat_full(a: Set<NameSeq>, b: Set<NameSeq>, k: nat)
    requires
        forall|s: NameSeq| #[trigger] a.contains(s) ==> s.len() >= k,
    ensures
        first_set::concat_k_of(a, b, k) == a,
{
    assert forall|s: NameSeq| first_set::concat_k_of(a, b, k).contains(s) <==> a.contains(s) by {
        if first_set::concat_k_of(a, b, k).contains(s) && !(a.contains(s) && s.len() >= k) {
            let (x, y) = choose|x: NameSeq, y: NameSeq|
                first_set::joins(a, b, k, x, y) && s == first_set::cut(x + y, k);
            assert(a.contains(x));
        }
    }
    assert(first_set::concat_k_of(a, b, k) =~= a);
}

/// Once every sequence is long enough the rest of a sequence adds nothing.
proof fn lemma_first_concat_full(
    xs: Seq<ExprView>,
    i: int,
    nulls: Nulls,
    f: Firsts,
    k: nat,
)
    requires
        0 <= i <= xs.len(),
        forall|s: NameSeq| #[trigger]
            first_concat(xs.take(i), nulls, f, k).contains(s) ==> s.len() >= k,
    ensures
        first_concat(xs, nulls, f, k) == first_concat(xs.take(i), nulls, f, k),
    decreases xs.len(),
{
    if i == xs.len() {
        assert(xs.take(i) =~= xs);
    } else {
        let ys = xs.drop_last();
        assert(ys.take(i) =~= xs.take(i));
        lemma_first_concat_full(ys, i, nulls, f, k);
        lemma_concat_full(
            first_concat(ys, nulls, f, k),
            first_expr(xs.last(), nulls, f, k),
            k,
        );
    }
}

/// Every sequence has at least `k` names.
fn all_long(s: &FirstSet, k: usize) -> (r: bool)
    ensures
        r <==> forall|x: NameSeq| #[trigger] s@.contains(x) ==> x.len() >= k,
{
    let mut i: usize = 0;
    while i < s.len()
        invariant
            i <= s.list().len(),
            forall|j: int| 0 <= j < i ==> (#[trigger] s.list()[j]).len() >= k,
        decreases s.list().len() - i,
    {
        let x = s.get(i);
        if x.len() < k {
            assert(s@.contains(names::list_view(x@)));
            return false;
        }
        i += 1;
    }
    proof {
        assert forall|x: NameSeq| #[trigger] s@.contains(x) implies x.len() >= k by {
            let j = choose|j: int| 0 <= j < s.list().len() && s.list()[j] == x;
            assert(s.list()[j].len() >= k);
        }
    }
    true
}

pub(crate) fn eps_set() -> (r: FirstSet)
    ensures
        r.wf(),
        r@ == only_eps(),
{
    let mut r = FirstSet::new();
    r.insert(Vec::new());
    proof {
        assert(names::list_view(Seq::<String>::empty()) =~= Seq::<Seq<char>>::empty());
    }
    r
}

/// FIRST(k) of a single expression, given the tables for the rules.
pub fn first_of(e: &Expr, nullable: &NullTable, rule_first: &FirstTable, k: usize) -> (out: FirstSet)
    requires
        nullable.wf(),
        rule_first.wf(),
    ensures
        out.wf(),
        out@ == first_expr(e@, nullable@, firsts(*rule_first), k as nat),
    decreases e,
{
    let ghost nv = nullable@;
    let ghost fv = firsts(*rule_first);
    let ghost kk = k as nat;
    match e {
        Expr::Empty => eps_set(),
        Expr::Token(n) => {
            if k == 0 {
                eps_set()
            } else {
                let mut out = FirstSet::new();
                let mut one: Vec<String> = Vec::new();
                one.push(n.clone());
                assert(names::list_view(one@) =~= seq![n@]);
                out.insert(one);
                out
            }
        },
        Expr::Rule(n) => {
            let mut out = FirstSet::new();
            if let Some(s) = rule_first.get(n.as_str()) {
                out.extend(s);
            }
            proof {
                assert(out@ =~= set_at(fv, n@));
            }
            let null = match nullable.get(n.as_str()) {
                Some(b) => *b,
                None => false,
            };
            if null {
                out.insert(Vec::new());
                proof {
                    assert(names::list_view(Seq::<String>::empty()) =~= Seq::<Seq<char>>::empty());
                    assert(out@ =~= set_at(fv, n@).union(only_eps()));
                }
            }
            out
        },
        Expr::Concat(xs) => {
            proof {
                lemma_first_concat(ir::exprs_view(xs@), nv, fv, kk);
            }
            first_of_concat(xs, nullable, rule_first, k)
        },
        Expr::Alt(xs) => first_of_alt(xs, nullable, rule_first, k),
        Expr::Opt(x) => {
            let mut out = first_of(x, nullable, rule_first, k);
            let ghost before = out@;
            out.insert(Vec::new());
            proof {
                assert(names::list_view(Seq::<String>::empty()) =~= Seq::<Seq<char>>::empty());
                assert(out@ =~= before.union(only_eps()));
            }
            out
        },
        Expr::Star(x) => {
            let inner = first_of(x, nullable, rule_first, k);
            first_set::star_k(&inner, k)
        },
        Expr::Plus(x) => {
            let inner = first_of(x, nullable, rule_first, k);
            let star = first_set::star_k(&inner, k);
            first_set::concat_k(&inner, &star, k)
        },
        Expr::Label(_, x) => first_of(x, nullable, rule_first, k),
    }
}

fn first_of_concat(
    xs: &Vec<Expr>,
    nullable: &NullTable,
    rule_first: &FirstTable,
    k: usize,
) -> (acc: FirstSet)
    requires
        nullable.wf(),
        rule_first.wf(),
    ensures
        acc.wf(),
        acc@ == first_concat(ir::exprs_view(xs@), nullable@, firsts(*rule_first), k as nat),
    decreases xs,
{
    let ghost nv = nullable@;
    let ghost fv = firsts(*rule_first);
    let ghost kk = k as nat;
    let ghost views = ir::exprs_view(xs@);
    let mut acc = eps_set();
    let mut i: usize = 0;
    let mut full = false;
    while !full && i < xs.len()
        invariant
            nullable.wf(),
            rule_first.wf(),
            nv == nullable@,
            fv == firsts(*rule_first),
            kk == k,
            views == ir::exprs_view(xs@),
            i <= xs@.len(),
            acc.wf(),
            acc@ == first_concat(views.take(i as int), nv, fv, kk),
            full ==> forall|s: NameSeq| #[trigger] acc@.contains(s) ==> s.len() >= k,
        decreases xs@.len() - i, (if full { 0int } else { 1int }),
    {
        let fx = first_of(&xs[i], nullable, rule_first, k);
        acc = first_set::concat_k(&acc, &fx, k);
        proof {
            assert(views.take(i + 1).drop_last() =~= views.take(i as int));
            assert(views.take(i + 1).last() == xs@[i as int]@);
        }
        i += 1;
        full = all_long(&acc, k);
    }
    proof {
        if full {
            lemma_first_concat_full(views, i as int, nv, fv, kk);
        } else {
            assert(views.take(i as int) =~= views);
        }
    }
    acc
}

fn first_of_alt(
    xs: &Vec<Expr>,
    nullable: &NullTable,
    rule_first: &FirstTable,
    k: usize,
) -> (out: FirstSet)
    requires
        nullable.wf(),
        rule_first.wf(),
    ensures
        out.wf(),
        out@ == first_expr(
            ExprView::Alt(ir::exprs_view(xs@)),
            nullable@,
            firsts(*rule_first),
            k as nat,
        ),
    decreases xs,
{
    let ghost nv = nullable@;
    let ghost fv = firsts(*rule_first);
    let ghost kk = k as nat;
    let ghost views = ir::exprs_view(xs@);
    let mut out = FirstSet::new();
    let mut i: usize = 0;
    while i < xs.len()
        invariant
            nullable.wf(),
            rule_first.wf(),
            nv == nullable@,
            fv == firsts(*rule_first),
            kk == k,
            views == ir::exprs_view(xs@),
            i <= xs@.len(),
            out.wf(),
            forall|s: NameSeq| #[trigger]
                out@.contains(s) <==> exists|j: int|
                    0 <= j < i && first_expr(#[trigger] views[j], nv, fv, kk).contains(s),
        decreases xs@.len() - i,
    {
        let fx = first_of(&xs[i], nullable, rule_first, k);
        let ghost before = out@;
        out.extend(&fx);
        proof {
            assert forall|s: NameSeq| #[trigger] out@.contains(s) <==> exists|j: int|
                0 <= j < i + 1 && first_expr(#[trigger] views[j], nv, fv, kk).contains(
                    s,
                ) by {
                assert(before.contains(s) <==> exists|j: int|
                    0 <= j < i && first_expr(#[trigger] views[j], nv, fv, kk).contains(s));
                assert(fx@ == first_expr(views[i as int], nv, fv, kk));
                if exists|j: int|
                    0 <= j < i + 1 && first_expr(#[trigger] views[j], nv, fv, kk).contains(
                        s,
                    ) {
                    let j = choose|j: int|
                        0 <= j < i + 1 && first_expr(
                            #[trigger] views[j],
                            nv,
                            fv,
                            kk,
                        ).contains(s);
                    if j < i {
                        assert(before.contains(s));
                    }
                }
            }
        }
        i += 1;
    }
    proof {
        let all = first_expr(ExprView::Alt(views), nv, fv, kk);
        assert forall|s: NameSeq| out@.contains(s) <==> all.contains(s) by {
            lemma_first_alt(views, nv, fv, kk, s);
        }
        assert(out@ =~= all);
    }
    out
}

/// `a` says no more than `b`.
pub open spec fn tables_le(a: Firsts, b: Firsts) -> bool {
    forall|n: Seq<char>| (#[trigger] set_at(a, n)).subset_of(set_at(b, n))
}

/// `a` says no more than `b`.
pub open spec fn nulls_le(a: Nulls, b: Nulls) -> bool {
    forall|n: Seq<char>| #[trigger] null_at(a, n) ==> null_at(b, n)
}

/// Larger tables give larger FIRST sets.
pub proof fn lemma_first_mono(
    e: ExprView,
    n1: Nulls,
    f1: Firsts,
    n2: Nulls,
    f2: Firsts,
    k: nat,
)
    requires
        tables_le(f1, f2),
        nulls_le(n1, n2),
    ensures
        first_expr(e, n1, f1, k).subset_of(first_expr(e, n2, f2, k)),
    decreases e,
{
    match e {
        ExprView::Empty => {},
        ExprView::Token(_) => {},
        ExprView::Rule(n) => {
            assert(set_at(f1, n).subset_of(set_at(f2, n)));
            assert(null_at(n1, n) ==> null_at(n2, n));
        },
        ExprView::Concat(xs) => {
            lemma_first_concat_mono(xs, n1, f1, n2, f2, k);
        },
        ExprView::Alt(xs) => {
            assert forall|s: NameSeq| first_expr(e, n1, f1, k).contains(s) implies first_expr(
                e,
                n2,
                f2,
                k,
            ).contains(s) by {
                lemma_first_alt(xs, n1, f1, k, s);
                lemma_first_alt(xs, n2, f2, k, s);
                let i = choose|i: int|
                    0 <= i < xs.len() && first_expr(#[trigger] xs[i], n1, f1, k).contains(s);
                lemma_first_mono(xs[i], n1, f1, n2, f2, k);
            }
        },
        ExprView::Opt(x) => {
            lemma_first_mono(*x, n1, f1, n2, f2, k);
        },
        ExprView::Star(x) => {
            lemma_first_mono(*x, n1, f1, n2, f2, k);
            first_set::lemma_star_mono(
                first_expr(*x, n1, f1, k),
                first_expr(*x, n2, f2, k),
                k,
            );
        },
        ExprView::Plus(x) => {
            lemma_first_mono(*x, n1, f1, n2, f2, k);
            let a = first_expr(*x, n1, f1, k);
            let b = first_expr(*x, n2, f2, k);
            first_set::lemma_star_mono(a, b, k);
            first_set::lemma_concat_mono(
                a,
                b,
                first_set::star_k_of(a, k),
                first_set::star_k_of(b, k),
                k,
            );
        },
        ExprView::Label(_, x) => {
            lemma_first_mono(*x, n1, f1, n2, f2, k);
        },
    }
}

proof fn lemma_first_concat_mono(
    xs: Seq<ExprView>,
    n1: Nulls,
    f1: Firsts,
    n2: Nulls,
    f2: Firsts,
    k: nat,
)
    requires
        tables_le(f1, f2),
        nulls_le(n1, n2),
    ensures
        first_concat(xs, n1, f1, k).subset_of(first_concat(xs, n2, f2, k)),
    decreases xs,
{
    if xs.len() > 0 {
        lemma_first_concat_mono(xs.drop_last(), n1, f1, n2, f2, k);
        lemma_first_mono(xs.last(), n1, f1, n2, f2, k);
        first_set::lemma_concat_mono(
            first_concat(xs.drop_last(), n1, f1, k),
            first_concat(xs.drop_last(), n2, f2, k),
            first_expr(xs.last(), n1, f1, k),
            first_expr(xs.last(), n2, f2, k),
            k,
        );
    }
}

/// The token `n` occurs in the expression.
pub open spec fn mentions(e: ExprView, n: Seq<char>) -> bool
    decreases e,
{
    match e {
        ExprView::Token(m) => m == n,
        ExprView::Concat(xs) => exists|i: int|
            0 <= i < xs.len() && mentions(#[trigger] xs[i], n),
        ExprView::Alt(xs) => exists|i: int| 0 <= i < xs.len() && mentions(#[trigger] xs[i], n),
        ExprView::Opt(x) => mentions(*x, n),
        ExprView::Star(x) => mentions(*x, n),
        ExprView::Plus(x) => mentions(*x, n),
        ExprView::Label(_, x) => mentions(*x, n),
        _ => false,
    }
}

spec fn alphabet(e: ExprView) -> Set<Seq<char>> {
    Set::new(|n: Seq<char>| mentions(e, n))
}

spec fn list_alphabet(xs: Seq<ExprView>) -> Set<Seq<char>> {
    Set::new(|n: Seq<char>| exists|i: int| 0 <= i < xs.len() && mentions(#[trigger] xs[i], n))
}

proof fn lemma_alphabet_finite(e: ExprView)
    ensures
        alphabet(e).finite(),
    decreases e,
{
    match e {
        ExprView::Token(m) => {
            assert(alphabet(e) =~= Set::empty().insert(m));
        },
        ExprView::Concat(xs) => {
            lemma_list_alphabet_finite(xs);
            assert(alphabet(e) =~= list_alphabet(xs));
        },
        ExprView::Alt(xs) => {
            lemma_list_alphabet_finite(xs);
            assert(alphabet(e) =~= list_alphabet(xs));
        },
        ExprView::Opt(x) => {
            lemma_alphabet_finite(*x);
            assert(alphabet(e) =~= alphabet(*x));
        },
        ExprView::Star(x) => {
            lemma_alphabet_finite(*x);
            assert(alphabet(e) =~= alphabet(*x));
        },
        ExprView::Plus(x) => {
            lemma_alphabet_finite(*x);
            assert(alphabet(e) =~= alphabet(*x));
        },
        ExprView::Label(_, x) => {
            lemma_alphabet_finite(*x);
            assert(alphabet(e) =~= alphabet(*x));
        },
        _ => {
            assert(alphabet(e) =~= Set::empty());
        },
    }
}

proof fn lemma_list_alphabet_finite(xs: Seq<ExprView>)
    ensures
        list_alphabet(xs).finite(),
    decreases xs,
{
    if xs.len() == 0 {
        assert(list_alphabet(xs) =~= Set::empty());
    } else {
        lemma_list_alphabet_finite(xs.drop_last());
        lemma_alphabet_finite(xs.last());
        let u = list_alphabet(xs.drop_last()).union(alphabet(xs.last()));
        assert forall|n: Seq<char>| list_alphabet(xs).contains(n) <==> u.contains(n) by {
            if list_alphabet(xs).contains(n) {
                let i = choose|i: int| 0 <= i < xs.len() && mentions(#[trigger] xs[i], n);
                if i < xs.len() - 1 {
                    assert(mentions(xs.drop_last()[i], n));
                }
            }
            if list_alphabet(xs.drop_last()).contains(n) {
                let i = choose|i: int|
                    0 <= i < xs.drop_last().len() && mentions(#[trigger] xs.drop_last()[i], n);
                assert(mentions(xs[i], n));
            }
            if mentions(xs.last(), n) {
                assert(mentions(xs[xs.len() - 1], n));
            }
        }
        assert(list_alphabet(xs) =~= u);
        vstd::set_lib::lemma_set_union_finite_iff(
            list_alphabet(xs.drop_last()),
            alphabet(xs.last()),
        );
    }
}

pub proof fn lemma_concat_bounded(
    a: Set<NameSeq>,
    b: Set<NameSeq>,
    k: nat,
    sigma: Set<Seq<char>>,
    len: nat,
)
    requires
        a.subset_of(universe::all_seqs(sigma, len)),
        b.subset_of(universe::all_seqs(sigma, len)),
        k <= len,
    ensures
        first_set::concat_k_of(a, b, k).subset_of(universe::all_seqs(sigma, len)),
{
    assert forall|s: NameSeq| first_set::concat_k_of(a, b, k).contains(
        s,
    ) implies universe::all_seqs(sigma, len).contains(s) by {
        if !(a.contains(s) && s.len() >= k) {
            let (x, y) = choose|x: NameSeq, y: NameSeq|
                first_set::joins(a, b, k, x, y) && s == first_set::cut(x + y, k);
            assert(universe::all_seqs(sigma, len).contains(x));
            assert(universe::all_seqs(sigma, len).contains(y));
            assert forall|i: int| 0 <= i < s.len() implies sigma.contains(#[trigger] s[i]) by {
                if i < x.len() {
                    assert(s[i] == x[i]);
                } else {
                    assert(s[i] == y[i - x.len()]);
                }
            }
        }
    }
}

pub proof fn lemma_star_bounded(a: Set<NameSeq>, k: nat, sigma: Set<Seq<char>>, len: nat)
    requires
        a.subset_of(universe::all_seqs(sigma, len)),
        k <= len,
    ensures
        first_set::star_k_of(a, k).subset_of(universe::all_seqs(sigma, len)),
{
    assert forall|s: NameSeq| first_set::star_k_of(a, k).contains(s) implies universe::all_seqs(
        sigma,
        len,
    ).contains(s) by {
        let n = choose|n: nat| #[trigger] first_set::star_n(a, k, n).contains(s);
        lemma_star_n_bounded(a, k, n, sigma, len);
    }
}

proof fn lemma_star_n_bounded(a: Set<NameSeq>, k: nat, n: nat, sigma: Set<Seq<char>>, len: nat)
    requires
        a.subset_of(universe::all_seqs(sigma, len)),
        k <= len,
    ensures
        first_set::star_n(a, k, n).subset_of(universe::all_seqs(sigma, len)),
    decreases n,
{
    if n > 0 {
        lemma_star_n_bounded(a, k, (n - 1) as nat, sigma, len);
        lemma_concat_bounded(first_set::star_n(a, k, (n - 1) as nat), a, k, sigma, len);
    }
}

/// FIRST sets stay within the universe of the names involved.
pub proof fn lemma_first_bounded(
    e: ExprView,
    nulls: Nulls,
    f: Firsts,
    k: nat,
    sigma: Set<Seq<char>>,
    len: nat,
)
    requires
        k <= len,
        forall|n: Seq<char>| mentions(e, n) ==> #[trigger] sigma.contains(n),
        forall|n: Seq<char>|
            (#[trigger] set_at(f, n)).subset_of(universe::all_seqs(sigma, len)),
    ensures
        first_expr(e, nulls, f, k).subset_of(universe::all_seqs(sigma, len)),
    decreases e,
{
    let u = universe::all_seqs(sigma, len);
    match e {
        ExprView::Empty => {},
        ExprView::Token(n) => {
            assert(mentions(e, n));
            assert(sigma.contains(n));
        },
        ExprView::Rule(n) => {
            assert(set_at(f, n).subset_of(u));
        },
        ExprView::Concat(xs) => {
            assert forall|i: int, n: Seq<char>|
                0 <= i < xs.len() && mentions(xs[i], n) implies sigma.contains(n) by {
                assert(mentions(e, n));
            }
            lemma_first_concat_bounded(xs, nulls, f, k, sigma, len);
        },
        ExprView::Alt(xs) => {
            assert forall|s: NameSeq| first_expr(e, nulls, f, k).contains(s) implies u.contains(
                s,
            ) by {
                lemma_first_alt(xs, nulls, f, k, s);
                let i = choose|i: int|
                    0 <= i < xs.len() && first_expr(#[trigger] xs[i], nulls, f, k).contains(s);
                assert forall|n: Seq<char>| mentions(xs[i], n) implies #[trigger] sigma.contains(
                    n,
                ) by {
                    assert(mentions(e, n));
                }
                lemma_first_bounded(xs[i], nulls, f, k, sigma, len);
            }
        },
        ExprView::Opt(x) => {
            assert forall|n: Seq<char>| mentions(*x, n) implies #[trigger] sigma.contains(n) by {
                assert(mentions(e, n));
            }
            lemma_first_bounded(*x, nulls, f, k, sigma, len);
        },
        ExprView::Star(x) => {
            assert forall|n: Seq<char>| mentions(*x, n) implies #[trigger] sigma.contains(n) by {
                assert(mentions(e, n));
            }
            lemma_first_bounded(*x, nulls, f, k, sigma, len);
            lemma_star_bounded(first_expr(*x, nulls, f, k), k, sigma, len);
        },
        ExprView::Plus(x) => {
            assert forall|n: Seq<char>| mentions(*x, n) implies #[trigger] sigma.contains(n) by {
                assert(mentions(e, n));
            }
            lemma_first_bounded(*x, nulls, f, k, sigma, len);
            let a = first_expr(*x, nulls, f, k);
            lemma_star_bounded(a, k, sigma, len);
            lemma_concat_bounded(a, first_set::star_k_of(a, k), k, sigma, len);
        },
        ExprView::Label(_, x) => {
            assert forall|n: Seq<char>| mentions(*x, n) implies #[trigger] sigma.contains(n) by {
                assert(mentions(e, n));
            }
            lemma_first_bounded(*x, nulls, f, k, sigma, len);
        },
    }
}

proof fn lemma_first_concat_bounded(
    xs: Seq<ExprView>,
    nulls: Nulls,
    f: Firsts,
    k: nat,
    sigma: Set<Seq<char>>,
    len: nat,
)
    requires
        k <= len,
        forall|i: int, n: Seq<char>|
            0 <= i < xs.len() && #[trigger] mentions(xs[i], n) ==> sigma.contains(n),
        forall|n: Seq<char>|
            (#[trigger] set_at(f, n)).subset_of(universe::all_seqs(sigma, len)),
    ensures
        first_concat(xs, nulls, f, k).subset_of(universe::all_seqs(sigma, len)),
    decreases xs,
{
    if xs.len() > 0 {
        let ys = xs.drop_last();
        assert forall|i: int, n: Seq<char>|
            0 <= i < ys.len() && #[trigger] mentions(ys[i], n) implies sigma.contains(n) by {
            assert(mentions(xs[i], n));
        }
        lemma_first_concat_bounded(ys, nulls, f, k, sigma, len);
        assert forall|n: Seq<char>| mentions(xs.last(), n) implies #[trigger] sigma.contains(n) by {
            assert(mentions(xs[xs.len() - 1], n));
        }
        lemma_first_bounded(xs.last(), nulls, f, k, sigma, len);
        lemma_concat_bounded(
            first_concat(ys, nulls, f, k),
            first_expr(xs.last(), nulls, f, k),
            k,
            sigma,
            len,
        );
    }
}

/// The tables hold FIRST(k) of every rule body.
pub open spec fn first_closed(rules: Seq<RuleView>, k: nat, nulls: Nulls, f: Firsts) -> bool {
    forall|i: int| 0 <= i < rules.len() ==> rule_closed(#[trigger] rules[i], k, nulls, f)
}

/// The tables hold FIRST(k) of the rule's body.
pub open spec fn rule_closed(r: RuleView, k: nat, nulls: Nulls, f: Firsts) -> bool {
    let s = first_expr(r.body, nulls, f, k);
    s.subset_of(set_at(f, r.name)) && (s.contains(Seq::empty()) ==> null_at(nulls, r.name))
}

/// The tables are the least ones that hold FIRST(k) of every rule body: what
/// is in them is there because some derivation puts it there.
pub open spec fn is_first(rules: Seq<RuleView>, k: nat, nulls: Nulls, f: Firsts) -> bool {
    &&& first_closed(rules, k, nulls, f)
    &&& forall|n2: Nulls, f2: Firsts| #[trigger]
        first_closed(rules, k, n2, f2) ==> tables_le(f, f2) && nulls_le(nulls, n2)
}

/// The names of the rules.
pub open spec fn rule_names(rules: Seq<RuleView>) -> Set<Seq<char>> {
    Set::new(|n: Seq<char>| exists|i: int| 0 <= i < rules.len() && (#[trigger] rules[i]).name == n)
}

/// The views of a list of rules.
pub open spec fn rules_view(rules: Seq<&RuleDef>) -> Seq<RuleView> {
    Seq::new(rules.len(), |i: int| rules[i]@)
}

/// The contents of a table as one set: each sequence behind the name it is
/// filed under.
pub open spec fn tagged(f: Firsts) -> Set<NameSeq> {
    Set::new(|s: NameSeq| s.len() > 0 && set_at(f, s[0]).contains(s.skip(1)))
}

pub proof fn lemma_rule_names_finite(rules: Seq<RuleView>)
    ensures
        rule_names(rules).finite(),
{
    let list = Seq::new(rules.len(), |i: int| rules[i].name);
    assert(rule_names(rules) =~= list.to_set()) by {
        assert forall|n: Seq<char>| rule_names(rules).contains(n) <==> list.contains(n) by {
            if rule_names(rules).contains(n) {
                let i = choose|i: int| 0 <= i < rules.len() && (#[trigger] rules[i]).name == n;
                assert(list[i] == n);
            }
            if list.contains(n) {
                let i = choose|i: int| 0 <= i < list.len() && list[i] == n;
                assert(rules[i].name == n);
            }
        }
    }
    vstd::seq_lib::seq_to_set_is_finite(list);
}

/// The tokens that occur in the rules.
pub open spec fn rules_alphabet(rules: Seq<RuleView>) -> Set<Seq<char>> {
    Set::new(
        |n: Seq<char>| exists|i: int| 0 <= i < rules.len() && mentions((#[trigger] rules[i]).body, n),
    )
}

pub proof fn lemma_rules_alphabet_finite(rules: Seq<RuleView>)
    ensures
        rules_alphabet(rules).finite(),
{
    let bodies = Seq::new(rules.len(), |i: int| rules[i].body);
    lemma_list_alphabet_finite(bodies);
    assert(rules_alphabet(rules) =~= list_alphabet(bodies)) by {
        assert forall|n: Seq<char>| rules_alphabet(rules).contains(n) <==> list_alphabet(
            bodies,
        ).contains(n) by {
            if rules_alphabet(rules).contains(n) {
                let i = choose|i: int|
                    0 <= i < rules.len() && mentions((#[trigger] rules[i]).body, n);
                assert(mentions(bodies[i], n));
            }
            if list_alphabet(bodies).contains(n) {
                let i = choose|i: int| 0 <= i < bodies.len() && mentions(#[trigger] bodies[i], n);
                assert(mentions(rules[i].body, n));
            }
        }
    }
}

/// A table over a universe, filed under names of a larger alphabet, stays
/// within the universe of one name more.
proof fn lemma_tagged_bounded(f: Firsts, sigma: Set<Seq<char>>, heads: Set<Seq<char>>, len: nat)
    requires
        forall|n: Seq<char>|
            (#[trigger] set_at(f, n)).subset_of(universe::all_seqs(sigma, len)),
        forall|n: Seq<char>| #[trigger] f.contains_key(n) ==> heads.contains(n),
    ensures
        tagged(f).subset_of(universe::all_seqs(sigma.union(heads), len + 1)),
{
    let big = sigma.union(heads);
    assert forall|s: NameSeq| tagged(f).contains(s) implies universe::all_seqs(
        big,
        len + 1,
    ).contains(s) by {
        let t = s.skip(1);
        assert(set_at(f, s[0]).subset_of(universe::all_seqs(sigma, len)));
        assert(universe::all_seqs(sigma, len).contains(t));
        assert forall|i: int| 0 <= i < s.len() implies big.contains(#[trigger] s[i]) by {
            if i > 0 {
                assert(s[i] == t[i - 1]);
            } else {
                assert(f.contains_key(s[0]));
            }
        }
    }
}

/// The table after a set was replaced.
proof fn lemma_firsts_put(before: FirstTable, after: FirstTable, name: Seq<char>, set: FirstSet)
    requires
        after@ == before@.insert(name, set),
    ensures
        firsts(after) == firsts(before).insert(name, set@),
{
    assert(firsts(after) =~= firsts(before).insert(name, set@));
}

/// A copy of the set under `name`; empty if there is none.
fn table_set(t: &FirstTable, name: &str) -> (r: FirstSet)
    requires
        table_wf(*t),
    ensures
        r.wf(),
        r@ == set_at(firsts(*t), name@),
{
    match t.get(name) {
        Some(s) => s.clone(),
        None => FirstSet::new(),
    }
}

/// What holds throughout the saturation of FIRST.
spec fn first_inv(
    rules: Seq<RuleView>,
    k: nat,
    nulls: Nulls,
    f: Firsts,
) -> bool {
    &&& f.dom() == rule_names(rules)
    &&& nulls.dom() == rule_names(rules)
    &&& forall|n: Seq<char>|
        (#[trigger] set_at(f, n)).subset_of(universe::all_seqs(rules_alphabet(rules), k))
    &&& forall|n: Seq<char>| #[trigger] null_at(nulls, n) == set_at(f, n).contains(Seq::empty())
    &&& forall|n2: Nulls, f2: Firsts| #[trigger]
        first_closed(rules, k, n2, f2) ==> tables_le(f, f2) && nulls_le(nulls, n2)
}

/// Adding FIRST(k) of a rule's body to the tables keeps the invariant.
proof fn lemma_first_step(
    rules: Seq<RuleView>,
    i: int,
    k: nat,
    nulls: Nulls,
    f: Firsts,
    nulls1: Nulls,
    f1: Firsts,
)
    requires
        0 <= i < rules.len(),
        first_inv(rules, k, nulls, f),
        f1 == f.insert(
            rules[i].name,
            set_at(f, rules[i].name).union(first_expr(rules[i].body, nulls, f, k)),
        ),
        first_expr(rules[i].body, nulls, f, k).contains(Seq::empty()) ==> nulls1 == nulls.insert(
            rules[i].name,
            true,
        ) || (nulls1 == nulls && null_at(nulls, rules[i].name)),
        !first_expr(rules[i].body, nulls, f, k).contains(Seq::empty()) ==> nulls1 == nulls,
    ensures
        first_inv(rules, k, nulls1, f1),
{
    let r = rules[i];
    let add = first_expr(r.body, nulls, f, k);
    let sigma = rules_alphabet(rules);
    assert(rule_names(rules).contains(r.name));
    assert(f1.dom() =~= rule_names(rules));
    assert(nulls1.dom() =~= rule_names(rules));
    assert forall|n: Seq<char>| mentions(r.body, n) implies #[trigger] sigma.contains(n) by {
        assert(mentions(rules[i].body, n));
    }
    lemma_first_bounded(r.body, nulls, f, k, sigma, k);
    assert forall|n: Seq<char>| (#[trigger] set_at(f1, n)).subset_of(
        universe::all_seqs(sigma, k),
    ) by {
        assert(set_at(f, n).subset_of(universe::all_seqs(sigma, k)));
        assert(set_at(f, r.name).subset_of(universe::all_seqs(sigma, k)));
    }
    assert forall|n: Seq<char>| #[trigger] null_at(nulls1, n) == set_at(f1, n).contains(
        Seq::empty(),
    ) by {
        assert(null_at(nulls, n) == set_at(f, n).contains(Seq::empty()));
        assert(null_at(nulls, r.name) == set_at(f, r.name).contains(Seq::empty()));
    }
    assert forall|n2: Nulls, f2: Firsts| #[trigger] first_closed(rules, k, n2, f2) implies tables_le(
        f1,
        f2,
    ) && nulls_le(nulls1, n2) by {
        assert(tables_le(f, f2) && nulls_le(nulls, n2));
        lemma_first_mono(r.body, nulls, f, n2, f2, k);
        assert(rule_closed(rules[i], k, n2, f2));
        assert forall|n: Seq<char>| (#[trigger] set_at(f1, n)).subset_of(set_at(f2, n)) by {
            assert(set_at(f, n).subset_of(set_at(f2, n)));
            assert(set_at(f, r.name).subset_of(set_at(f2, r.name)));
        }
        assert forall|n: Seq<char>| #[trigger] null_at(nulls1, n) implies null_at(n2, n) by {
            assert(null_at(nulls, n) ==> null_at(n2, n));
        }
    }
}

/// Compute FIRST(k) and nullability for every rule by saturation.
pub fn compute_first(g: &Grammar, k: usize) -> (r: (NullTable, FirstTable))
    ensures
        r.0.wf(),
        table_wf(r.1),
        r.0@.dom() == rule_names(g.rule_list()),
        r.1@.dom() == rule_names(g.rule_list()),
        is_first(g.rule_list(), k as nat, r.0@, firsts(r.1)),
        forall|n: Seq<char>| #[trigger]
            null_at(r.0@, n) == set_at(firsts(r.1), n).contains(Seq::empty()),
{
    let rules = g.rule_values();
    let ghost rv = g.rule_list();
    assert(rules_view(rules@) =~= rv);
    let mut nullable: NullTable = NameMap::new();
    let mut first: FirstTable = NameMap::new();
    let mut i: usize = 0;
    while i < rules.len()
        invariant
            i <= rules@.len(),
            rv == rules_view(rules@),
            nullable.wf(),
            table_wf(first),
            forall|n: Seq<char>| #[trigger]
                nullable@.contains_key(n) <==> exists|j: int|
                    0 <= j < i && (#[trigger] rv[j]).name == n,
            forall|n: Seq<char>| #[trigger]
                first@.contains_key(n) <==> exists|j: int|
                    0 <= j < i && (#[trigger] rv[j]).name == n,
            forall|n: Seq<char>| #[trigger] nullable@.contains_key(n) ==> !nullable@[n],
            forall|n: Seq<char>| #[trigger]
                first@.contains_key(n) ==> first@[n]@ == Set::<NameSeq>::empty(),
        decreases rules@.len() - i,
    {
        let name = rules[i].name.as_str();
        assert(name@ == rv[i as int].name);
        nullable.put(name, false);
        first.put(name, FirstSet::new());
        i += 1;
    }
    let ghost kk = k as nat;
    let ghost all = universe::all_seqs(rules_alphabet(rv).union(rule_names(rv)), kk + 1);
    proof {
        let f = firsts(first);
        assert(f.dom() =~= rule_names(rv));
        assert(nullable@.dom() =~= rule_names(rv));
        lemma_rules_alphabet_finite(rv);
        lemma_rule_names_finite(rv);
        vstd::set_lib::lemma_set_union_finite_iff(rules_alphabet(rv), rule_names(rv));
        universe::lemma_all_seqs_finite(rules_alphabet(rv).union(rule_names(rv)), kk + 1);
        assert(first_inv(rv, kk, nullable@, f));
    }
    let mut changed = true;
    while changed
        invariant
            rv == rules_view(rules@),
            kk == k,
            all == universe::all_seqs(rules_alphabet(rv).union(rule_names(rv)), kk + 1),
            all.finite(),
            nullable.wf(),
            table_wf(first),
            first_inv(rv, kk, nullable@, firsts(first)),
            !changed ==> first_closed(rv, kk, nullable@, firsts(first)),
        decreases all.len() - tagged(firsts(first)).len(), (if changed { 1int } else { 0int }),
    {
        changed = false;
        let ghost n0 = nullable@;
        let ghost f0 = firsts(first);
        let mut i: usize = 0;
        while i < rules.len()
            invariant
                i <= rules@.len(),
                rv == rules_view(rules@),
                kk == k,
                nullable.wf(),
                table_wf(first),
                first_inv(rv, kk, nullable@, firsts(first)),
                !changed ==> nullable@ == n0 && firsts(first) == f0,
                !changed ==> forall|j: int|
                    0 <= j < i ==> rule_closed(#[trigger] rv[j], kk, n0, f0),
                tagged(f0).subset_of(tagged(firsts(first))),
                changed ==> exists|x: NameSeq| #[trigger]
                    tagged(firsts(first)).contains(x) && !tagged(f0).contains(x),
            decreases rules@.len() - i,
        {
            let name = rules[i].name.as_str();
            let ghost nm = rv[i as int].name;
            let ghost nb = nullable@;
            let ghost fb = firsts(first);
            let e_first = first_of(&rules[i].body, &nullable, &first, k);
            let has_eps = e_first.contains(&Vec::new());
            proof {
                assert(names::list_view(Seq::<String>::empty()) =~= Seq::<Seq<char>>::empty());
                assert(name@ == nm);
                assert(e_first@ == first_expr(rv[i as int].body, nb, fb, kk));
            }
            let mut cur = table_set(&first, name);
            let ghost cur0 = cur@;
            let grew = cur.extend(&e_first);
            let ghost tb = first;
            let was_null = match nullable.get(name) {
                Some(b) => *b,
                None => false,
            };
            if grew {
                let ghost cv = cur;
                first.put(name, cur);
                proof {
                    lemma_firsts_put(tb, first, nm, cv);
                }
                changed = true;
            }
            if has_eps && !was_null {
                nullable.put(name, true);
                changed = true;
            }
            proof {
                let f1 = firsts(first);
                let n1 = nullable@;
                assert(fb.contains_key(nm)) by {
                    assert(rule_names(rv).contains(nm)) by {
                        assert(rv[i as int].name == nm);
                    }
                }
                let target = fb.insert(nm, cur0.union(e_first@));
                if grew {
                    assert(f1 == target);
                } else {
                    assert(cur0.union(e_first@) =~= cur0);
                    assert(f1 =~= target);
                }
                lemma_first_step(rv, i as int, kk, nb, fb, n1, f1);
                assert(null_at(nb, nm) == set_at(fb, nm).contains(Seq::empty()));
                if has_eps && !was_null {
                    assert(!cur0.contains(Seq::empty()));
                    assert(grew);
                }
                assert forall|x: NameSeq| tagged(fb).contains(x) implies tagged(f1).contains(
                    x,
                ) by {}
                if grew {
                    let s = choose|s: NameSeq| e_first@.contains(s) && !cur0.contains(s);
                    let x = seq![nm] + s;
                    assert(x.skip(1) =~= s);
                    assert(tagged(f1).contains(x));
                    assert(!tagged(fb).contains(x));
                    assert(tagged(f1).contains(x) && !tagged(f0).contains(x));
                } else {
                    assert(f1 =~= fb);
                }
            }
            i += 1;
        }
        proof {
            if changed {
                let x = choose|x: NameSeq| #[trigger]
                    tagged(firsts(first)).contains(x) && !tagged(f0).contains(x);
                lemma_tagged_bounded(firsts(first), rules_alphabet(rv), rule_names(rv), kk);
                universe::lemma_gain(tagged(f0), tagged(firsts(first)), all, x);
            }
        }
    }
    proof {
        let f = firsts(first);
        assert(f.dom() =~= first@.dom());
    }
    (nullable, first)
}

} // verus!
