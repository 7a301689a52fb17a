//! Tokens, rules and analysis of a grammar as text.
use vstd::prelude::*;

use crate::analysis::first_set::{FirstSet, NameSeq};
use crate::analysis::follow::EOF_MARKER;
use crate::analysis::{AnalysisOutcome, AnalyzedGrammar};
use crate::diagnostic::{self, Diagnostic, DiagnosticView, Severity};
use crate::grammar::ir::{self, Expr, ExprView, Grammar, RuleView, TokenView};
use crate::grammar::resolve;
use crate::lowering::lexer_dfa::START;
use crate::lowering::table::StateTable;
use crate::names::{self, NameSet, Rank};
use crate::report::pattern;
use crate::text;

verus! {

/// What a node of an expression tree says.
pub open spec fn node_text(e: ExprView) -> Seq<char> {
    match e {
        ExprView::Empty => "ε"@,
        ExprView::Token(n) => "Token("@ + n + ")"@,
        ExprView::Rule(n) => "Rule("@ + n + ")"@,
        ExprView::Concat(_) => "Seq"@,
        ExprView::Alt(_) => "Alt"@,
        ExprView::Opt(_) => "Opt"@,
        ExprView::Star(_) => "Star"@,
        ExprView::Plus(_) => "Plus"@,
        ExprView::Label(n, _) => "Label("@ + n + ")"@,
    }
}

/// An expression tree, a line for each node. `last` says that nothing follows
/// on its level.
pub open spec fn tree_text(e: ExprView, prefix: Seq<char>, last: bool) -> Seq<char>
    decreases e, 1nat,
{
    let branch = if last {
        "└─ "@
    } else {
        "├─ "@
    };
    let next = prefix + if last {
        "   "@
    } else {
        "│  "@
    };
    let line = prefix + branch + node_text(e) + "\n"@;
    line + match e {
        ExprView::Concat(xs) => trees_text(xs, next, xs.len()),
        ExprView::Alt(xs) => trees_text(xs, next, xs.len()),
        ExprView::Opt(x) => tree_text(*x, next, true),
        ExprView::Star(x) => tree_text(*x, next, true),
        ExprView::Plus(x) => tree_text(*x, next, true),
        ExprView::Label(_, x) => tree_text(*x, next, true),
        _ => Seq::empty(),
    }
}

/// The first `n` of several trees.
pub open spec fn trees_text(xs: Seq<ExprView>, prefix: Seq<char>, n: nat) -> Seq<char>
    decreases xs, n,
{
    if n == 0 || n > xs.len() {
        Seq::empty()
    } else {
        trees_text(xs, prefix, (n - 1) as nat) + tree_text(xs[n - 1], prefix, n == xs.len())
    }
}

fn push_expr_tree(out: &mut String, e: &Expr, prefix: &str, last: bool)
    ensures
        final(out)@ == old(out)@ + tree_text(e@, prefix@, last),
    decreases e, 1nat,
{
    let ghost before = out@;
    out.append(prefix);
    if last {
        out.append("└─ ");
    } else {
        out.append("├─ ");
    }
    match e {
        Expr::Empty => out.append("ε"),
        Expr::Token(n) => out.append(text::concat3("Token(", n.as_str(), ")").as_str()),
        Expr::Rule(n) => out.append(text::concat3("Rule(", n.as_str(), ")").as_str()),
        Expr::Concat(_) => out.append("Seq"),
        Expr::Alt(_) => out.append("Alt"),
        Expr::Opt(_) => out.append("Opt"),
        Expr::Star(_) => out.append("Star"),
        Expr::Plus(_) => out.append("Plus"),
        Expr::Label(n, _) => out.append(text::concat3("Label(", n.as_str(), ")").as_str()),
    }
    out.append("\n");
    let mut next = prefix.to_owned();
    if last {
        next.append("   ");
    } else {
        next.append("│  ");
    }
    let ghost line = prefix@ + (if last {
        "└─ "@
    } else {
        "├─ "@
    }) + node_text(e@) + "\n"@;
    let ghost mid = out@;
    assert(mid =~= before + line);
    match e {
        Expr::Concat(xs) => {
            assert(e@->Concat_0 == ir::exprs_view(xs@));
            push_trees(out, xs, next.as_str());
            assert(out@ =~= before + tree_text(e@, prefix@, last));
        },
        Expr::Alt(xs) => {
            assert(e@->Alt_0 == ir::exprs_view(xs@));
            push_trees(out, xs, next.as_str());
            assert(out@ =~= before + tree_text(e@, prefix@, last));
        },
        Expr::Opt(x) => {
            push_expr_tree(out, x, next.as_str(), true);
            assert(out@ =~= before + tree_text(e@, prefix@, last));
        },
        Expr::Star(x) => {
            push_expr_tree(out, x, next.as_str(), true);
            assert(out@ =~= before + tree_text(e@, prefix@, last));
        },
        Expr::Plus(x) => {
            push_expr_tree(out, x, next.as_str(), true);
            assert(out@ =~= before + tree_text(e@, prefix@, last));
        },
        Expr::Label(_, x) => {
            push_expr_tree(out, x, next.as_str(), true);
            assert(out@ =~= before + tree_text(e@, prefix@, last));
        },
        _ => {
            assert(out@ =~= before + tree_text(e@, prefix@, last));
        },
    }
}

fn push_trees(out: &mut String, xs: &Vec<Expr>, prefix: &str)
    ensures
        final(out)@ == old(out)@ + trees_text(ir::exprs_view(xs@), prefix@, xs@.len()),
    decreases xs, 0nat,
{
    let ghost before = out@;
    let ghost xv = ir::exprs_view(xs@);
    let mut i: usize = 0;
    assert(out@ =~= before + trees_text(xv, prefix@, 0));
    while i < xs.len()
        invariant
            i <= xs@.len(),
            xv == ir::exprs_view(xs@),
            out@ == before + trees_text(xv, prefix@, i as nat),
        decreases xs@.len() - i,
    {
        assert(xv[i as int] == xs@[i as int]@);
        push_expr_tree(out, &xs[i], prefix, i + 1 == xs.len());
        assert(out@ =~= before + trees_text(xv, prefix@, (i + 1) as nat));
        i += 1;
    }
}

/// A rule and its tree.
pub open spec fn rule_text(r: RuleView) -> Seq<char> {
    r.name + (if r.is_fragment {
        " [fragment]"@
    } else {
        ""@
    }) + "\n"@ + tree_text(r.body, ""@, true)
}

/// The first `n` rules, with a blank line between each two.
pub open spec fn rules_upto(rules: Seq<RuleView>, n: nat) -> Seq<char>
    decreases n,
{
    if n == 0 || n > rules.len() {
        Seq::empty()
    } else {
        rules_upto(rules, (n - 1) as nat) + (if n > 1 {
            "\n"@
        } else {
            ""@
        }) + rule_text(rules[n - 1])
    }
}

/// Every rule as an indented tree.
pub fn rules_text(g: &Grammar) -> (r: String)
    ensures
        r@ == rules_upto(g.rule_list(), g.rule_list().len()),
{
    let rules = g.rule_values();
    let ghost rv = g.rule_list();
    let mut out = String::new();
    let mut i: usize = 0;
    assert(out@ =~= Seq::<char>::empty());
    while i < rules.len()
        invariant
            i <= rules@.len(),
            rules@.len() == rv.len(),
            forall|k: int| 0 <= k < rules@.len() ==> (#[trigger] rules@[k])@ == rv[k],
            out@ == rules_upto(rv, i as nat),
        decreases rules@.len() - i,
    {
        let ghost before = out@;
        let r = rules[i];
        assert(r@ == rv[i as int]);
        let sep = if i > 0 {
            "\n"
        } else {
            ""
        };
        let tag = if r.is_fragment {
            " [fragment]"
        } else {
            ""
        };
        let mut t = r.name.clone();
        t.append(tag);
        t.append("\n");
        push_expr_tree(&mut t, &r.body, "", true);
        assert(t@ == rule_text(rv[i as int]));
        out.append(sep);
        out.append(t.as_str());
        i += 1;
    }
    out
}

/// The bytes of the longest of the first `n` names.
pub open spec fn widest(l: Seq<TokenView>, n: nat) -> nat
    decreases n,
{
    if n == 0 || n > l.len() {
        0
    } else {
        let before = widest(l, (n - 1) as nat);
        let here = vstd::utf8::encode_utf8(l[n - 1].name).len();
        if here > before {
            here
        } else {
            before
        }
    }
}

/// A token and its pattern.
pub open spec fn token_text(g: Grammar, t: TokenView, width: nat) -> Seq<char> {
    text::padded_right(t.name, width) + " = "@ + pattern::pattern_text(
        resolve::resolved(t.pattern, g.token_map()),
    ) + (if t.skip {
        " [skip]"@
    } else if t.is_fragment {
        " [fragment]"@
    } else {
        ""@
    }) + "\n"@
}

/// The first `n` tokens.
pub open spec fn tokens_upto(g: Grammar, l: Seq<TokenView>, width: nat, n: nat) -> Seq<char>
    decreases n,
{
    if n == 0 || n > l.len() {
        Seq::empty()
    } else {
        tokens_upto(g, l, width, (n - 1) as nat) + token_text(g, l[n - 1], width)
    }
}

/// Every token with its pattern, references inlined.
pub fn tokens_text(g: &Grammar) -> (r: String)
    ensures
        r@ == tokens_upto(
            *g,
            g.token_list(),
            widest(g.token_list(), g.token_list().len()),
            g.token_list().len(),
        ),
{
    let tokens = g.token_values();
    let ghost tv = g.token_list();
    let mut width: usize = 0;
    let mut j: usize = 0;
    while j < tokens.len()
        invariant
            j <= tokens@.len(),
            tokens@.len() == tv.len(),
            forall|k: int| 0 <= k < tokens@.len() ==> (#[trigger] tokens@[k])@ == tv[k],
            width == widest(tv, j as nat),
        decreases tokens@.len() - j,
    {
        assert(tokens@[j as int]@ == tv[j as int]);
        let n = tokens[j].name.as_str().as_bytes().len();
        if n > width {
            width = n;
        }
        j += 1;
    }
    let mut out = String::new();
    let mut i: usize = 0;
    assert(out@ =~= Seq::<char>::empty());
    while i < tokens.len()
        invariant
            i <= tokens@.len(),
            tokens@.len() == tv.len(),
            tv == g.token_list(),
            forall|k: int| 0 <= k < tokens@.len() ==> (#[trigger] tokens@[k])@ == tv[k],
            out@ == tokens_upto(*g, tv, width as nat, i as nat),
        decreases tokens@.len() - i,
    {
        let t = tokens[i];
        assert(t@ == tv[i as int]);
        let resolved = resolve::resolve_pattern(&t.pattern, g);
        let mut s = text::pad_right(t.name.as_str(), width);
        s.append(" = ");
        s.append(pattern::format_pattern(&resolved).as_str());
        if t.skip {
            s.append(" [skip]");
        } else if t.is_fragment {
            s.append(" [fragment]");
        } else {
            s.append("");
        }
        s.append("\n");
        assert(s@ == token_text(*g, tv[i as int], width as nat));
        out.append(s.as_str());
        i += 1;
    }
    out
}

/// A sequence of names.
pub open spec fn row_text(s: NameSeq) -> Seq<char> {
    if s.len() == 0 {
        "ε"@
    } else {
        text::joined(s, " "@)
    }
}

/// A FIRST set in braces.
pub open spec fn first_text(s: FirstSet) -> Seq<char> {
    let rows = Seq::new(s.list().len(), |i: int| row_text(s.list()[i]));
    "{"@ + text::joined(names::sorted(rows), ", "@) + "}"@
}

fn format_first_set(f: &FirstSet) -> (r: String)
    ensures
        r@ == first_text(*f),
{
    let ghost want = Seq::new(f.list().len(), |i: int| row_text(f.list()[i]));
    let mut rows: Vec<String> = Vec::new();
    let mut i: usize = 0;
    while i < f.len()
        invariant
            i <= f.list().len(),
            want == Seq::new(f.list().len(), |i: int| row_text(f.list()[i])),
            rows@.len() == i,
            forall|k: int| 0 <= k < i ==> (#[trigger] rows@[k])@ == want[k],
        decreases f.list().len() - i,
    {
        let s = f.get(i);
        assert(names::list_view(s@).len() == s@.len());
        let row = if s.len() == 0 {
            "ε".to_owned()
        } else {
            text::join(s, " ")
        };
        rows.push(row);
        i += 1;
    }
    assert(names::list_view(rows@) =~= want);
    let rows = names::sort_names(&rows);
    let list = text::join(&rows, ", ");
    text::concat3("{", list.as_str(), "}")
}

/// A name of a FOLLOW set; the end of input is a dollar sign.
pub open spec fn follow_name(n: Seq<char>) -> Seq<char> {
    if n == EOF_MARKER@ {
        "$"@
    } else {
        n
    }
}

/// A FOLLOW set in braces.
pub open spec fn follow_text(s: NameSet) -> Seq<char> {
    let l = Seq::new(s.list().len(), |i: int| follow_name(s.list()[i]));
    "{"@ + text::joined(l, ", "@) + "}"@
}

fn format_follow(f: &NameSet) -> (r: String)
    ensures
        r@ == follow_text(*f),
{
    let ghost want = Seq::new(f.list().len(), |i: int| follow_name(f.list()[i]));
    let mut l: Vec<String> = Vec::new();
    let mut i: usize = 0;
    while i < f.len()
        invariant
            i <= f.list().len(),
            want == Seq::new(f.list().len(), |i: int| follow_name(f.list()[i])),
            l@.len() == i,
            forall|k: int| 0 <= k < i ==> (#[trigger] l@[k])@ == want[k],
        decreases f.list().len() - i,
    {
        let n = f.get(i);
        let shown = if names::rank_str(n.as_str(), EOF_MARKER) == Rank::Same {
            "$".to_owned()
        } else {
            n.clone()
        };
        l.push(shown);
        i += 1;
    }
    assert(names::list_view(l@) =~= want);
    let list = text::join(&l, ", ");
    text::concat3("{", list.as_str(), "}")
}

/// A line for a rule: its name in a column, then what is said of it.
pub open spec fn column_text(name: Seq<char>, value: Seq<char>) -> Seq<char> {
    "  "@ + text::padded_right(name, 20) + " "@ + value + "\n"@
}

fn push_column(out: &mut String, name: &str, value: &str)
    ensures
        final(out)@ == old(out)@ + column_text(name@, value@),
{
    let ghost before = out@;
    out.append("  ");
    out.append(text::pad_right(name, 20).as_str());
    out.append(" ");
    out.append(value);
    out.append("\n");
    assert(out@ =~= before + column_text(name@, value@));
}

/// Whether a rule is nullable.
pub open spec fn null_text(ag: AnalyzedGrammar, n: Seq<char>) -> Seq<char> {
    if ag.nullable@.contains_key(n) && ag.nullable@[n] {
        "yes"@
    } else {
        "no"@
    }
}

/// FIRST of a rule.
pub open spec fn first_of(ag: AnalyzedGrammar, n: Seq<char>) -> Seq<char> {
    if ag.first@.contains_key(n) {
        first_text(ag.first@[n])
    } else {
        "{}"@
    }
}

/// FOLLOW of a rule.
pub open spec fn follow_of(ag: AnalyzedGrammar, n: Seq<char>) -> Seq<char> {
    if ag.follow@.contains_key(n) {
        follow_text(ag.follow@[n])
    } else {
        "{}"@
    }
}

/// What of the analysis is shown.
pub ghost enum Column {
    Nullable,
    First,
    Follow,
}

/// The lines of the first `n` rules.
pub open spec fn column_upto(ag: AnalyzedGrammar, c: Column, n: nat) -> Seq<char>
    decreases n,
{
    let rules = ag.grammar.rule_list();
    if n == 0 || n > rules.len() {
        Seq::empty()
    } else {
        let name = rules[n - 1].name;
        column_upto(ag, c, (n - 1) as nat) + column_text(
            name,
            match c {
                Column::Nullable => null_text(ag, name),
                Column::First => first_of(ag, name),
                Column::Follow => follow_of(ag, name),
            },
        )
    }
}

/// The analysis of a grammar.
pub open spec fn analysis_report(ag: AnalyzedGrammar) -> Seq<char> {
    let n = ag.grammar.rule_list().len();
    "nullable:\n"@ + column_upto(ag, Column::Nullable, n) + "\nFIRST (k="@ + text::decimal(
        ag.k as nat,
    ) + "):\n"@ + column_upto(ag, Column::First, n) + "\nFOLLOW:\n"@ + column_upto(
        ag,
        Column::Follow,
        n,
    )
}

/// The analysis as text.
pub fn analysis_text(ag: &AnalyzedGrammar) -> (r: String)
    requires
        ag.wf(),
    ensures
        r@ == analysis_report(*ag),
{
    let rules = ag.grammar.rule_values();
    let ghost rv = ag.grammar.rule_list();
    let mut nulls = String::new();
    let mut firsts = String::new();
    let mut follows = String::new();
    assert(nulls@ =~= Seq::<char>::empty());
    assert(firsts@ =~= Seq::<char>::empty());
    assert(follows@ =~= Seq::<char>::empty());
    let mut i: usize = 0;
    while i < rules.len()
        invariant
            i <= rules@.len(),
            ag.wf(),
            rv == ag.grammar.rule_list(),
            rules@.len() == rv.len(),
            forall|k: int| 0 <= k < rules@.len() ==> (#[trigger] rules@[k])@ == rv[k],
            nulls@ == column_upto(*ag, Column::Nullable, i as nat),
            firsts@ == column_upto(*ag, Column::First, i as nat),
            follows@ == column_upto(*ag, Column::Follow, i as nat),
        decreases rules@.len() - i,
    {
        assert(rules@[i as int]@ == rv[i as int]);
        let name = rules[i].name.as_str();
        let yes = match ag.nullable.get(name) {
            Some(b) => *b,
            None => false,
        };
        if yes {
            push_column(&mut nulls, name, "yes");
        } else {
            push_column(&mut nulls, name, "no");
        }
        match ag.first.get(name) {
            Some(f) => push_column(&mut firsts, name, format_first_set(f).as_str()),
            None => push_column(&mut firsts, name, "{}"),
        }
        match ag.follow.get(name) {
            Some(f) => push_column(&mut follows, name, format_follow(f).as_str()),
            None => push_column(&mut follows, name, "{}"),
        }
        i += 1;
    }
    let mut out = "nullable:\n".to_owned();
    out.append(nulls.as_str());
    out.append("\nFIRST (k=");
    text::push_decimal(&mut out, ag.k as u128);
    out.append("):\n");
    out.append(firsts.as_str());
    out.append("\nFOLLOW:\n");
    out.append(follows.as_str());
    out
}

/// How many of the first `n` tokens are no fragments.
pub open spec fn plain_tokens(l: Seq<TokenView>, n: nat) -> nat
    decreases n,
{
    if n == 0 || n > l.len() {
        0
    } else {
        plain_tokens(l, (n - 1) as nat) + if l[n - 1].is_fragment {
            0nat
        } else {
            1nat
        }
    }
}

/// How many of the first `n` rules are no fragments.
pub open spec fn plain_rules(l: Seq<RuleView>, n: nat) -> nat
    decreases n,
{
    if n == 0 || n > l.len() {
        0
    } else {
        plain_rules(l, (n - 1) as nat) + if l[n - 1].is_fragment {
            0nat
        } else {
            1nat
        }
    }
}

/// A line with a count of those that are no fragments and of those that are.
pub open spec fn counts_text(title: Seq<char>, plain: nat, all: nat) -> Seq<char> {
    title + text::decimal(plain) + " ("@ + text::decimal((all - plain) as nat) + " fragments)\n"@
}

/// The numbers of a grammar and of its table.
pub open spec fn stats_report(ag: AnalyzedGrammar, st: StateTable) -> Seq<char> {
    let tokens = ag.grammar.token_list();
    let rules = ag.grammar.rule_list();
    "grammar       : "@ + ag.grammar.name@ + "\n"@ + counts_text(
        "tokens        : "@,
        plain_tokens(tokens, tokens.len()),
        tokens.len(),
    ) + counts_text("rules         : "@, plain_rules(rules, rules.len()), rules.len())
        + "LL(k)         : "@ + text::decimal(ag.k as nat) + "\nmark kinds    : "@ + text::decimal(
        st.rule_kinds@.len(),
    ) + "\nstate table   : "@ + text::decimal(st.states@.len()) + " states\nFIRST pool    : "@
        + text::decimal(st.first_sets@.len()) + " interned\nSYNC pool     : "@ + text::decimal(
        st.sync_sets@.len(),
    ) + " interned\nlexer DFA     : "@ + text::decimal(st.modes@[0].dfa@.len())
        + " states, start "@ + text::decimal(START as nat) + "\nentry points  : "@ + text::decimal(
        st.entry_states@.len(),
    ) + "\n"@
}

fn count_tokens(g: &Grammar) -> (r: (usize, usize))
    ensures
        r.0 == plain_tokens(g.token_list(), g.token_list().len()),
        r.1 == g.token_list().len(),
        r.0 <= r.1,
{
    let l = g.token_values();
    let ghost lv = g.token_list();
    let mut n: usize = 0;
    let mut i: usize = 0;
    while i < l.len()
        invariant
            i <= l@.len(),
            l@.len() == lv.len(),
            forall|k: int| 0 <= k < l@.len() ==> (#[trigger] l@[k])@ == lv[k],
            n <= i,
            n == plain_tokens(lv, i as nat),
        decreases l@.len() - i,
    {
        assert(l@[i as int]@ == lv[i as int]);
        if !l[i].is_fragment {
            n += 1;
        }
        i += 1;
    }
    (n, l.len())
}

fn count_rules(g: &Grammar) -> (r: (usize, usize))
    ensures
        r.0 == plain_rules(g.rule_list(), g.rule_list().len()),
        r.1 == g.rule_list().len(),
        r.0 <= r.1,
{
    let l = g.rule_values();
    let ghost lv = g.rule_list();
    let mut n: usize = 0;
    let mut i: usize = 0;
    while i < l.len()
        invariant
            i <= l@.len(),
            l@.len() == lv.len(),
            forall|k: int| 0 <= k < l@.len() ==> (#[trigger] l@[k])@ == lv[k],
            n <= i,
            n == plain_rules(lv, i as nat),
        decreases l@.len() - i,
    {
        assert(l@[i as int]@ == lv[i as int]);
        if !l[i].is_fragment {
            n += 1;
        }
        i += 1;
    }
    (n, l.len())
}

fn counts(title: &str, plain: usize, all: usize) -> (r: String)
    requires
        plain <= all,
    ensures
        r@ == counts_text(title@, plain as nat, all as nat),
{
    let mut r = title.to_owned();
    text::push_decimal(&mut r, plain as u128);
    r.append(" (");
    text::push_decimal(&mut r, (all - plain) as u128);
    r.append(" fragments)\n");
    r
}

/// The numbers of a grammar and of its table.
pub fn stats_text(ag: &AnalyzedGrammar, st: &StateTable) -> (r: String)
    requires
        st.modes@.len() > 0,
    ensures
        r@ == stats_report(*ag, *st),
{
    let (pt, at) = count_tokens(&ag.grammar);
    let (pr, ar) = count_rules(&ag.grammar);
    let mut r = "grammar       : ".to_owned();
    r.append(ag.grammar.name.as_str());
    r.append("\n");
    r.append(counts("tokens        : ", pt, at).as_str());
    r.append(counts("rules         : ", pr, ar).as_str());
    r.append("LL(k)         : ");
    text::push_decimal(&mut r, ag.k as u128);
    r.append("\nmark kinds    : ");
    text::push_decimal(&mut r, st.rule_kinds.len() as u128);
    r.append("\nstate table   : ");
    text::push_decimal(&mut r, st.states.len() as u128);
    r.append(" states\nFIRST pool    : ");
    text::push_decimal(&mut r, st.first_sets.len() as u128);
    r.append(" interned\nSYNC pool     : ");
    text::push_decimal(&mut r, st.sync_sets.len() as u128);
    r.append(" interned\nlexer DFA     : ");
    text::push_decimal(&mut r, st.lexer_dfa().len() as u128);
    r.append(" states, start ");
    text::push_decimal(&mut r, START as u128);
    r.append("\nentry points  : ");
    text::push_decimal(&mut r, st.entry_states.len() as u128);
    r.append("\n");
    r
}

/// One line on a grammar that is in order.
pub open spec fn check_report(ag: AnalyzedGrammar) -> Seq<char> {
    "grammar `"@ + ag.grammar.name@ + "` OK: "@ + text::decimal(ag.grammar.token_list().len())
        + " tokens, "@ + text::decimal(ag.grammar.rule_list().len()) + " rules, LL("@
        + text::decimal(ag.k as nat) + ")\n"@
}

/// One line on a grammar that is in order.
pub fn check_text(ag: &AnalyzedGrammar) -> (r: String)
    ensures
        r@ == check_report(*ag),
{
    let (_, tokens) = count_tokens(&ag.grammar);
    let (_, rules) = count_rules(&ag.grammar);
    let mut r = "grammar `".to_owned();
    r.append(ag.grammar.name.as_str());
    r.append("` OK: ");
    text::push_decimal(&mut r, tokens as u128);
    r.append(" tokens, ");
    text::push_decimal(&mut r, rules as u128);
    r.append(" rules, LL(");
    text::push_decimal(&mut r, ag.k as u128);
    r.append(")\n");
    r
}

/// The diagnostic as an error.
pub open spec fn promoted(d: DiagnosticView) -> DiagnosticView {
    DiagnosticView { severity: Severity::Error, ..d }
}

/// The diagnostics of an outcome, with warnings made errors if they count as
/// such.
pub open spec fn judged(diags: Seq<DiagnosticView>, strict: bool) -> Seq<DiagnosticView> {
    if strict {
        Seq::new(diags.len(), |i: int| promoted(diags[i]))
    } else {
        diags
    }
}

/// What is left of an analysis when warnings may count as errors: the
/// diagnostics to be shown, and the grammar if none of them is an error.
pub fn judge(outcome: AnalysisOutcome, strict: bool) -> (r: (Vec<Diagnostic>, Option<
    AnalyzedGrammar,
>))
    ensures
        diagnostic::diags_view(r.0@) == judged(
            diagnostic::diags_view(outcome.diagnostics@),
            strict,
        ),
        r.1 == (if diagnostic::any_error(diagnostic::diags_view(r.0@)) {
            None
        } else {
            outcome.grammar
        }),
{
    let ghost before = diagnostic::diags_view(outcome.diagnostics@);
    let AnalysisOutcome { grammar, diagnostics } = outcome;
    let mut out: Vec<Diagnostic> = Vec::new();
    let mut i: usize = 0;
    while i < diagnostics.len()
        invariant
            i <= diagnostics@.len(),
            before == diagnostic::diags_view(diagnostics@),
            out@.len() == i,
            forall|k: int| 0 <= k < i ==> (#[trigger] out@[k])@ == judged(before, strict)[k],
        decreases diagnostics@.len() - i,
    {
        let mut d = diagnostics[i].clone();
        if strict {
            d.severity = Severity::Error;
        }
        assert(before[i as int] == diagnostics@[i as int]@);
        out.push(d);
        i += 1;
    }
    assert(diagnostic::diags_view(out@) =~= judged(before, strict));
    if diagnostic::has_errors(&out) {
        (out, None)
    } else {
        (out, grammar)
    }
}

} // verus!
