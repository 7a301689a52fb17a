//! Rules as railroad diagrams, in the language of Graphviz.
//!
//! Each rule is a cluster. A token is an ellipse, a rule a box, and branches
//! meet in points.
use vstd::prelude::*;

use crate::grammar::ir::{self, Expr, ExprView, Grammar, RuleView};
use crate::text;

verus! {

/// One character of a label.
pub open spec fn dot_char(c: char) -> Seq<char> {
    if c == '"' {
        "\\\""@
    } else if c == '\\' {
        "\\\\"@
    } else if c == '\n' {
        "\\n"@
    } else {
        seq![c]
    }
}

/// The first `n` characters of a label.
pub open spec fn dot_upto(cs: Seq<char>, n: nat) -> Seq<char>
    decreases n,
{
    if n == 0 || n > cs.len() {
        Seq::empty()
    } else {
        dot_upto(cs, (n - 1) as nat) + dot_char(cs[n - 1])
    }
}

/// A text as a label.
pub open spec fn dot_text(cs: Seq<char>) -> Seq<char> {
    dot_upto(cs, cs.len())
}

/// Escape a text for a label.
pub fn dot_escape(s: &str) -> (r: String)
    ensures
        r@ == dot_text(s@),
{
    let cs = text::chars(s);
    let mut out = String::new();
    let mut i: usize = 0;
    assert(out@ =~= Seq::<char>::empty());
    while i < cs.len()
        invariant
            i <= cs@.len(),
            out@ == dot_upto(cs@, i as nat),
        decreases cs@.len() - i,
    {
        let c = cs[i];
        if c == '"' {
            out.append("\\\"");
        } else if c == '\\' {
            out.append("\\\\");
        } else if c == '\n' {
            out.append("\\n");
        } else {
            out.push(c);
        }
        assert(out@ =~= dot_upto(cs@, (i + 1) as nat));
        i += 1;
    }
    out
}

/// A diagram under way: what the names of its nodes begin with, the number of
/// the next node, and the text so far.
pub ghost struct RailView {
    pub prefix: Seq<char>,
    pub next: u64,
    pub out: Seq<char>,
}

/// The number behind `n`.
pub open spec fn following(n: u64) -> u64 {
    if n < u64::MAX {
        (n + 1) as u64
    } else {
        n
    }
}

/// The name of the next node.
pub open spec fn node(v: RailView, kind: Seq<char>) -> Seq<char> {
    v.prefix + kind + text::decimal(v.next as nat)
}

/// With a node more.
pub open spec fn with_node(v: RailView, kind: Seq<char>, attrs: Seq<char>) -> RailView {
    RailView {
        next: following(v.next),
        out: v.out + "    "@ + node(v, kind) + attrs + "\n"@,
        ..v
    }
}

/// With a point more.
pub open spec fn anchored(v: RailView) -> RailView {
    with_node(v, "a"@, " [shape=point, width=0.05];"@)
}

/// With a token more.
pub open spec fn token_drawn(v: RailView, name: Seq<char>) -> RailView {
    with_node(v, "t"@, " [shape=ellipse, label=\""@ + dot_text(name) + "\"];"@)
}

/// With a rule more.
pub open spec fn rule_drawn(v: RailView, name: Seq<char>) -> RailView {
    with_node(v, "r"@, " [shape=box, style=rounded, label=\""@ + dot_text(name) + "\"];"@)
}

/// With an edge more.
pub open spec fn joined(v: RailView, from: Seq<char>, to: Seq<char>) -> RailView {
    RailView { out: v.out + "    "@ + from + " -> "@ + to + ";\n"@, ..v }
}

/// A drawn expression: the diagram, and the nodes that it begins and ends at.
pub ghost struct Drawn {
    pub rail: RailView,
    pub entry: Seq<char>,
    pub exit: Seq<char>,
}

/// The expression drawn.
pub open spec fn drawn(v: RailView, e: ExprView) -> Drawn
    decreases e, 0nat,
{
    match e {
        ExprView::Empty => Drawn { rail: anchored(v), entry: node(v, "a"@), exit: node(v, "a"@) },
        ExprView::Token(n) => Drawn {
            rail: token_drawn(v, n),
            entry: node(v, "t"@),
            exit: node(v, "t"@),
        },
        ExprView::Rule(n) => Drawn {
            rail: rule_drawn(v, n),
            entry: node(v, "r"@),
            exit: node(v, "r"@),
        },
        ExprView::Concat(xs) => if xs.len() == 0 {
            Drawn { rail: anchored(v), entry: node(v, "a"@), exit: node(v, "a"@) }
        } else {
            drawn_row(v, xs, xs.len())
        },
        ExprView::Alt(xs) => {
            let b = node(v, "a"@);
            let w = anchored(v);
            let j = node(w, "a"@);
            Drawn { rail: drawn_branches(anchored(w), xs, xs.len(), b, j), entry: b, exit: j }
        },
        ExprView::Opt(x) => {
            let b = node(v, "a"@);
            let w = anchored(v);
            let j = node(w, "a"@);
            let d = drawn(anchored(w), *x);
            Drawn {
                rail: joined(joined(joined(d.rail, b, d.entry), d.exit, j), b, j),
                entry: b,
                exit: j,
            }
        },
        ExprView::Star(x) => {
            let b = node(v, "a"@);
            let w = anchored(v);
            let j = node(w, "a"@);
            let d = drawn(anchored(w), *x);
            Drawn {
                rail: joined(joined(joined(joined(d.rail, b, j), b, d.entry), d.exit, j), j, b),
                entry: b,
                exit: j,
            }
        },
        ExprView::Plus(x) => {
            let b = node(v, "a"@);
            let w = anchored(v);
            let j = node(w, "a"@);
            let d = drawn(anchored(w), *x);
            Drawn {
                rail: joined(joined(joined(d.rail, b, d.entry), d.exit, j), j, b),
                entry: b,
                exit: j,
            }
        },
        ExprView::Label(_, x) => drawn(v, *x),
    }
}

/// The first `n` expressions drawn one behind the other.
pub open spec fn drawn_row(v: RailView, xs: Seq<ExprView>, n: nat) -> Drawn
    decreases xs, n,
{
    if n == 0 || n > xs.len() {
        Drawn { rail: v, entry: Seq::empty(), exit: Seq::empty() }
    } else {
        let before = drawn_row(v, xs, (n - 1) as nat);
        let d = drawn(before.rail, xs[n - 1]);
        if n == 1 {
            d
        } else {
            Drawn {
                rail: joined(d.rail, before.exit, d.entry),
                entry: before.entry,
                exit: d.exit,
            }
        }
    }
}

/// The first `n` expressions drawn between two points.
pub open spec fn drawn_branches(
    v: RailView,
    xs: Seq<ExprView>,
    n: nat,
    b: Seq<char>,
    j: Seq<char>,
) -> RailView
    decreases xs, n,
{
    if n == 0 || n > xs.len() {
        v
    } else {
        let d = drawn(drawn_branches(v, xs, (n - 1) as nat, b, j), xs[n - 1]);
        joined(joined(d.rail, b, d.entry), d.exit, j)
    }
}

/// Draws expressions.
pub struct RailroadCtx {
    prefix: String,
    next_id: u64,
    out: String,
}

impl RailroadCtx {
    /// The diagram so far.
    pub closed spec fn view(self) -> RailView {
        RailView { prefix: self.prefix@, next: self.next_id, out: self.out@ }
    }

    /// An empty diagram whose nodes have names that begin with `prefix`.
    pub fn new(prefix: &str) -> (r: Self)
        ensures
            r@ == (RailView { prefix: prefix@, next: 0, out: Seq::empty() }),
    {
        let out = String::new();
        assert(out@ =~= Seq::<char>::empty());
        RailroadCtx { prefix: prefix.to_owned(), next_id: 0, out }
    }

    /// The text of the diagram.
    pub fn text(self) -> (r: String)
        ensures
            r@ == self@.out,
    {
        self.out
    }

    fn place(&mut self, kind: &str, attrs: &str) -> (n: String)
        ensures
            final(self)@ == with_node(old(self)@, kind@, attrs@),
            n@ == node(old(self)@, kind@),
    {
        let mut n = self.prefix.clone();
        n.append(kind);
        text::push_decimal(&mut n, self.next_id as u128);
        if self.next_id < u64::MAX {
            self.next_id = self.next_id + 1;
        }
        self.out.append("    ");
        self.out.append(n.as_str());
        self.out.append(attrs);
        self.out.append("\n");
        n
    }

    fn anchor(&mut self) -> (n: String)
        ensures
            final(self)@ == anchored(old(self)@),
            n@ == node(old(self)@, "a"@),
    {
        self.place("a", " [shape=point, width=0.05];")
    }

    fn token(&mut self, name: &str) -> (n: String)
        ensures
            final(self)@ == token_drawn(old(self)@, name@),
            n@ == node(old(self)@, "t"@),
    {
        let label = dot_escape(name);
        let attrs = text::concat3(" [shape=ellipse, label=\"", label.as_str(), "\"];");
        self.place("t", attrs.as_str())
    }

    fn rule_ref(&mut self, name: &str) -> (n: String)
        ensures
            final(self)@ == rule_drawn(old(self)@, name@),
            n@ == node(old(self)@, "r"@),
    {
        let label = dot_escape(name);
        let attrs = text::concat3(" [shape=box, style=rounded, label=\"", label.as_str(), "\"];");
        self.place("r", attrs.as_str())
    }

    fn edge(&mut self, from: &str, to: &str)
        ensures
            final(self)@ == joined(old(self)@, from@, to@),
    {
        self.out.append("    ");
        self.out.append(from);
        self.out.append(" -> ");
        self.out.append(to);
        self.out.append(";\n");
    }

    /// Draw an expression: the nodes that it begins and ends at.
    pub fn emit(&mut self, e: &Expr) -> (r: (String, String))
        ensures
            drawn(old(self)@, e@) == (Drawn { rail: final(self)@, entry: r.0@, exit: r.1@ }),
        decreases e, 1nat,
    {
        match e {
            Expr::Empty => {
                let a = self.anchor();
                (a.clone(), a)
            },
            Expr::Token(n) => {
                let a = self.token(n.as_str());
                (a.clone(), a)
            },
            Expr::Rule(n) => {
                let a = self.rule_ref(n.as_str());
                (a.clone(), a)
            },
            Expr::Concat(xs) => {
                assert(e@->Concat_0 == ir::exprs_view(xs@));
                if xs.len() == 0 {
                    let a = self.anchor();
                    return (a.clone(), a);
                }
                self.emit_row(xs)
            },
            Expr::Alt(xs) => {
                assert(e@->Alt_0 == ir::exprs_view(xs@));
                let b = self.anchor();
                let j = self.anchor();
                self.emit_branches(xs, b.as_str(), j.as_str());
                (b, j)
            },
            Expr::Opt(x) => {
                let b = self.anchor();
                let j = self.anchor();
                let (p, q) = self.emit(x);
                self.edge(b.as_str(), p.as_str());
                self.edge(q.as_str(), j.as_str());
                self.edge(b.as_str(), j.as_str());
                (b, j)
            },
            Expr::Star(x) => {
                let b = self.anchor();
                let j = self.anchor();
                let (p, q) = self.emit(x);
                self.edge(b.as_str(), j.as_str());
                self.edge(b.as_str(), p.as_str());
                self.edge(q.as_str(), j.as_str());
                self.edge(j.as_str(), b.as_str());
                (b, j)
            },
            Expr::Plus(x) => {
                let b = self.anchor();
                let j = self.anchor();
                let (p, q) = self.emit(x);
                self.edge(b.as_str(), p.as_str());
                self.edge(q.as_str(), j.as_str());
                self.edge(j.as_str(), b.as_str());
                (b, j)
            },
            Expr::Label(_, x) => self.emit(x),
        }
    }

    fn emit_row(&mut self, xs: &Vec<Expr>) -> (r: (String, String))
        requires
            xs@.len() > 0,
        ensures
            drawn_row(old(self)@, ir::exprs_view(xs@), xs@.len()) == (Drawn {
                rail: final(self)@,
                entry: r.0@,
                exit: r.1@,
            }),
        decreases xs, 0nat,
    {
        let ghost start = self@;
        let ghost xv = ir::exprs_view(xs@);
        assert(xv[0] == xs@[0]@);
        assert(drawn_row(start, xv, 0).rail == start);
        let (entry, mut exit) = self.emit(&xs[0]);
        assert(drawn_row(start, xv, 1) == Drawn { rail: self@, entry: entry@, exit: exit@ });
        let mut i: usize = 1;
        while i < xs.len()
            invariant
                1 <= i <= xs@.len(),
                xv == ir::exprs_view(xs@),
                drawn_row(start, xv, i as nat) == (Drawn {
                    rail: self@,
                    entry: entry@,
                    exit: exit@,
                }),
            decreases xs@.len() - i,
        {
            assert(xv[i as int] == xs@[i as int]@);
            let (p, q) = self.emit(&xs[i]);
            self.edge(exit.as_str(), p.as_str());
            exit = q;
            i += 1;
        }
        (entry, exit)
    }

    fn emit_branches(&mut self, xs: &Vec<Expr>, b: &str, j: &str)
        ensures
            final(self)@ == drawn_branches(
                old(self)@,
                ir::exprs_view(xs@),
                xs@.len(),
                b@,
                j@,
            ),
        decreases xs, 0nat,
    {
        let ghost start = self@;
        let ghost xv = ir::exprs_view(xs@);
        let mut i: usize = 0;
        while i < xs.len()
            invariant
                i <= xs@.len(),
                xv == ir::exprs_view(xs@),
                self@ == drawn_branches(start, xv, i as nat, b@, j@),
            decreases xs@.len() - i,
        {
            assert(xv[i as int] == xs@[i as int]@);
            let (p, q) = self.emit(&xs[i]);
            self.edge(b, p.as_str());
            self.edge(q.as_str(), j);
            i += 1;
        }
    }
}

/// The cluster of a rule.
pub open spec fn cluster_text(r: RuleView, i: nat) -> Seq<char> {
    let prefix = "r"@ + text::decimal(i) + "_"@;
    let (label, style) = if r.is_fragment {
        (r.name + " (fragment)"@, "rounded,dashed"@)
    } else {
        (r.name, "rounded"@)
    };
    let start = prefix + "start"@;
    let end = prefix + "end"@;
    let d = drawn(RailView { prefix, next: 0, out: Seq::empty() }, r.body);
    "\n  subgraph cluster_"@ + text::decimal(i) + " {\n    label=\""@ + dot_text(label)
        + "\";\n    style=\""@ + style
        + "\";\n    labeljust=l;\n    // start / end terminals of the production\n    "@ + start
        + " [shape=circle, label=\"\", width=0.2, style=filled, fillcolor=black];\n    "@ + end
        + " [shape=doublecircle, label=\"\", width=0.2];\n"@ + d.rail.out + "    "@ + start
        + " -> "@ + d.entry + ";\n    "@ + d.exit + " -> "@ + end + ";\n  }\n"@
}

/// The clusters of the first `n` rules.
pub open spec fn clusters_text(rules: Seq<RuleView>, n: nat) -> Seq<char>
    decreases n,
{
    if n == 0 || n > rules.len() {
        Seq::empty()
    } else {
        clusters_text(rules, (n - 1) as nat) + cluster_text(rules[n - 1], (n - 1) as nat)
    }
}

/// What stands before the clusters.
pub open spec fn rules_head() -> Seq<char> {
    "digraph grammar {\n  rankdir=LR;\n  compound=true;\n  node [fontname=\"Menlo,Monaco,Consolas,monospace\"];\n  edge [fontname=\"Menlo,Monaco,Consolas,monospace\", arrowsize=0.6];\n"@
}

fn push_cluster(out: &mut String, name: &str, body: &Expr, is_fragment: bool, i: usize, Ghost(r): Ghost<RuleView>)
    requires
        r.name == name@,
        r.body == body@,
        r.is_fragment == is_fragment,
    ensures
        final(out)@ == old(out)@ + cluster_text(r, i as nat),
{
    let ghost before = out@;
    let mut prefix = "r".to_owned();
    text::push_decimal(&mut prefix, i as u128);
    prefix.append("_");
    let mut label = name.to_owned();
    if is_fragment {
        label.append(" (fragment)");
    }
    let style = if is_fragment {
        "rounded,dashed"
    } else {
        "rounded"
    };
    let mut start = prefix.clone();
    start.append("start");
    let mut end = prefix.clone();
    end.append("end");
    let mut rr = RailroadCtx::new(prefix.as_str());
    let (entry, exit) = rr.emit(body);
    let drawing = rr.text();
    let mut s = "\n  subgraph cluster_".to_owned();
    text::push_decimal(&mut s, i as u128);
    s.append(" {\n    label=\"");
    s.append(dot_escape(label.as_str()).as_str());
    s.append("\";\n    style=\"");
    s.append(style);
    s.append(
        "\";\n    labeljust=l;\n    // start / end terminals of the production\n    ",
    );
    s.append(start.as_str());
    s.append(" [shape=circle, label=\"\", width=0.2, style=filled, fillcolor=black];\n    ");
    s.append(end.as_str());
    s.append(" [shape=doublecircle, label=\"\", width=0.2];\n");
    s.append(drawing.as_str());
    s.append("    ");
    s.append(start.as_str());
    s.append(" -> ");
    s.append(entry.as_str());
    s.append(";\n    ");
    s.append(exit.as_str());
    s.append(" -> ");
    s.append(end.as_str());
    s.append(";\n  }\n");
    assert(s@ == cluster_text(r, i as nat));
    out.append(s.as_str());
}

/// Every rule as a railroad diagram.
pub fn rules_dot(g: &Grammar) -> (r: String)
    ensures
        r@ == rules_head() + clusters_text(g.rule_list(), g.rule_list().len()) + "}\n"@,
{
    let rules = g.rule_values();
    let ghost rv = g.rule_list();
    let mut out = "digraph grammar {\n  rankdir=LR;\n  compound=true;\n  node [fontname=\"Menlo,Monaco,Consolas,monospace\"];\n  edge [fontname=\"Menlo,Monaco,Consolas,monospace\", arrowsize=0.6];\n".to_owned();
    let mut i: usize = 0;
    assert(out@ =~= rules_head() + clusters_text(rv, 0));
    while i < rules.len()
        invariant
            i <= rules@.len(),
            rules@.len() == rv.len(),
            forall|k: int| 0 <= k < rules@.len() ==> (#[trigger] rules@[k])@ == rv[k],
            out@ == rules_head() + clusters_text(rv, i as nat),
        decreases rules@.len() - i,
    {
        let r = rules[i];
        assert(r@ == rv[i as int]);
        push_cluster(&mut out, r.name.as_str(), &r.body, r.is_fragment, i, Ghost(rv[i as int]));
        assert(rules_head() + clusters_text(rv, i as nat) + cluster_text(rv[i as int], i as nat)
            =~= rules_head() + clusters_text(rv, (i + 1) as nat));
        i += 1;
    }
    out.append("}\n");
    out
}

} // verus!
