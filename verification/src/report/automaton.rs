//! The lexer automaton as text and as a Graphviz digraph.
use vstd::prelude::*;

use crate::lowering::lexer_dfa::{self, ByteArm, DfaState, START};
use crate::lowering::table::StateTable;
use crate::names;
use crate::report::pattern;
use crate::report::railroad;
use crate::runtime::events::TOKEN_EOF;
use crate::text;

verus! {

/// A byte.
pub open spec fn byte_text(b: u8) -> Seq<char> {
    if b == 0x09 {
        "\\t"@
    } else if b == 0x0A {
        "\\n"@
    } else if b == 0x0D {
        "\\r"@
    } else if b == 0x20 {
        "SP"@
    } else if 0x21 <= b < 0x7F {
        "'"@ + seq![b as char] + "'"@
    } else {
        let h = text::hex(b as nat, true);
        "0x"@ + pattern::zeros(2, h.len()) + h
    }
}

/// A range of bytes.
pub open spec fn range_text(r: (u8, u8)) -> Seq<char> {
    if r.0 == r.1 {
        byte_text(r.0)
    } else {
        byte_text(r.0) + ".."@ + byte_text(r.1)
    }
}

/// The name of a token kind.
pub open spec fn kind_text(st: StateTable, kind: u16) -> Seq<char> {
    if kind == TOKEN_EOF {
        "EOF"@
    } else if kind as int - 1 < st.tokens@.len() {
        st.tokens@[kind as int - 1].name@
    } else {
        "?"@
    }
}

fn display_byte(b: u8) -> (r: String)
    ensures
        r@ == byte_text(b),
{
    if b == 0x09 {
        "\\t".to_owned()
    } else if b == 0x0A {
        "\\n".to_owned()
    } else if b == 0x0D {
        "\\r".to_owned()
    } else if b == 0x20 {
        "SP".to_owned()
    } else if 0x21 <= b && b < 0x7F {
        let mut r = "'".to_owned();
        r.push(b as char);
        r.append("'");
        assert(r@ =~= byte_text(b));
        r
    } else {
        let mut r = "0x".to_owned();
        pattern::push_hex_padded(&mut r, b as u32, 2);
        r
    }
}

/// A range of bytes.
pub fn byte_range_label(from: u8, to: u8) -> (r: String)
    ensures
        r@ == range_text((from, to)),
{
    let a = display_byte(from);
    if from == to {
        return a;
    }
    let b = display_byte(to);
    text::concat3(a.as_str(), "..", b.as_str())
}

fn token_name_for_kind(st: &StateTable, kind: u16) -> (r: String)
    ensures
        r@ == kind_text(*st, kind),
{
    if kind == TOKEN_EOF {
        return "EOF".to_owned();
    }
    let i = kind as usize - 1;
    if i < st.tokens.len() {
        st.tokens[i].name.clone()
    } else {
        "?".to_owned()
    }
}

/// The ranges, each by itself.
pub open spec fn ranges_text(l: Seq<(u8, u8)>) -> Seq<Seq<char>> {
    Seq::new(l.len(), |i: int| range_text(l[i]))
}

/// The ranges on which the state goes to itself.
pub open spec fn loop_ranges(s: DfaState) -> Seq<(u8, u8)> {
    if exists|i: int| lexer_dfa::first_arm(s.arms@, s.id, i) {
        s.arms@[choose|i: int| lexer_dfa::first_arm(s.arms@, s.id, i)].ranges@
    } else {
        Seq::empty()
    }
}

/// A line for each of the first `n` ranges of an arm.
pub open spec fn arm_lines(a: ByteArm, n: nat) -> Seq<char>
    decreases n,
{
    if n == 0 || n > a.ranges@.len() {
        Seq::empty()
    } else {
        arm_lines(a, (n - 1) as nat) + "            "@ + text::padded_left(
            range_text(a.ranges@[n - 1]),
            18,
        ) + "  -> "@ + text::decimal(a.target as nat) + "\n"@
    }
}

/// The lines of the first `n` arms.
pub open spec fn arms_lines(arms: Seq<ByteArm>, n: nat) -> Seq<char>
    decreases n,
{
    if n == 0 || n > arms.len() {
        Seq::empty()
    } else {
        arms_lines(arms, (n - 1) as nat) + arm_lines(arms[n - 1], arms[n - 1].ranges@.len())
    }
}

/// A state of the automaton.
pub open spec fn dfa_state_text(st: StateTable, s: DfaState) -> Seq<char> {
    let accept = match s.accept {
        Some(k) => "accept="@ + text::decimal(k as nat) + "("@ + kind_text(st, k) + ")"@,
        None => "-"@,
    };
    let head = "state "@ + text::padded_left(text::decimal(s.id as nat), 3) + "  "@ + accept
        + "\n"@;
    let loops = if loop_ranges(s).len() > 0 {
        "            self-loop  {"@ + text::joined(ranges_text(loop_ranges(s)), ", "@) + "}\n"@
    } else {
        Seq::empty()
    };
    let arms = if s.arms@.len() == 0 {
        "            (terminal — no live transitions)\n"@
    } else {
        arms_lines(s.arms@, s.arms@.len())
    };
    head + loops + arms
}

/// The first `n` states of the automaton.
pub open spec fn dfa_states_text(st: StateTable, dfa: Seq<DfaState>, n: nat) -> Seq<char>
    decreases n,
{
    if n == 0 || n > dfa.len() {
        Seq::empty()
    } else {
        dfa_states_text(st, dfa, (n - 1) as nat) + dfa_state_text(st, dfa[n - 1])
    }
}

/// The automaton of the default mode.
pub open spec fn dfa_report(st: StateTable) -> Seq<char> {
    let dfa = st.modes@[0].dfa@;
    "DFA: "@ + text::decimal(dfa.len()) + " real states, start = "@ + text::decimal(START as nat)
        + "\n\n"@ + dfa_states_text(st, dfa, dfa.len())
}

fn push_arm_lines(out: &mut String, a: &ByteArm)
    ensures
        final(out)@ == old(out)@ + arm_lines(*a, a.ranges@.len()),
{
    let ghost before = out@;
    let mut i: usize = 0;
    assert(out@ =~= before + arm_lines(*a, 0));
    while i < a.ranges.len()
        invariant
            i <= a.ranges@.len(),
            out@ == before + arm_lines(*a, i as nat),
        decreases a.ranges@.len() - i,
    {
        let (lo, hi) = a.ranges[i];
        let label = byte_range_label(lo, hi);
        out.append("            ");
        out.append(text::pad_left(label.as_str(), 18).as_str());
        out.append("  -> ");
        text::push_decimal(out, a.target as u128);
        out.append("\n");
        assert(out@ =~= before + arm_lines(*a, (i + 1) as nat));
        i += 1;
    }
}

proof fn lemma_loop_ranges(s: DfaState, i: int)
    requires
        lexer_dfa::first_arm(s.arms@, s.id, i),
    ensures
        loop_ranges(s) == s.arms@[i].ranges@,
{
    let j = choose|j: int| lexer_dfa::first_arm(s.arms@, s.id, j);
    assert(lexer_dfa::first_arm(s.arms@, s.id, j));
    if j < i {
        assert(s.arms@[j].target != s.id);
    } else if i < j {
        assert(s.arms@[i].target != s.id);
    }
}

fn push_state_text(out: &mut String, st: &StateTable, s: &DfaState)
    ensures
        final(out)@ == old(out)@ + dfa_state_text(*st, *s),
{
    let ghost before = out@;
    let mut t = "state ".to_owned();
    let id = text::decimal_text(s.id as u128);
    t.append(text::pad_left(id.as_str(), 3).as_str());
    t.append("  ");
    match s.accept {
        Some(k) => {
            let mut a = "accept=".to_owned();
            text::push_decimal(&mut a, k as u128);
            a.append("(");
            a.append(token_name_for_kind(st, k).as_str());
            a.append(")");
            t.append(a.as_str());
        },
        None => t.append("-"),
    }
    t.append("\n");
    let ghost head = t@;
    let ranges = s.self_loop_ranges();
    proof {
        if exists|i: int| 0 <= i < s.arms@.len() && (#[trigger] s.arms@[i]).target == s.id {
            let i = choose|i: int| #[trigger]
                lexer_dfa::first_arm(s.arms@, s.id, i) && ranges@ == s.arms@[i].ranges@;
            lemma_loop_ranges(*s, i);
        } else {
            assert forall|i: int| !lexer_dfa::first_arm(s.arms@, s.id, i) by {}
            assert(ranges@ =~= loop_ranges(*s));
        }
    }
    let mut loops = String::new();
    if ranges.len() > 0 {
        let ghost want = ranges_text(ranges@);
        let mut parts: Vec<String> = Vec::new();
        let mut i: usize = 0;
        while i < ranges.len()
            invariant
                i <= ranges@.len(),
                want == ranges_text(ranges@),
                parts@.len() == i,
                forall|k: int| 0 <= k < i ==> (#[trigger] parts@[k])@ == want[k],
            decreases ranges@.len() - i,
        {
            let (lo, hi) = ranges[i];
            parts.push(byte_range_label(lo, hi));
            i += 1;
        }
        assert(names::list_view(parts@) =~= want);
        let list = text::join(&parts, ", ");
        loops = text::concat3("            self-loop  {", list.as_str(), "}\n");
    } else {
        assert(loops@ =~= Seq::<char>::empty());
    }
    let mut arms = String::new();
    assert(arms@ =~= Seq::<char>::empty());
    if s.arms.len() == 0 {
        arms.append("            (terminal — no live transitions)\n");
        assert(arms@ =~= "            (terminal — no live transitions)\n"@);
    } else {
        let mut i: usize = 0;
        while i < s.arms.len()
            invariant
                i <= s.arms@.len(),
                arms@ == arms_lines(s.arms@, i as nat),
            decreases s.arms@.len() - i,
        {
            push_arm_lines(&mut arms, &s.arms[i]);
            i += 1;
        }
    }
    t.append(loops.as_str());
    t.append(arms.as_str());
    assert(t@ == dfa_state_text(*st, *s));
    out.append(t.as_str());
}

/// The lexer automaton of the default mode as text.
pub fn dfa_text(st: &StateTable) -> (r: String)
    requires
        st.modes@.len() > 0,
    ensures
        r@ == dfa_report(*st),
{
    let dfa = st.lexer_dfa();
    let mut out = "DFA: ".to_owned();
    text::push_decimal(&mut out, dfa.len() as u128);
    out.append(" real states, start = ");
    text::push_decimal(&mut out, START as u128);
    out.append("\n\n");
    let ghost head = out@;
    let mut i: usize = 0;
    assert(out@ =~= head + dfa_states_text(*st, dfa@, 0));
    while i < dfa.len()
        invariant
            i <= dfa@.len(),
            out@ == head + dfa_states_text(*st, dfa@, i as nat),
        decreases dfa@.len() - i,
    {
        push_state_text(&mut out, st, &dfa[i]);
        assert(head + dfa_states_text(*st, dfa@, i as nat) + dfa_state_text(*st, dfa@[i as int])
            =~= head + dfa_states_text(*st, dfa@, (i + 1) as nat));
        i += 1;
    }
    out
}

/// An edge for each of the first `n` ranges of an arm.
pub open spec fn arm_edges(from: u32, a: ByteArm, n: nat) -> Seq<char>
    decreases n,
{
    if n == 0 || n > a.ranges@.len() {
        Seq::empty()
    } else {
        arm_edges(from, a, (n - 1) as nat) + "  s"@ + text::decimal(from as nat) + " -> s"@
            + text::decimal(a.target as nat) + " [label=\""@ + railroad::dot_text(
            range_text(a.ranges@[n - 1]),
        ) + "\"];\n"@
    }
}

/// The edges of the first `n` arms.
pub open spec fn arms_edges(from: u32, arms: Seq<ByteArm>, n: nat) -> Seq<char>
    decreases n,
{
    if n == 0 || n > arms.len() {
        Seq::empty()
    } else {
        arms_edges(from, arms, (n - 1) as nat) + arm_edges(
            from,
            arms[n - 1],
            arms[n - 1].ranges@.len(),
        )
    }
}

/// The node of a state with its edges.
pub open spec fn dfa_node_text(st: StateTable, s: DfaState) -> Seq<char> {
    let (shape, label) = match s.accept {
        Some(k) => (
            "doublecircle"@,
            text::decimal(s.id as nat) + "\\n"@ + railroad::dot_text(kind_text(st, k)),
        ),
        None => ("circle"@, text::decimal(s.id as nat)),
    };
    "  s"@ + text::decimal(s.id as nat) + " [shape="@ + shape + ", label=\""@ + label + "\"];\n"@
        + arms_edges(s.id, s.arms@, s.arms@.len())
}

/// The nodes of the first `n` states.
pub open spec fn dfa_nodes_text(st: StateTable, dfa: Seq<DfaState>, n: nat) -> Seq<char>
    decreases n,
{
    if n == 0 || n > dfa.len() {
        Seq::empty()
    } else {
        dfa_nodes_text(st, dfa, (n - 1) as nat) + dfa_node_text(st, dfa[n - 1])
    }
}

/// What stands before the nodes.
pub open spec fn dfa_head() -> Seq<char> {
    "digraph lexer_dfa {\n  rankdir=LR;\n  node [fontname=\"Menlo,Monaco,Consolas,monospace\"];\n  edge [fontname=\"Menlo,Monaco,Consolas,monospace\"];\n  _start [shape=point, width=0.12];\n  _start -> s"@
        + text::decimal(START as nat) + ";\n"@
}

fn push_arm_edges(out: &mut String, from: u32, a: &ByteArm)
    ensures
        final(out)@ == old(out)@ + arm_edges(from, *a, a.ranges@.len()),
{
    let ghost before = out@;
    let mut i: usize = 0;
    assert(out@ =~= before + arm_edges(from, *a, 0));
    while i < a.ranges.len()
        invariant
            i <= a.ranges@.len(),
            out@ == before + arm_edges(from, *a, i as nat),
        decreases a.ranges@.len() - i,
    {
        let (lo, hi) = a.ranges[i];
        let range = byte_range_label(lo, hi);
        let label = railroad::dot_escape(range.as_str());
        out.append("  s");
        text::push_decimal(out, from as u128);
        out.append(" -> s");
        text::push_decimal(out, a.target as u128);
        out.append(" [label=\"");
        out.append(label.as_str());
        out.append("\"];\n");
        assert(out@ =~= before + arm_edges(from, *a, (i + 1) as nat));
        i += 1;
    }
}

fn push_node_text(out: &mut String, st: &StateTable, s: &DfaState)
    ensures
        final(out)@ == old(out)@ + dfa_node_text(*st, *s),
{
    let ghost before = out@;
    let mut t = "  s".to_owned();
    text::push_decimal(&mut t, s.id as u128);
    t.append(" [shape=");
    match s.accept {
        Some(k) => {
            let name = token_name_for_kind(st, k);
            let mut label = text::decimal_text(s.id as u128);
            label.append("\\n");
            label.append(railroad::dot_escape(name.as_str()).as_str());
            t.append("doublecircle");
            t.append(", label=\"");
            t.append(label.as_str());
        },
        None => {
            let label = text::decimal_text(s.id as u128);
            t.append("circle");
            t.append(", label=\"");
            t.append(label.as_str());
        },
    }
    t.append("\"];\n");
    let ghost head = t@;
    let mut i: usize = 0;
    assert(t@ =~= head + arms_edges(s.id, s.arms@, 0));
    while i < s.arms.len()
        invariant
            i <= s.arms@.len(),
            t@ == head + arms_edges(s.id, s.arms@, i as nat),
        decreases s.arms@.len() - i,
    {
        push_arm_edges(&mut t, s.id, &s.arms[i]);
        assert(t@ =~= head + arms_edges(s.id, s.arms@, (i + 1) as nat));
        i += 1;
    }
    assert(t@ == dfa_node_text(*st, *s));
    out.append(t.as_str());
}

/// The lexer automaton of the default mode as a digraph.
pub fn dfa_dot(st: &StateTable) -> (r: String)
    requires
        st.modes@.len() > 0,
    ensures
        r@ == dfa_head() + dfa_nodes_text(*st, st.modes@[0].dfa@, st.modes@[0].dfa@.len())
            + "}\n"@,
{
    let dfa = st.lexer_dfa();
    let mut out = "digraph lexer_dfa {\n  rankdir=LR;\n  node [fontname=\"Menlo,Monaco,Consolas,monospace\"];\n  edge [fontname=\"Menlo,Monaco,Consolas,monospace\"];\n  _start [shape=point, width=0.12];\n  _start -> s".to_owned();
    text::push_decimal(&mut out, START as u128);
    out.append(";\n");
    let mut i: usize = 0;
    assert(out@ =~= dfa_head() + dfa_nodes_text(*st, dfa@, 0));
    while i < dfa.len()
        invariant
            i <= dfa@.len(),
            out@ == dfa_head() + dfa_nodes_text(*st, dfa@, i as nat),
        decreases dfa@.len() - i,
    {
        push_node_text(&mut out, st, &dfa[i]);
        assert(dfa_head() + dfa_nodes_text(*st, dfa@, i as nat) + dfa_node_text(
            *st,
            dfa@[i as int],
        ) =~= dfa_head() + dfa_nodes_text(*st, dfa@, (i + 1) as nat));
        i += 1;
    }
    out.append("}\n");
    out
}

} // verus!
