//! A state as a single line.
use vstd::prelude::*;

use crate::lowering::dispatch;
use crate::lowering::table::{
    self, Body, BodyView, DispatchTree, Instr, InstrView, State, StateView, Tail, TailView,
    TreeView,
};
use crate::names;
use crate::text;

verus! {

/// An instruction in short.
pub open spec fn instr_text(i: InstrView) -> Seq<char> {
    match i {
        InstrView::Enter(k) => "Enter("@ + text::decimal(k as nat) + ")"@,
        InstrView::Exit(k) => "Exit("@ + text::decimal(k as nat) + ")"@,
        InstrView::Expect(k, name, _, _) => "Expect("@ + text::decimal(k as nat) + " /*"@ + name
            + "*/)"@,
        InstrView::PushRet(s) => "PushRet("@ + text::decimal(s as nat) + ")"@,
    }
}

/// A body in short: the state that it goes to, if that is all it does.
pub open spec fn body_text(b: BodyView) -> Seq<char> {
    if b.instrs.len() == 0 {
        match b.tail {
            TailView::Jump(s) => text::decimal(s as nat),
            _ => "<inlined>"@,
        }
    } else {
        "<inlined>"@
    }
}

/// A count, with the largest one for all above it.
pub open spec fn count(n: nat) -> nat {
    if n <= usize::MAX {
        n
    } else {
        usize::MAX as nat
    }
}

/// The end of a body in short.
pub open spec fn tail_text(t: TailView) -> Seq<char> {
    match t {
        TailView::Jump(s) => "Jump("@ + text::decimal(s as nat) + ")"@,
        TailView::Ret => "Ret"@,
        TailView::Star(_, b, _, _) => "Star -> "@ + body_text(*b),
        TailView::Opt(_, b, _) => "Opt -> "@ + body_text(*b),
        TailView::Dispatch(tree, _, _, _) => "Dispatch["@ + shape_text(tree) + "]"@,
    }
}

/// How large a tree is.
pub open spec fn shape_text(t: TreeView) -> Seq<char> {
    let (leaves, depth) = dispatch::metrics(t);
    text::decimal(count(leaves)) + " leaves, depth "@ + text::decimal(count(depth))
}

/// A state in short: its label, then what its body does.
pub open spec fn state_text(s: StateView) -> Seq<char> {
    let steps = Seq::new(s.body.instrs.len(), |i: int| instr_text(s.body.instrs[i]));
    s.label + "  "@ + text::joined(steps.push(tail_text(s.body.tail)), " ; "@)
}

fn numbered(name: &str, n: u32) -> (r: String)
    ensures
        r@ == name@ + text::decimal(n as nat) + ")"@,
{
    let mut r = name.to_owned();
    text::push_decimal(&mut r, n as u128);
    r.append(")");
    r
}

fn format_instr(i: &Instr) -> (r: String)
    ensures
        r@ == instr_text(i@),
{
    match i {
        Instr::Enter(k) => numbered("Enter(", *k as u32),
        Instr::Exit(k) => numbered("Exit(", *k as u32),
        Instr::Expect { kind, token_name, sync: _, label: _ } => {
            let mut r = "Expect(".to_owned();
            text::push_decimal(&mut r, *kind as u128);
            r.append(" /*");
            r.append(token_name.as_str());
            r.append("*/)");
            r
        },
        Instr::PushRet(s) => numbered("PushRet(", *s),
    }
}

fn body_label(b: &Body) -> (r: String)
    ensures
        r@ == body_text(b@),
{
    if b.instrs.len() == 0 {
        if let Tail::Jump(s) = &b.tail {
            return text::decimal_text(*s as u128);
        }
    }
    "<inlined>".to_owned()
}

fn dispatch_tree_shape(t: &DispatchTree) -> (r: String)
    ensures
        r@ == shape_text(t@),
{
    let (leaves, depth) = dispatch::tree_metrics(t);
    let mut r = text::decimal_text(leaves as u128);
    r.append(" leaves, depth ");
    text::push_decimal(&mut r, depth as u128);
    r
}

fn format_tail(t: &Tail) -> (r: String)
    ensures
        r@ == tail_text(t@),
{
    match t {
        Tail::Jump(s) => numbered("Jump(", *s),
        Tail::Ret => "Ret".to_owned(),
        Tail::Star { first: _, body, cont: _, head: _ } => {
            let mut r = "Star -> ".to_owned();
            r.append(body_label(body).as_str());
            r
        },
        Tail::Opt { first: _, body, cont: _ } => {
            let mut r = "Opt -> ".to_owned();
            r.append(body_label(body).as_str());
            r
        },
        Tail::Dispatch { tree, sync: _, cont: _, insertions: _ } => {
            let shape = dispatch_tree_shape(tree);
            text::concat3("Dispatch[", shape.as_str(), "]")
        },
    }
}

impl State {
    /// The state as a single line: its label, then what its body does.
    pub fn comment(&self) -> (r: String)
        ensures
            r@ == state_text(self@),
    {
        let ghost l = table::instrs_view(self.body.instrs@);
        let ghost steps = Seq::new(l.len(), |i: int| instr_text(l[i]));
        let mut parts: Vec<String> = Vec::new();
        let mut i: usize = 0;
        while i < self.body.instrs.len()
            invariant
                i <= self.body.instrs@.len(),
                l == table::instrs_view(self.body.instrs@),
                steps == Seq::new(l.len(), |i: int| instr_text(l[i])),
                parts@.len() == i,
                forall|k: int| 0 <= k < i ==> (#[trigger] parts@[k])@ == steps[k],
            decreases self.body.instrs@.len() - i,
        {
            parts.push(format_instr(&self.body.instrs[i]));
            i += 1;
        }
        parts.push(format_tail(&self.body.tail));
        assert(names::list_view(parts@) =~= steps.push(tail_text(self@.body.tail)));
        let list = text::join(&parts, " ; ");
        let mut r = self.label.clone();
        r.append("  ");
        r.append(list.as_str());
        r
    }
}

} // verus!
