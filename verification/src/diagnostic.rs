//! Compile-time diagnostics for grammars.
//!
//! [`Diagnostic`] is the single shape emitted by every compiler phase. It
//! carries a [`Severity`] so that warnings can be surfaced without failing the
//! build.
use vstd::prelude::*;

use crate::runtime::events::Error;
use crate::span::{self, Span};
use crate::text;

verus! {

/// How serious a [`Diagnostic`] is.
#[derive(Clone, Copy, Debug, PartialEq, Eq, Structural)]
pub enum Severity {
    /// Stops compilation.
    Error,
    /// Surfaces an issue but the grammar still compiles.
    Warning,
}

/// A single compile-time diagnostic: severity, message, source span.
#[derive(Debug)]
pub struct Diagnostic {
    /// Severity of this diagnostic.
    pub severity: Severity,
    /// Human-readable description.
    pub message: String,
    /// Source span the diagnostic attaches to.
    pub span: Span,
}

/// What a [`Diagnostic`] says.
pub ghost struct DiagnosticView {
    pub severity: Severity,
    pub message: Seq<char>,
    pub span: Span,
}

/// An error without a place.
pub open spec fn error_view(message: Seq<char>) -> DiagnosticView {
    DiagnosticView { severity: Severity::Error, message, span: span::default_span() }
}

/// An error at a place.
pub open spec fn error_at(message: Seq<char>, span: Span) -> DiagnosticView {
    DiagnosticView { severity: Severity::Error, message, span }
}

/// A warning at a place.
pub open spec fn warning_at(message: Seq<char>, span: Span) -> DiagnosticView {
    DiagnosticView { severity: Severity::Warning, message, span }
}

/// What the diagnostics say.
pub open spec fn diags_view(diags: Seq<Diagnostic>) -> Seq<DiagnosticView> {
    Seq::new(diags.len(), |i: int| diags[i]@)
}

/// Some diagnostic stops compilation.
pub open spec fn any_error(diags: Seq<DiagnosticView>) -> bool {
    exists|i: int| 0 <= i < diags.len() && (#[trigger] diags[i]).severity == Severity::Error
}

/// The text of a diagnostic, with its place in lines and columns.
pub open spec fn rendered(d: DiagnosticView) -> Seq<char> {
    let label = match d.severity {
        Severity::Error => "error"@,
        Severity::Warning => "warning"@,
    };
    let (s, e) = (d.span.start, d.span.end);
    let from = text::decimal(s.line as nat) + ":"@ + text::decimal(s.column as nat);
    let to = text::decimal(e.line as nat) + ":"@ + text::decimal(e.column as nat);
    let place = if s == e {
        from
    } else {
        from + "-"@ + to
    };
    label + "["@ + place + "]: "@ + d.message
}

impl Diagnostic {
    /// What the diagnostic says.
    pub open spec fn view(self) -> DiagnosticView {
        DiagnosticView { severity: self.severity, message: self.message@, span: self.span }
    }

    /// Build an error-severity diagnostic with no span. Call [`Diagnostic::at`]
    /// to attach a location.
    pub fn error(msg: String) -> (r: Self)
        ensures
            r@ == error_view(msg@),
    {
        Diagnostic { severity: Severity::Error, message: msg, span: Span::default() }
    }

    /// Build a warning-severity diagnostic with no span.
    pub fn warning(msg: String) -> (r: Self)
        ensures
            r@ == warning_at(msg@, span::default_span()),
    {
        Diagnostic { severity: Severity::Warning, message: msg, span: Span::default() }
    }

    /// Builder: attach a span.
    pub fn at(self, span: Span) -> (r: Self)
        ensures
            r@ == (DiagnosticView { span: span, ..self@ }),
    {
        Diagnostic { severity: self.severity, message: self.message, span }
    }

    /// True iff this diagnostic should stop compilation.
    pub fn is_error(&self) -> (r: bool)
        ensures
            r == (self.severity == Severity::Error),
    {
        self.severity == Severity::Error
    }

    /// The diagnostic as one line of text: severity, place and message.
    pub fn render(&self) -> (r: String)
        ensures
            r@ == rendered(self@),
    {
        let mut r = String::new();
        match self.severity {
            Severity::Error => r.append("error"),
            Severity::Warning => r.append("warning"),
        }
        r.append("[");
        let (s, e) = (self.span.start, self.span.end);
        text::push_decimal(&mut r, s.line as u128);
        r.append(":");
        text::push_decimal(&mut r, s.column as u128);
        if s != e {
            r.append("-");
            text::push_decimal(&mut r, e.line as u128);
            r.append(":");
            text::push_decimal(&mut r, e.column as u128);
        }
        r.append("]: ");
        r.append(self.message.as_str());
        assert(r@ =~= rendered(self@));
        r
    }
}

impl Clone for Diagnostic {
    fn clone(&self) -> (r: Self)
        ensures
            r@ == self@,
    {
        Diagnostic { severity: self.severity, message: self.message.clone(), span: self.span }
    }
}

impl From<Error> for Diagnostic {
    fn from(e: Error) -> (r: Self) {
        Diagnostic { severity: Severity::Error, message: e.message, span: e.span }
    }
}

impl vstd::std_specs::convert::FromSpecImpl<Error> for Diagnostic {
    open spec fn obeys_from_spec() -> bool {
        true
    }

    open spec fn from_spec(e: Error) -> Self {
        Diagnostic { severity: Severity::Error, message: e.message, span: e.span }
    }
}

/// True iff some diagnostic stops compilation.
pub fn has_errors(diags: &Vec<Diagnostic>) -> (r: bool)
    ensures
        r == any_error(diags_view(diags@)),
{
    let mut i: usize = 0;
    while i < diags.len()
        invariant
            i <= diags@.len(),
            forall|j: int|
                0 <= j < i ==> (#[trigger] diags_view(diags@)[j]).severity != Severity::Error,
        decreases diags@.len() - i,
    {
        if diags[i].is_error() {
            assert(diags_view(diags@)[i as int].severity == Severity::Error);
            return true;
        }
        i += 1;
    }
    false
}

/// The diagnostics as one more is reported.
pub proof fn lemma_diags_push(diags: Seq<Diagnostic>, d: Diagnostic)
    ensures
        diags_view(diags.push(d)) == diags_view(diags).push(d@),
{
    assert(diags_view(diags.push(d)) =~= diags_view(diags).push(d@));
}

/// Reports one more diagnostic.
pub(crate) fn report(diags: &mut Vec<Diagnostic>, d: Diagnostic)
    ensures
        diags_view(final(diags)@) == diags_view(old(diags)@).push(d@),
{
    proof {
        lemma_diags_push(diags@, d);
    }
    diags.push(d);
}

} // verus!
