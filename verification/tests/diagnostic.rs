//! Diagnostics.
use parsuna::span::Pos;
use parsuna::{Diagnostic, Error, Severity, Span};

fn point(line: u32, col: u32) -> Span {
    Span::point(Pos::new(0, line, col))
}

fn range(l1: u32, c1: u32, l2: u32, c2: u32) -> Span {
    Span::new(Pos::new(0, l1, c1), Pos::new(0, l2, c2))
}

#[test]
fn error_constructor_sets_severity_and_default_span() {
    let d = Diagnostic::error("oops".to_string());
    assert_eq!(d.severity, Severity::Error);
    assert_eq!(d.message, "oops");
    assert_eq!(d.span, Span::default());
    assert!(d.is_error());
}

#[test]
fn warning_constructor_sets_severity() {
    let d = Diagnostic::warning("careful".to_string());
    assert_eq!(d.severity, Severity::Warning);
    assert!(!d.is_error());
}

#[test]
fn at_attaches_span() {
    let s = point(3, 7);
    let d = Diagnostic::error("x".to_string()).at(s);
    assert_eq!(d.span, s);
}

#[test]
fn from_runtime_error_is_error_severity() {
    let e = Error::new("boom".to_string()).at(point(2, 4));
    let d: Diagnostic = e.into();
    assert_eq!(d.severity, Severity::Error);
    assert_eq!(d.message, "boom");
    assert_eq!(d.span, point(2, 4));
}

#[test]
fn display_error_point_span() {
    let d = Diagnostic::error("nope".to_string()).at(point(5, 9));
    assert_eq!(d.render(), "error[5:9]: nope");
}

#[test]
fn display_warning_point_span() {
    let d = Diagnostic::warning("hmm".to_string()).at(point(1, 1));
    assert_eq!(d.render(), "warning[1:1]: hmm");
}

#[test]
fn display_range_span() {
    let d = Diagnostic::error("range".to_string()).at(range(1, 1, 1, 12));
    assert_eq!(d.render(), "error[1:1-1:12]: range");
}

#[test]
fn display_warning_range_span() {
    let d = Diagnostic::warning("multi".to_string()).at(range(2, 3, 4, 5));
    assert_eq!(d.render(), "warning[2:3-4:5]: multi");
}

#[test]
fn message_accepts_owned_string() {
    let d = Diagnostic::error(format!("rule `{}` is broken", "main"));
    assert_eq!(d.message, "rule `main` is broken");
}
