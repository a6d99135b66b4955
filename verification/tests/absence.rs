use temporal_pattern::{AbsencePattern, Scope, Trace};

#[test]
fn absent_prop_satisfies() {
    let p = AbsencePattern::new("error");
    let trace: Trace = vec![vec!["ok".into()], vec!["ok".into()]];
    assert!(p.check(&trace));
}

#[test]
fn present_prop_violates() {
    let p = AbsencePattern::new("error");
    let trace: Trace = vec![vec!["ok".into()], vec!["error".into()]];
    assert!(!p.check(&trace));
}

#[test]
fn absent_after_trigger_ok() {
    let p = AbsencePattern::after("error", "shutdown");
    let trace: Trace = vec![
        vec!["error".into()], // before trigger — allowed
        vec!["shutdown".into()],
        vec!["ok".into()],
    ];
    assert!(p.check(&trace));
}

#[test]
fn absent_after_trigger_violated() {
    let p = AbsencePattern::after("error", "shutdown");
    let trace: Trace = vec![vec!["shutdown".into()], vec!["error".into()]];
    assert!(!p.check(&trace));
}

#[test]
fn trigger_never_appears_vacuously_true() {
    let p = AbsencePattern::after("error", "shutdown");
    let trace: Trace = vec![vec!["error".into()]];
    assert!(p.check(&trace));
}

#[test]
fn absence_empty_trace_satisfies() {
    let p = AbsencePattern::new("x");
    assert!(p.check(&Trace::new()));
}

#[test]
fn scoped_absence() {
    let p = AbsencePattern::new("error").with_scope(Scope::Between("open".into(), "close".into()));
    let trace: Trace = vec![
        vec!["open".into()],
        vec!["ok".into()],
        vec!["close".into()],
        vec!["error".into()], // outside scope — allowed
    ];
    assert!(p.check(&trace));
}

#[test]
fn absence_after_same_step_as_trigger_allowed() {
    // Only positions strictly after the trigger are checked.
    let p = AbsencePattern::after("error", "shutdown");
    let trace: Trace = vec![vec!["shutdown".into(), "error".into()], vec!["ok".into()]];
    assert!(p.check(&trace));
}

#[test]
fn absence_after_trigger_outside_scope_is_vacuous() {
    let p = AbsencePattern::after("error", "shutdown").with_scope(Scope::Before("end".into()));
    let trace: Trace = vec![
        vec!["error".into()],
        vec!["end".into()],
        vec!["shutdown".into()],
        vec!["error".into()],
    ];
    assert!(p.check(&trace));
}

#[test]
fn absence_unestablished_scope_is_vacuous() {
    let p = AbsencePattern::new("error").with_scope(Scope::After("start".into()));
    let trace: Trace = vec![vec!["error".into()]];
    assert!(p.check(&trace));
}

#[test]
fn absence_constructors_fill_fields() {
    let p = AbsencePattern::after("x", "y");
    assert_eq!(p.proposition, "x");
    assert_eq!(p.after, Some("y".to_string()));
    assert!(p.scope == Scope::Global);
    let q = AbsencePattern::new("x").with_scope(Scope::Before("b".into()));
    assert_eq!(q.proposition, "x");
    assert_eq!(q.after, None);
    assert!(q.scope == Scope::Before("b".into()));
}
