use temporal_pattern::{ExistencePattern, Scope, Trace};

#[test]
fn unbounded_exists() {
    let p = ExistencePattern::new("ready");
    let trace: Trace = vec![vec!["idle".into()], vec!["ready".into()]];
    assert!(p.check(&trace));
}

#[test]
fn unbounded_missing() {
    let p = ExistencePattern::new("ready");
    let trace: Trace = vec![vec!["idle".into()], vec!["idle".into()]];
    assert!(!p.check(&trace));
}

#[test]
fn bounded_within_limit() {
    let p = ExistencePattern::within("ready", 3);
    let trace: Trace = vec![
        vec!["idle".into()],
        vec!["idle".into()],
        vec!["ready".into()],
    ];
    assert!(p.check(&trace));
}

#[test]
fn bounded_outside_limit() {
    let p = ExistencePattern::within("ready", 2);
    let trace: Trace = vec![
        vec!["idle".into()],
        vec!["idle".into()],
        vec!["ready".into()],
    ];
    assert!(!p.check(&trace));
}

#[test]
fn bounded_at_exact_boundary() {
    let p = ExistencePattern::within("ready", 1);
    let trace: Trace = vec![vec!["ready".into()]];
    assert!(p.check(&trace));
}

#[test]
fn empty_trace_fails() {
    let p = ExistencePattern::new("x");
    assert!(!p.check(&Trace::new()));
}

#[test]
fn scoped_existence() {
    let p = ExistencePattern::new("go").with_scope(Scope::Between("open".into(), "close".into()));
    let trace: Trace = vec![vec!["open".into()], vec!["go".into()], vec!["close".into()]];
    assert!(p.check(&trace));
}

#[test]
fn bounded_zero_never_holds() {
    let p = ExistencePattern::within("ready", 0);
    let trace: Trace = vec![vec!["ready".into()]];
    assert!(!p.check(&trace));
}

#[test]
fn bound_counts_from_scope_start() {
    let p = ExistencePattern::within("ready", 2).with_scope(Scope::After("start".into()));
    let trace: Trace = vec![
        vec!["idle".into()],
        vec!["idle".into()],
        vec!["start".into()],
        vec!["ready".into()],
    ];
    assert!(p.check(&trace));
    let late = ExistencePattern::within("ready", 1).with_scope(Scope::After("start".into()));
    assert!(!late.check(&trace));
}

#[test]
fn bound_larger_than_region() {
    let p = ExistencePattern::within("ready", usize::MAX);
    let trace: Trace = vec![vec!["idle".into()], vec!["ready".into()]];
    assert!(p.check(&trace));
}

#[test]
fn existence_unestablished_scope_fails() {
    let p = ExistencePattern::new("ready").with_scope(Scope::Before("stop".into()));
    let trace: Trace = vec![vec!["ready".into()]];
    assert!(!p.check(&trace));
}

#[test]
fn existence_constructors_fill_fields() {
    let p = ExistencePattern::within("x", 5);
    assert_eq!(p.proposition, "x");
    assert_eq!(p.bound, Some(5));
    assert!(p.scope == Scope::Global);
    let q = ExistencePattern::new("y").with_scope(Scope::After("a".into()));
    assert_eq!(q.bound, None);
    assert!(q.scope == Scope::After("a".into()));
}
