use temporal_pattern::{Scope, Trace};

fn make_trace() -> Trace {
    vec![
        vec!["init".into()],
        vec!["ready".into()],
        vec!["go".into()],
        vec!["done".into()],
        vec!["reset".into()],
    ]
}

#[test]
fn global_covers_all() {
    let scope = Scope::Global;
    assert_eq!(scope.scope_range(&make_trace()), Some((0, 5)));
}

#[test]
fn after_finds_boundary() {
    let scope = Scope::After("go".into());
    assert_eq!(scope.scope_range(&make_trace()), Some((2, 5)));
}

#[test]
fn before_finds_boundary() {
    let scope = Scope::Before("done".into());
    assert_eq!(scope.scope_range(&make_trace()), Some((0, 3)));
}

#[test]
fn between_finds_region() {
    let scope = Scope::Between("ready".into(), "done".into());
    assert_eq!(scope.scope_range(&make_trace()), Some((1, 3)));
}

#[test]
fn after_missing_returns_none() {
    let scope = Scope::After("missing".into());
    assert_eq!(scope.scope_range(&make_trace()), None);
}

#[test]
fn before_missing_returns_none() {
    let scope = Scope::Before("missing".into());
    assert_eq!(scope.scope_range(&make_trace()), None);
}

#[test]
fn between_missing_r_returns_none() {
    let scope = Scope::Between("missing".into(), "done".into());
    assert_eq!(scope.scope_range(&make_trace()), None);
}

#[test]
fn between_missing_s_returns_none() {
    let scope = Scope::Between("ready".into(), "missing".into());
    assert_eq!(scope.scope_range(&make_trace()), None);
}

#[test]
fn empty_trace_scopes() {
    let empty = Trace::new();
    assert_eq!(Scope::Global.scope_range(&empty), Some((0, 0)));
    assert_eq!(Scope::After("a".into()).scope_range(&empty), None);
    assert_eq!(Scope::Before("a".into()).scope_range(&empty), None);
    assert_eq!(Scope::Between("a".into(), "b".into()).scope_range(&empty), None);
}

#[test]
fn after_and_before_use_first_occurrence() {
    let trace: Trace = vec![
        vec!["x".into()],
        vec!["r".into()],
        vec!["s".into()],
        vec!["r".into(), "s".into()],
    ];
    assert_eq!(Scope::After("r".into()).scope_range(&trace), Some((1, 4)));
    assert_eq!(Scope::Before("s".into()).scope_range(&trace), Some((0, 2)));
    assert_eq!(Scope::Before("x".into()).scope_range(&trace), Some((0, 0)));
}

#[test]
fn between_end_is_strictly_after_start() {
    // R and S in the same step: the region runs to the next S after it.
    let trace: Trace = vec![
        vec!["r".into(), "s".into()],
        vec!["a".into()],
        vec!["s".into()],
    ];
    assert_eq!(Scope::Between("r".into(), "s".into()).scope_range(&trace), Some((0, 2)));
    let only_same_step: Trace = vec![vec!["r".into(), "s".into()], vec!["a".into()]];
    assert_eq!(Scope::Between("r".into(), "s".into()).scope_range(&only_same_step), None);
}

#[test]
fn between_ignores_end_marker_before_start() {
    let trace: Trace = vec![
        vec!["s".into()],
        vec!["r".into()],
        vec!["a".into()],
        vec!["s".into()],
    ];
    assert_eq!(Scope::Between("r".into(), "s".into()).scope_range(&trace), Some((1, 3)));
}

#[test]
fn scope_equality_compares_contents() {
    assert!(Scope::After("a".into()) == Scope::After("a".into()));
    assert!(Scope::After("a".into()) != Scope::After("b".into()));
    assert!(Scope::After("a".into()) != Scope::Before("a".into()));
    assert!(Scope::Between("a".into(), "b".into()) == Scope::Between("a".into(), "b".into()));
    assert!(Scope::Between("a".into(), "b".into()) != Scope::Between("a".into(), "c".into()));
    assert!(Scope::Global == Scope::Global);
}
