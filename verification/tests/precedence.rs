use temporal_pattern::{PrecedencePattern, Scope, Trace};

#[test]
fn satisfied_when_preceded() {
    let p = PrecedencePattern::new("grant", "use");
    let trace: Trace = vec![vec!["grant".into()], vec!["use".into()]];
    assert!(p.check(&trace));
}

#[test]
fn violated_when_not_preceded() {
    let p = PrecedencePattern::new("grant", "use");
    let trace: Trace = vec![vec!["use".into()], vec!["grant".into()]];
    assert!(!p.check(&trace));
}

#[test]
fn no_follower_vacuously_true() {
    let p = PrecedencePattern::new("grant", "use");
    let trace: Trace = vec![vec!["idle".into()]];
    assert!(p.check(&trace));
}

#[test]
fn multiple_followers_all_need_predecessor() {
    let p = PrecedencePattern::new("grant", "use");
    let trace: Trace = vec![vec!["grant".into()], vec!["use".into()], vec!["use".into()]];
    assert!(p.check(&trace));
}

#[test]
fn scoped_precedence() {
    let p = PrecedencePattern::new("grant", "use").with_scope(Scope::After("open".into()));
    let trace: Trace = vec![
        vec!["use".into()], // before scope — ignored
        vec!["open".into()],
        vec!["grant".into()],
        vec!["use".into()],
    ];
    assert!(p.check(&trace));
}

#[test]
fn empty_trace() {
    let p = PrecedencePattern::new("a", "b");
    assert!(p.check(&Trace::new()));
}

#[test]
fn predecessor_in_same_step_is_not_earlier() {
    let p = PrecedencePattern::new("grant", "use");
    let trace: Trace = vec![vec!["grant".into(), "use".into()]];
    assert!(!p.check(&trace));
}

#[test]
fn predecessor_outside_scope_does_not_count() {
    let p = PrecedencePattern::new("grant", "use").with_scope(Scope::After("open".into()));
    let trace: Trace = vec![vec!["grant".into()], vec!["open".into()], vec!["use".into()]];
    assert!(!p.check(&trace));
}

#[test]
fn precedence_constructors_fill_fields() {
    let p = PrecedencePattern::new("a", "b").with_scope(Scope::Before("z".into()));
    assert_eq!(p.predecessor, "a");
    assert_eq!(p.follower, "b");
    assert!(p.scope == Scope::Before("z".into()));
}
