use temporal_pattern::{
    AbsencePattern, Combination, CombinationOp, ExistencePattern, Pattern, PrecedencePattern,
    ResponsePattern, Scope, Trace,
};

#[test]
fn and_all_satisfy() {
    let c = Combination::new(
        CombinationOp::And,
        vec![
            Pattern::Existence(ExistencePattern::new("a")),
            Pattern::Absence(AbsencePattern::new("b")),
        ],
    );
    let trace: Trace = vec![vec!["a".into(), "c".into()]];
    assert!(c.check(&trace));
}

#[test]
fn and_one_fails() {
    let c = Combination::new(
        CombinationOp::And,
        vec![
            Pattern::Existence(ExistencePattern::new("a")),
            Pattern::Absence(AbsencePattern::new("b")),
        ],
    );
    let trace: Trace = vec![vec!["a".into(), "b".into()]];
    assert!(!c.check(&trace));
}

#[test]
fn or_one_satisfies() {
    let c = Combination::new(
        CombinationOp::Or,
        vec![
            Pattern::Existence(ExistencePattern::new("missing")),
            Pattern::Absence(AbsencePattern::new("ok")),
        ],
    );
    let trace: Trace = vec![vec!["ok".into()]];
    // existence of "missing" fails, but absence of "ok" also fails (ok is present)
    assert!(!c.check(&trace));
}

#[test]
fn or_any_satisfies() {
    let c = Combination::new(
        CombinationOp::Or,
        vec![
            Pattern::Existence(ExistencePattern::new("a")),
            Pattern::Absence(AbsencePattern::new("b")),
        ],
    );
    let trace: Trace = vec![vec!["a".into()]];
    assert!(c.check(&trace));
}

#[test]
fn conflict_detected() {
    let c = Combination::new(
        CombinationOp::And,
        vec![
            Pattern::Existence(ExistencePattern::new("x")),
            Pattern::Absence(AbsencePattern::new("x")),
        ],
    );
    let conflicts = c.detect_conflicts();
    assert_eq!(conflicts.len(), 1);
    assert!(conflicts[0].contains("x"));
}

#[test]
fn no_conflict_different_props() {
    let c = Combination::new(
        CombinationOp::And,
        vec![
            Pattern::Existence(ExistencePattern::new("a")),
            Pattern::Absence(AbsencePattern::new("b")),
        ],
    );
    assert!(c.detect_conflicts().is_empty());
}

#[test]
fn no_conflict_absence_after() {
    let c = Combination::new(
        CombinationOp::And,
        vec![
            Pattern::Existence(ExistencePattern::new("x")),
            Pattern::Absence(AbsencePattern::after("x", "shutdown")),
        ],
    );
    // absence-after is not unconditional, so no conflict
    assert!(c.detect_conflicts().is_empty());
}

fn fraction(cov: usize, total: usize) -> f64 {
    if total == 0 {
        1.0
    } else {
        cov as f64 / total as f64
    }
}

#[test]
fn coverage_full() {
    let c = Combination::new(
        CombinationOp::And,
        vec![Pattern::Existence(ExistencePattern::new("x"))],
    );
    let trace: Trace = vec![vec!["a".into()], vec!["b".into()]];
    let (cov, total) = c.coverage(&trace);
    let frac = fraction(cov, total);
    assert_eq!((cov, total), (2, 2));
    assert!((frac - 1.0).abs() < 1e-9);
}

#[test]
fn coverage_partial() {
    let c = Combination::new(
        CombinationOp::And,
        vec![Pattern::Response(
            ResponsePattern::new("a", "b").with_scope(Scope::After("start".into())),
        )],
    );
    let trace: Trace = vec![vec!["idle".into()], vec!["start".into()], vec!["a".into()]];
    let (cov, total) = c.coverage(&trace);
    let frac = fraction(cov, total);
    assert_eq!((cov, total), (2, 3));
    assert!((frac - 2.0 / 3.0).abs() < 1e-9);
}

#[test]
fn coverage_empty_trace() {
    let c = Combination::new(CombinationOp::And, vec![]);
    let (cov, total) = c.coverage(&Trace::new());
    let frac = fraction(cov, total);
    assert_eq!((cov, total), (0, 0));
    assert!((frac - 1.0).abs() < 1e-9);
}

#[test]
fn conflict_message_text() {
    let c = Combination::new(
        CombinationOp::And,
        vec![
            Pattern::Existence(ExistencePattern::new("x")),
            Pattern::Absence(AbsencePattern::new("x")),
        ],
    );
    assert_eq!(
        c.detect_conflicts(),
        vec!["Conflict: existence of \"x\" vs absence of \"x\" in same scope".to_string()]
    );
}

#[test]
fn conflicts_follow_pattern_order() {
    let c = Combination::new(
        CombinationOp::Or,
        vec![
            Pattern::Absence(AbsencePattern::new("b")),
            Pattern::Existence(ExistencePattern::new("a")),
            Pattern::Absence(AbsencePattern::new("a")),
            Pattern::Existence(ExistencePattern::within("b", 3)),
            Pattern::Absence(AbsencePattern::new("a").with_scope(Scope::After("s".into()))),
            Pattern::Existence(ExistencePattern::new("a")),
        ],
    );
    let conflicts = c.detect_conflicts();
    assert_eq!(conflicts.len(), 3);
    assert!(conflicts[0].contains("\"a\""));
    assert!(conflicts[1].contains("\"b\""));
    assert!(conflicts[2].contains("\"a\""));
}

#[test]
fn conflicting_and_combination_never_holds() {
    let c = Combination::new(
        CombinationOp::And,
        vec![
            Pattern::Existence(ExistencePattern::new("x")),
            Pattern::Absence(AbsencePattern::new("x")),
        ],
    );
    assert!(!c.detect_conflicts().is_empty());
    let traces: Vec<Trace> = vec![
        Trace::new(),
        vec![vec!["x".into()]],
        vec![vec!["y".into()]],
        vec![vec!["y".into()], vec!["x".into()]],
    ];
    for t in &traces {
        assert!(!c.check(t));
    }
}

#[test]
fn empty_combinations() {
    let and = Combination::new(CombinationOp::And, vec![]);
    let or = Combination::new(CombinationOp::Or, vec![]);
    let trace: Trace = vec![vec!["a".into()]];
    assert!(and.check(&trace));
    assert!(!or.check(&trace));
    assert!(and.detect_conflicts().is_empty());
}

#[test]
fn pattern_check_dispatches() {
    let trace: Trace = vec![vec!["grant".into()], vec!["use".into()]];
    assert!(Pattern::Precedence(PrecedencePattern::new("grant", "use")).check(&trace));
    assert!(!Pattern::Response(ResponsePattern::new("grant", "done")).check(&trace));
    assert!(Pattern::Existence(ExistencePattern::new("use")).check(&trace));
    assert!(!Pattern::Absence(AbsencePattern::new("use")).check(&trace));
}

#[test]
fn coverage_unions_scopes() {
    let c = Combination::new(
        CombinationOp::And,
        vec![
            Pattern::Absence(AbsencePattern::new("e").with_scope(Scope::Before("m".into()))),
            Pattern::Precedence(
                PrecedencePattern::new("a", "b").with_scope(Scope::After("n".into())),
            ),
            Pattern::Existence(ExistencePattern::new("x").with_scope(Scope::After("never".into()))),
        ],
    );
    let trace: Trace = vec![
        vec!["a".into()],
        vec!["m".into()],
        vec!["c".into()],
        vec!["n".into()],
        vec!["d".into()],
    ];
    assert_eq!(c.coverage(&trace), (3, 5));
}
