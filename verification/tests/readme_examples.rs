use temporal_pattern::{
    AbsencePattern, Combination, CombinationOp, ExistencePattern, Pattern, PrecedencePattern,
    ResponsePattern, Scope, Trace,
};

#[test]
fn quick_start_request_response() {
    let pattern = ResponsePattern::new("request", "response");
    let trace: Trace = vec![
        vec!["request".into()],
        vec!["processing".into()],
        vec!["response".into()],
    ];
    assert!(pattern.check(&trace));
}

#[test]
fn http_request_response() {
    let req_resp = ResponsePattern::new("http_request", "http_response");
    let good: Trace = vec![
        vec!["http_request".into(), "connected".into()],
        vec!["processing".into()],
        vec!["http_response".into()],
    ];
    assert!(req_resp.check(&good));
    let bad: Trace = vec![vec!["http_request".into()], vec!["timeout".into()]];
    assert!(!req_resp.check(&bad));
    let multi: Trace = vec![
        vec!["http_request".into()],
        vec!["http_response".into()],
        vec!["http_request".into()],
        vec!["http_response".into()],
    ];
    assert!(req_resp.check(&multi));
}

#[test]
fn resource_lifecycle() {
    let lifecycle = Combination::new(
        CombinationOp::And,
        vec![
            Pattern::Precedence(PrecedencePattern::new("acquire", "use")),
            Pattern::Absence(AbsencePattern::after("use", "release")),
            Pattern::Existence(ExistencePattern::new("acquire")),
        ],
    );
    let good: Trace = vec![
        vec!["acquire".into()],
        vec!["use".into()],
        vec!["use".into()],
        vec!["release".into()],
    ];
    assert!(lifecycle.check(&good));
    let bad: Trace = vec![vec!["use".into()], vec!["acquire".into()]];
    assert!(!lifecycle.check(&bad));
    assert!(lifecycle.detect_conflicts().is_empty());
    assert_eq!(lifecycle.coverage(&good), (4, 4));
}

#[test]
fn agent_safety_constraints() {
    let reach_goal = ResponsePattern::new("nav_start", "goal_reached")
        .with_scope(Scope::Between("mission_start".into(), "mission_end".into()));
    let no_collision = AbsencePattern::new("collision");
    let must_charge =
        ExistencePattern::within("charging", 10).with_scope(Scope::After("mission_start".into()));
    let trace: Trace = vec![
        vec!["mission_start".into()],
        vec!["nav_start".into()],
        vec!["moving".into()],
        vec!["goal_reached".into()],
        vec!["charging".into()],
        vec!["mission_end".into()],
    ];
    assert!(reach_goal.check(&trace));
    assert!(no_collision.check(&trace));
    assert!(must_charge.check(&trace));
}
