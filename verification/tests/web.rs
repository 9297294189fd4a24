//! The web dashboard's state and who may see it.
use emry::base::types::{AlertRecord, Event, FinishReason, MetricId, Phase, Severity};
use emry::base::value::Real;
use emry::web::project::{Baseline, Project};
use emry::web::security::{
    ct_eq, find_token, presented_token, Access, AuthState, Role, WebSecurity,
};
use emry::web::state::{checkpoint_label, WebState, DEFAULT_ALERTS, DEFAULT_HISTORY};

fn num(v: f64) -> Real {
    Real { bits: v.to_bits() }
}

fn flt(v: Real) -> f64 {
    f64::from_bits(v.bits)
}

#[test]
fn ct_eq_matches_only_identical_slices() {
    assert!(ct_eq(b"secret", b"secret"));
    assert!(!ct_eq(b"secret", b"secreto"));
    assert!(!ct_eq(b"secret", b"secreu"));
    assert!(ct_eq(b"", b""));
}

/// Admin token `s3cret`, viewer token `peek`, requiring at least `min_role`.
fn secured(min_role: Role) -> AuthState {
    WebSecurity {
        token: Some("s3cret".into()),
        viewer_token: Some("peek".into()),
        tls: None,
    }
    .apply(min_role)
    .unwrap()
}

fn access(auth: &AuthState, uri: &str, header: Option<&str>) -> Access {
    let (path, query) = match uri.split_once('?') {
        Some((path, query)) => (path, Some(query)),
        None => (uri, None),
    };
    auth.require_role(path, header, query)
}

#[test]
fn token_gate_allows_valid_and_rejects_missing_or_wrong() {
    let auth = secured(Role::Viewer);
    assert_eq!(access(&auth, "/", Some("Bearer s3cret")), Access::Granted);
    assert_eq!(access(&auth, "/", None), Access::Unauthorized);
    assert_eq!(
        access(&auth, "/", Some("Bearer nope")),
        Access::Unauthorized
    );
    assert_eq!(access(&auth, "/?token=s3cret", None), Access::Granted);
}

#[test]
fn healthz_is_open_without_a_token() {
    assert_eq!(
        access(&secured(Role::Viewer), "/healthz", None),
        Access::Granted
    );
}

#[test]
fn no_token_configured_leaves_router_open() {
    assert!(WebSecurity::default().apply(Role::Admin).is_none());
}

#[test]
fn rbac_gates_admin_routes_from_viewers() {
    let admin = secured(Role::Admin);
    assert_eq!(access(&admin, "/", Some("Bearer s3cret")), Access::Granted);
    assert_eq!(access(&admin, "/", Some("Bearer peek")), Access::Forbidden);
    assert_eq!(
        access(&admin, "/", Some("Bearer nope")),
        Access::Unauthorized
    );
    let viewer = secured(Role::Viewer);
    assert_eq!(access(&viewer, "/", Some("Bearer peek")), Access::Granted);
    assert_eq!(access(&viewer, "/", Some("Bearer s3cret")), Access::Granted);
    assert_eq!(access(&admin, "/healthz", None), Access::Granted);
}

#[test]
fn roles_follow_tokens() {
    let auth = secured(Role::Viewer);
    assert_eq!(auth.role_of("s3cret"), Some(Role::Admin));
    assert_eq!(auth.role_of("peek"), Some(Role::Viewer));
    assert_eq!(auth.role_of(""), None);
    assert_eq!(auth.decide("/", None), Access::Unauthorized);
}

#[test]
fn presented_token_reads_bearer_header_then_query() {
    assert_eq!(
        presented_token(Some("Bearer fromheader"), Some("token=fromquery")).as_deref(),
        Some("fromheader")
    );
    assert_eq!(
        presented_token(None, Some("foo=1&token=fromquery")).as_deref(),
        Some("fromquery")
    );
    assert_eq!(
        presented_token(None, Some("token=a%20b%2Bc")).as_deref(),
        Some("a b+c")
    );
    assert_eq!(presented_token(None, Some("xtoken=nope")), None);
    assert_eq!(presented_token(Some("Basic abc"), None), None);
}

#[test]
fn the_first_token_of_a_query_counts() {
    let pairs = vec![
        ("a".to_string(), "1".to_string()),
        ("token".to_string(), "x".to_string()),
        ("token".to_string(), "y".to_string()),
    ];
    assert_eq!(find_token(&pairs).as_deref(), Some("x"));
    assert_eq!(find_token(&Vec::new()), None);
}

fn batch(step: u64, values: &[(u16, f64)]) -> Event {
    Event::MetricsBatch {
        step,
        epoch: 0,
        phase: Phase::Train,
        values: values.iter().map(|(id, v)| (MetricId(*id), num(*v))).collect(),
    }
}

#[test]
fn records_steps_phase_spans_and_checkpoints() {
    let mut s = WebState::default();
    s.apply(&batch(0, &[(0, 1.0)]));
    s.apply(&batch(1, &[(0, 0.9)]));
    s.apply(&Event::PhaseChange(Phase::Eval));
    s.apply(&Event::Checkpoint {
        path: "/out/phase2-knowledge/adapters.pt".into(),
        step: 2,
    });
    assert_eq!(
        s.metrics[0].steps.iter().copied().collect::<Vec<_>>(),
        vec![0, 1]
    );
    assert_eq!(s.phases.len(), 1);
    assert_eq!(s.phases[0].step, 1);
    assert_eq!(s.phases[0].phase, "EVAL");
    assert_eq!(s.checkpoints.len(), 1);
    assert_eq!(s.checkpoints[0].step, 2);
    assert_eq!(s.checkpoints[0].label, "knowledge");
}

#[test]
fn stage_change_is_recorded_and_serialized() {
    let mut s = WebState::default();
    s.apply(&batch(0, &[(0, 1.0)]));
    s.apply(&Event::StageChange {
        name: "reasoning".into(),
        step: 0,
    });
    assert_eq!(s.stages.len(), 1);
    assert_eq!(s.stages[0].step, 0);
    assert_eq!(s.stages[0].label, "reasoning");
}

#[test]
fn checkpoint_label_matches_tui_reference() {
    assert_eq!(
        checkpoint_label("out/phase1-reasoning/adapters.safetensors"),
        "reasoning"
    );
    assert_eq!(checkpoint_label("runs/phase12_code/x.pt"), "code");
    assert_eq!(checkpoint_label("ckpts/warmup/x.pt"), "warmup");
    assert_eq!(checkpoint_label("step_200.pt"), "step_200");
}

#[test]
fn metrics_accumulate_with_labels() {
    let mut s = WebState::with_labels(&[(MetricId(0), "loss")]);
    s.apply(&batch(0, &[(0, 1.0)]));
    s.apply(&batch(1, &[(0, 0.5)]));
    assert_eq!(s.step, 1);
    assert_eq!(s.metrics[0].label, "loss");
    assert_eq!(flt(s.metrics[0].latest), 0.5);
    assert_eq!(
        s.metrics[0].history.iter().map(|v| flt(*v)).collect::<Vec<_>>(),
        vec![1.0, 0.5]
    );
}

#[test]
fn state_metrics_registered_seeds_and_relabels() {
    let mut s = WebState::default();
    s.apply(&batch(0, &[(0, 1.0)]));
    assert_eq!(s.metrics[0].label, "m0");
    s.apply(&Event::MetricsRegistered {
        names: vec![(MetricId(0), "loss".into())],
    });
    assert_eq!(s.metrics[0].label, "loss");
}

#[test]
fn unknown_metric_falls_back_to_m_id() {
    let mut s = WebState::default();
    s.apply(&batch(0, &[(7, 1.0)]));
    assert_eq!(s.metrics[0].label, "m7");
}

#[test]
fn phase_and_finish_and_alerts() {
    let mut s = WebState::default();
    s.apply(&Event::PhaseChange(Phase::Eval));
    assert_eq!(s.phase, "EVAL");
    s.apply(&Event::Alert(AlertRecord {
        severity: Severity::Critical,
        message: "Loss became NaN".into(),
        step: Some(12),
    }));
    assert_eq!(s.alerts[0].severity, "CRITICAL");
    assert_eq!(s.alerts[0].step, Some(12));
    s.apply(&Event::RunFinished {
        duration_secs: num(1.0),
        reason: FinishReason::Completed,
    });
    assert!(s.finished);
}

#[test]
fn alerts_are_capped() {
    let mut s = WebState::default();
    for i in 0..(DEFAULT_ALERTS + 5) {
        s.apply(&Event::Alert(AlertRecord {
            severity: Severity::Info,
            message: format!("a{i}"),
            step: None,
        }));
    }
    assert_eq!(s.alerts.len(), DEFAULT_ALERTS);
    assert_eq!(
        s.alerts.back().unwrap().message,
        format!("a{}", DEFAULT_ALERTS + 4)
    );
}

#[test]
fn histories_are_bounded() {
    let mut s = WebState::default();
    for step in 0..(DEFAULT_HISTORY as u64 + 3) {
        s.apply(&batch(step, &[(0, step as f64)]));
    }
    assert_eq!(s.metrics[0].history.len(), DEFAULT_HISTORY);
    assert_eq!(s.metrics[0].steps.len(), DEFAULT_HISTORY);
    assert_eq!(s.metrics[0].steps[0], 3);
}

#[test]
fn default_is_empty() {
    assert!(Baseline::default().metrics.is_empty());
    assert!(Project::default().runs.is_empty());
}
