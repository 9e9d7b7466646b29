use axum_proxy::backend::health::{checks_enabled, probe_succeeded, probe_url, record_probe, ProbeOutcome};
use axum_proxy::backend::BackendManager;
use axum_proxy::config::{BackendConfig, HealthCheckConfig};

const NOW: i64 = 1_700_000_000_000;

fn api_manager() -> BackendManager {
    BackendManager::new(vec![BackendConfig {
        name: "api".to_string(),
        url: "http://api".to_string(),
        weight: 1,
        max_retries: 3,
    }])
}

/// One round of probing: the snapshot's health, then the probe result.
fn round(m: &mut BackendManager, ok: bool, healthy_threshold: u32, unhealthy_threshold: u32) -> ProbeOutcome {
    let was_healthy = m.get_backend("api").unwrap().healthy;
    record_probe(m, "api", was_healthy, ok, healthy_threshold, unhealthy_threshold, NOW)
}

#[test]
fn three_failures_mark_a_backend_down() {
    let mut m = api_manager();
    assert_eq!(round(&mut m, false, 2, 3), ProbeOutcome::Unchanged);
    assert_eq!(round(&mut m, false, 2, 3), ProbeOutcome::Unchanged);
    assert!(m.get_backend("api").unwrap().healthy);
    assert_eq!(round(&mut m, false, 2, 3), ProbeOutcome::MarkedUnhealthy(3));
    let b = m.get_backend("api").unwrap();
    assert!(!b.healthy);
    assert_eq!(b.consecutive_failures, 3);
    assert_eq!(b.last_health_check, Some(NOW));
    assert_eq!(round(&mut m, false, 2, 3), ProbeOutcome::Unchanged);
    assert_eq!(m.get_backend("api").unwrap().consecutive_failures, 4);
}

#[test]
fn recovery_takes_healthy_threshold_successes() {
    let mut m = api_manager();
    round(&mut m, false, 2, 1);
    assert!(!m.get_backend("api").unwrap().healthy);
    assert_eq!(round(&mut m, true, 2, 1), ProbeOutcome::Unchanged);
    let b = m.get_backend("api").unwrap();
    assert!(!b.healthy);
    assert_eq!(b.consecutive_successes, 1);
    assert_eq!(round(&mut m, true, 2, 1), ProbeOutcome::Recovered);
    let b = m.get_backend("api").unwrap();
    assert!(b.healthy);
    assert_eq!(b.consecutive_failures, 0);
    assert_eq!(b.consecutive_successes, 0);
    assert_eq!(b.last_health_check, Some(NOW));
}

#[test]
fn a_failure_breaks_a_run_of_successes() {
    let mut m = api_manager();
    round(&mut m, false, 2, 1);
    round(&mut m, true, 2, 1);
    round(&mut m, false, 2, 1);
    assert_eq!(m.get_backend("api").unwrap().consecutive_successes, 0);
    assert_eq!(round(&mut m, true, 2, 1), ProbeOutcome::Unchanged);
    assert!(!m.get_backend("api").unwrap().healthy);
    assert_eq!(round(&mut m, true, 2, 1), ProbeOutcome::Recovered);
}

#[test]
fn one_success_is_enough_for_a_threshold_of_one() {
    let mut m = api_manager();
    round(&mut m, false, 1, 1);
    assert_eq!(round(&mut m, true, 1, 1), ProbeOutcome::Recovered);
    assert!(m.get_backend("api").unwrap().healthy);
}

#[test]
fn success_while_up_changes_nothing() {
    let mut m = api_manager();
    round(&mut m, false, 2, 3);
    let before = m.get_backend("api").unwrap();
    assert_eq!(round(&mut m, true, 2, 3), ProbeOutcome::Unchanged);
    assert_eq!(m.get_backend("api").unwrap(), before);
}

#[test]
fn threshold_zero_marks_down_at_the_first_failure() {
    let mut m = api_manager();
    assert_eq!(round(&mut m, false, 2, 0), ProbeOutcome::MarkedUnhealthy(1));
    assert!(!m.get_backend("api").unwrap().healthy);
}

#[test]
fn unknown_backends_are_left_alone() {
    let mut m = api_manager();
    assert_eq!(record_probe(&mut m, "ghost", true, false, 2, 3, NOW), ProbeOutcome::Unchanged);
    assert!(m.get_backend("ghost").is_none());
}

#[test]
fn probe_address_and_result() {
    assert_eq!(probe_url("http://10.0.0.1:3000"), "http://10.0.0.1:3000/health");
    assert!(probe_succeeded(Some(200)));
    assert!(probe_succeeded(Some(299)));
    assert!(!probe_succeeded(Some(300)));
    assert!(!probe_succeeded(Some(199)));
    assert!(!probe_succeeded(Some(503)));
    assert!(!probe_succeeded(None));
}

#[test]
fn checks_follow_the_enabled_flag() {
    let mut c = HealthCheckConfig::default();
    assert!(!checks_enabled(&c));
    c.enabled = true;
    assert!(checks_enabled(&c));
}
