use axum_proxy::backend::{BackendManager};
use axum_proxy::config::BackendConfig;

fn cfg(name: &str, url: &str, weight: u32) -> BackendConfig {
    BackendConfig { name: name.to_string(), url: url.to_string(), weight, max_retries: 3 }
}

fn manager() -> BackendManager {
    BackendManager::new(vec![cfg("a", "http://a", 1), cfg("b", "http://b", 2), cfg("c", "http://c", 3)])
}

#[test]
fn new_backends_start_fresh() {
    let m = manager();
    let b = m.get_backend("b").unwrap();
    assert_eq!(b.name, "b");
    assert_eq!(b.url, "http://b");
    assert_eq!(b.weight, 2);
    assert_eq!(b.max_retries, 3);
    assert!(b.healthy);
    assert_eq!(b.active_connections, 0);
    assert_eq!(b.total_requests, 0);
    assert_eq!(b.failed_requests, 0);
    assert_eq!(b.total_response_us, 0);
    assert_eq!(b.last_health_check, None);
    assert_eq!(b.consecutive_failures, 0);
    assert_eq!(b.consecutive_successes, 0);
    assert!(m.get_backend("zz").is_none());
}

#[test]
fn later_configuration_of_a_name_wins() {
    let m = BackendManager::new(vec![cfg("a", "http://first", 1), cfg("a", "http://second", 5)]);
    assert_eq!(m.get_all_backends().len(), 1);
    let a = m.get_backend("a").unwrap();
    assert_eq!(a.url, "http://second");
    assert_eq!(a.weight, 5);
}

#[test]
fn listings_hold_each_backend_once() {
    let mut m = manager();
    let mut names: Vec<String> = m.get_all_backends().into_iter().map(|b| b.name).collect();
    names.sort();
    assert_eq!(names, vec!["a", "b", "c"]);
    m.set_healthy("b", false, 1_700_000_000_000);
    let mut healthy: Vec<String> = m.get_healthy_backends().into_iter().map(|b| b.name).collect();
    healthy.sort();
    assert_eq!(healthy, vec!["a", "c"]);
}

#[test]
fn health_marks() {
    let mut m = manager();
    m.increment_consecutive_failures("a");
    m.set_healthy("a", false, 1_700_000_000_000);
    let a = m.get_backend("a").unwrap();
    assert!(!a.healthy);
    assert_eq!(a.consecutive_failures, 1);
    assert_eq!(a.last_health_check, Some(1_700_000_000_000));
    m.set_healthy("a", true, 1_700_000_000_000);
    let a = m.get_backend("a").unwrap();
    assert!(a.healthy);
    assert_eq!(a.consecutive_failures, 0);
    m.set_healthy("missing", false, 1_700_000_000_000);
    assert!(m.get_backend("missing").is_none());
}

#[test]
fn failure_counts() {
    let mut m = manager();
    assert_eq!(m.increment_consecutive_failures("c"), 1);
    assert_eq!(m.increment_consecutive_failures("c"), 2);
    assert_eq!(m.reset_consecutive_failures("c"), 0);
    assert_eq!(m.get_backend("c").unwrap().consecutive_failures, 0);
    assert_eq!(m.increment_consecutive_failures("nope"), 0);
    assert_eq!(m.reset_consecutive_failures("nope"), 0);
}

#[test]
fn connection_counts_do_not_go_below_zero() {
    let mut m = manager();
    m.increment_connections("a");
    m.increment_connections("a");
    assert_eq!(m.get_backend("a").unwrap().active_connections, 2);
    m.decrement_connections("a");
    assert_eq!(m.get_backend("a").unwrap().active_connections, 1);
    m.decrement_connections("a");
    m.decrement_connections("a");
    assert_eq!(m.get_backend("a").unwrap().active_connections, 0);
}

#[test]
fn closing_undoes_opening() {
    let mut m = manager();
    m.increment_connections("b");
    let before = m.get_backend("b").unwrap();
    m.increment_connections("b");
    m.decrement_connections("b");
    assert_eq!(m.get_backend("b").unwrap(), before);
}

#[test]
fn requests_are_recorded() {
    let mut m = manager();
    m.record_request("a", true, 1500);
    m.record_request("a", false, 500);
    m.record_request("a", true, 1000);
    let a = m.get_backend("a").unwrap();
    assert_eq!(a.total_requests, 3);
    assert_eq!(a.failed_requests, 1);
    assert_eq!(a.total_response_us, 3000);
    m.record_request("a", true, u64::MAX);
    assert_eq!(m.get_backend("a").unwrap().total_response_us, u64::MAX);
}

#[test]
fn stats_report_counts() {
    let mut m = manager();
    m.record_request("c", true, 10);
    m.record_request("c", false, 10);
    m.record_request("c", true, 10);
    let stats = m.stats();
    assert_eq!(stats.len(), 3);
    let c = stats.iter().find(|s| s.name == "c").unwrap();
    assert_eq!(c.url, "http://c");
    assert_eq!(c.total_requests, 3);
    assert_eq!(c.failed_requests, 1);
    assert_eq!(c.successful_requests, 2);
    assert_eq!(c.total_response_us, 30);
    assert_eq!(c.weight, 3);
    assert!(c.healthy);
}

#[test]
fn connection_room() {
    let mut m = manager();
    assert!(m.healthy_connections_have_room());
    for _ in 0..3 {
        m.increment_connections("a");
    }
    assert!(m.healthy_connections_have_room());
}

#[test]
fn success_counts() {
    let mut m = manager();
    assert_eq!(m.increment_consecutive_successes("a"), 1);
    assert_eq!(m.increment_consecutive_successes("a"), 2);
    assert_eq!(m.get_backend("a").unwrap().consecutive_successes, 2);
    assert_eq!(m.reset_consecutive_successes("a"), 0);
    assert_eq!(m.get_backend("a").unwrap().consecutive_successes, 0);
    assert_eq!(m.increment_consecutive_successes("nope"), 0);
}
