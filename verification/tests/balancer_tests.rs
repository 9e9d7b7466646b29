use axum_proxy::backend::{Backend, BackendManager};
use axum_proxy::config::{BackendConfig, LoadBalancerConfig};
use axum_proxy::load_balancer::least_connections::LeastConnections;
use axum_proxy::load_balancer::round_robin::RoundRobin;
use axum_proxy::load_balancer::weighted::WeightedRoundRobin;
use axum_proxy::load_balancer::{from_config, Balancer, LoadBalancer};

fn balancer_cfg(name: &str, weight: u32) -> BackendConfig {
    BackendConfig { name: name.to_string(), url: format!("http://{name}"), weight, max_retries: 3 }
}

fn backend(name: &str, weight: u32, active: u64) -> Backend {
    Backend {
        name: name.to_string(),
        url: format!("http://{name}"),
        weight,
        max_retries: 3,
        healthy: true,
        active_connections: active,
        total_requests: 0,
        failed_requests: 0,
        total_response_us: 0,
        last_health_check: None,
        consecutive_failures: 0,
        consecutive_successes: 0,
    }
}

#[test]
fn round_robin_pick_wraps_around() {
    let l = vec![backend("a", 1, 0), backend("b", 1, 0), backend("c", 1, 0)];
    let picks: Vec<String> = (0..6).map(|i| RoundRobin::pick(&l, i).unwrap().name).collect();
    assert_eq!(picks, vec!["a", "b", "c", "a", "b", "c"]);
    assert!(RoundRobin::pick(&vec![], 4).is_none());
}

#[test]
fn round_robin_steps_through_a_list() {
    let l = vec![backend("a", 1, 0), backend("b", 1, 0), backend("c", 1, 0)];
    let mut rr = RoundRobin::new();
    let picks: Vec<String> = (0..7).map(|_| rr.next_from(&l).unwrap().name).collect();
    assert_eq!(picks, vec!["a", "b", "c", "a", "b", "c", "a"]);
    assert!(rr.next_from(&vec![]).is_none());
    assert_eq!(rr.next_from(&l).unwrap().name, "b");
}

#[test]
fn round_robin_cycles_through_healthy_backends() {
    let m = BackendManager::new(vec![balancer_cfg("a", 1), balancer_cfg("b", 1), balancer_cfg("c", 1)]);
    let mut rr = RoundRobin::new();
    let first: Vec<String> = (0..3).map(|_| rr.next_backend(&m).unwrap().name).collect();
    let second: Vec<String> = (0..3).map(|_| rr.next_backend(&m).unwrap().name).collect();
    let mut sorted = first.clone();
    sorted.sort();
    assert_eq!(sorted, vec!["a", "b", "c"]);
    assert_eq!(first, second);
    assert_eq!(rr.name(), "round_robin");
}

#[test]
fn no_healthy_backend_gives_none() {
    let mut m = BackendManager::new(vec![balancer_cfg("a", 1)]);
    m.set_healthy("a", false, 1_700_000_000_000);
    assert!(RoundRobin::new().next_backend(&m).is_none());
    assert!(LeastConnections::new().next_backend(&m).is_none());
    assert!(WeightedRoundRobin::new().next_backend(&m).is_none());
    let empty = BackendManager::new(vec![]);
    assert!(RoundRobin::new().next_backend(&empty).is_none());
}

#[test]
fn least_connections_takes_the_first_least_loaded() {
    let l = vec![backend("a", 1, 5), backend("b", 1, 2), backend("c", 1, 2), backend("d", 1, 9)];
    assert_eq!(LeastConnections::pick(&l).unwrap().name, "b");
    assert!(LeastConnections::pick(&vec![]).is_none());
}

#[test]
fn least_connections_on_a_manager() {
    let mut m = BackendManager::new(vec![balancer_cfg("a", 1), balancer_cfg("b", 1), balancer_cfg("c", 1)]);
    m.increment_connections("a");
    m.increment_connections("c");
    m.increment_connections("c");
    let mut lc = LeastConnections::new();
    assert_eq!(lc.next_backend(&m).unwrap().name, "b");
    m.set_healthy("b", false, 1_700_000_000_000);
    assert_eq!(lc.next_backend(&m).unwrap().name, "a");
    assert_eq!(lc.name(), "least_connections");
}

#[test]
fn weighted_draws_follow_the_weights() {
    let l = vec![backend("a", 1, 0), backend("b", 3, 0), backend("c", 0, 0), backend("d", 2, 0)];
    assert_eq!(WeightedRoundRobin::total_weight(&l), 6);
    let picks: Vec<String> = (0..6).map(|d| WeightedRoundRobin::pick(&l, d).unwrap().name).collect();
    assert_eq!(picks, vec!["a", "b", "b", "b", "d", "d"]);
    assert_eq!(WeightedRoundRobin::pick(&l, 100).unwrap().name, "d");
    assert!(WeightedRoundRobin::pick(&vec![], 0).is_none());
}

#[test]
fn weighted_with_zero_total_takes_the_first() {
    let mut m = BackendManager::new(vec![balancer_cfg("only", 0)]);
    let mut w = WeightedRoundRobin::new();
    assert_eq!(w.next_backend(&m).unwrap().name, "only");
    m.set_healthy("only", false, 1_700_000_000_000);
    assert!(w.next_backend(&m).is_none());
}

#[test]
fn weighted_on_a_manager_picks_healthy_weighted_backends() {
    let mut m = BackendManager::new(vec![balancer_cfg("a", 1), balancer_cfg("b", 0), balancer_cfg("c", 4)]);
    m.set_healthy("a", false, 1_700_000_000_000);
    let mut w = WeightedRoundRobin::new();
    assert!(WeightedRoundRobin::weights_fit(&m));
    for _ in 0..50 {
        assert_eq!(w.next_backend(&m).unwrap().name, "c");
    }
    assert_eq!(w.name(), "weighted");
}

#[test]
fn weights_that_overflow_are_detected() {
    let m = BackendManager::new(vec![balancer_cfg("a", u32::MAX), balancer_cfg("b", 1)]);
    assert!(!WeightedRoundRobin::weights_fit(&m));
    let b = from_config(&LoadBalancerConfig { algorithm: "weighted".into(), sticky_sessions: false });
    assert!(!b.ready(&m));
    let m2 = BackendManager::new(vec![balancer_cfg("a", u32::MAX)]);
    assert!(WeightedRoundRobin::weights_fit(&m2));
}

#[test]
fn configuration_selects_the_policy() {
    let mk = |a: &str| LoadBalancerConfig { algorithm: a.to_string(), sticky_sessions: false };
    assert!(matches!(from_config(&mk("least_connections")), Balancer::LeastConnections(_)));
    assert!(matches!(from_config(&mk("weighted")), Balancer::Weighted(_)));
    assert!(matches!(from_config(&mk("round_robin")), Balancer::RoundRobin(_)));
    assert!(matches!(from_config(&mk("random")), Balancer::RoundRobin(_)));
    assert_eq!(from_config(&mk("weighted")).name(), "weighted");
    assert_eq!(from_config(&mk("")).name(), "round_robin");
}

#[test]
fn weighted_draws_stay_below_the_total() {
    for _ in 0..20 {
        let m = BackendManager::new(vec![balancer_cfg("a", 1), balancer_cfg("z", 0)]);
        let mut w = WeightedRoundRobin::new();
        for _ in 0..5 {
            assert_eq!(w.next_backend(&m).unwrap().name, "a");
        }
    }
}

#[test]
fn balancers_are_ready_for_ordinary_weights() {
    let m = BackendManager::new(vec![balancer_cfg("a", 3), balancer_cfg("b", 4)]);
    for a in ["round_robin", "least_connections", "weighted"] {
        let b = from_config(&LoadBalancerConfig { algorithm: a.into(), sticky_sessions: false });
        assert!(b.ready(&m));
    }
}
