use axum_proxy::backend::BackendManager;
use axum_proxy::config::{AppConfig, BackendConfig, LoadBalancerConfig};
use axum_proxy::error::ProxyError;
use axum_proxy::load_balancer::from_config;
use axum_proxy::middleware::health_check::stats_report;
use axum_proxy::proxy::forwarder::{
    forward_request_header, is_websocket_upgrade, keep_response_header, send_body, send_error,
    upstream_status,
};
use axum_proxy::proxy::{
    backend_url, finish_request, forwarded_for_value, is_dedicated_route, plan_request_headers,
    start_request, HeaderEdit,
};

fn proxy_cfg(name: &str) -> BackendConfig {
    BackendConfig { name: name.to_string(), url: format!("http://{name}"), weight: 1, max_retries: 3 }
}

fn round_robin() -> axum_proxy::load_balancer::Balancer {
    from_config(&LoadBalancerConfig { algorithm: "round_robin".into(), sticky_sessions: false })
}

#[test]
fn dedicated_routes() {
    assert!(is_dedicated_route(true, "/__health"));
    assert!(!is_dedicated_route(false, "/__health"));
    assert!(is_dedicated_route(true, "/__stats"));
    assert!(is_dedicated_route(false, "/__stats"));
    assert!(!is_dedicated_route(true, "/api"));
}

#[test]
fn forwarding_address() {
    assert_eq!(backend_url("http://10.0.0.1:3000", "/a/b?c=1"), "http://10.0.0.1:3000/a/b?c=1");
}

#[test]
fn forwarded_for_chain() {
    assert_eq!(forwarded_for_value(None, "1.2.3.4"), "1.2.3.4");
    assert_eq!(forwarded_for_value(Some(""), "1.2.3.4"), "1.2.3.4");
    assert_eq!(forwarded_for_value(Some("9.9.9.9"), "1.2.3.4"), "9.9.9.9, 1.2.3.4");
}

#[test]
fn default_header_plan() {
    let c = AppConfig::default();
    let plan = plan_request_headers(&c.proxy, Some("9.9.9.9"), "1.2.3.4");
    assert_eq!(
        plan,
        vec![
            HeaderEdit::Remove("proxy-connection".into()),
            HeaderEdit::Insert("x-forwarded-for".into(), "9.9.9.9, 1.2.3.4".into()),
            HeaderEdit::Insert("x-real-ip".into(), "1.2.3.4".into()),
            HeaderEdit::Insert("via".into(), "axum-proxy".into()),
        ]
    );
}

#[test]
fn configured_headers_and_invalid_entries() {
    let mut c = AppConfig::default().proxy;
    c.strip_request_headers = vec!["X-Secret".into(), "bad name".into()];
    c.add_request_headers = vec![
        ("X-Env".into(), "prod".into()),
        ("X-Bad".into(), "a\nb".into()),
        ("".into(), "v".into()),
    ];
    c.add_x_real_ip = false;
    c.add_via_header = false;
    c.add_x_forwarded_for = true;
    let plan = plan_request_headers(&c, None, "5.6.7.8");
    assert_eq!(
        plan,
        vec![
            HeaderEdit::Remove("x-secret".into()),
            HeaderEdit::Insert("x-env".into(), "prod".into()),
            HeaderEdit::Insert("x-forwarded-for".into(), "5.6.7.8".into()),
        ]
    );
    c.add_x_forwarded_for = false;
    c.add_via_header = true;
    c.via_value = "bad\u{7f}".into();
    let plan = plan_request_headers(&c, None, "5.6.7.8");
    assert_eq!(plan.len(), 2);
}

#[test]
fn a_request_is_counted_from_start_to_finish() {
    let mut m = BackendManager::new(vec![proxy_cfg("a")]);
    let mut lb = round_robin();
    let b = start_request(&mut m, &mut lb, true, "/x").unwrap();
    assert_eq!(b.name, "a");
    assert_eq!(m.get_backend("a").unwrap().active_connections, 1);
    finish_request(&mut m, "a", false, 250);
    let a = m.get_backend("a").unwrap();
    assert_eq!(a.active_connections, 0);
    assert_eq!(a.total_requests, 1);
    assert_eq!(a.failed_requests, 1);
    assert_eq!(a.total_response_us, 250);
}

#[test]
fn requests_that_are_not_forwarded() {
    let mut m = BackendManager::new(vec![proxy_cfg("a")]);
    let mut lb = round_robin();
    assert_eq!(
        start_request(&mut m, &mut lb, true, "/__health"),
        Err(ProxyError::Internal("handled by dedicated routes".into()))
    );
    assert_eq!(m.get_backend("a").unwrap().active_connections, 0);
    m.set_healthy("a", false, 1_700_000_000_000);
    assert_eq!(start_request(&mut m, &mut lb, true, "/x"), Err(ProxyError::NoBackends));
}

#[test]
fn forwarding_rules() {
    assert!(is_websocket_upgrade(Some("WebSocket")));
    assert!(!is_websocket_upgrade(Some("h2c")));
    assert!(!is_websocket_upgrade(None));
    assert!(!forward_request_header("host", false));
    assert!(!forward_request_header("transfer-encoding", true));
    assert!(!forward_request_header("connection", false));
    assert!(forward_request_header("connection", true));
    assert!(forward_request_header("accept", false));
    assert!(!keep_response_header("connection", false));
    assert!(!keep_response_header("transfer-encoding", false));
    assert!(keep_response_header("connection", true));
    assert!(keep_response_header("content-type", false));
    assert!(send_body(3));
    assert!(!send_body(0));
    assert_eq!(upstream_status(404), 404);
    assert_eq!(upstream_status(99), 502);
    assert_eq!(upstream_status(1000), 502);
}

#[test]
fn upstream_failures() {
    assert_eq!(send_error(true, false, "t".into(), 12), ProxyError::Timeout(12));
    assert_eq!(send_error(true, true, "t".into(), 45), ProxyError::Timeout(45));
    assert_eq!(send_error(false, true, "c".into(), 12), ProxyError::Connection("c".into()));
    assert_eq!(send_error(false, false, "u".into(), 12), ProxyError::Upstream("u".into()));
}

#[test]
fn stats_report_summarises_the_backends() {
    let mut m = BackendManager::new(vec![proxy_cfg("a"), proxy_cfg("b"), proxy_cfg("c")]);
    m.set_healthy("b", false, 1_700_000_000_000);
    let r = stats_report(&m, &round_robin());
    assert_eq!(r.load_balancer, "round_robin");
    assert_eq!(r.total_backends, 3);
    assert_eq!(r.healthy_backends, 2);
    assert_eq!(r.backends.len(), 3);
}

#[test]
fn requests_follow_the_balancer_in_turn() {
    let mut m = BackendManager::new(vec![proxy_cfg("a"), proxy_cfg("b"), proxy_cfg("c")]);
    let mut lb = round_robin();
    let picks: Vec<String> =
        (0..6).map(|_| start_request(&mut m, &mut lb, true, "/x").unwrap().name).collect();
    let mut first: Vec<String> = picks[..3].to_vec();
    first.sort();
    assert_eq!(first, vec!["a", "b", "c"]);
    assert_eq!(picks[..3], picks[3..]);
    for name in ["a", "b", "c"] {
        assert_eq!(m.get_backend(name).unwrap().active_connections, 2);
    }
}

#[test]
fn dedicated_routes_leave_the_balancer_alone() {
    let mut m = BackendManager::new(vec![proxy_cfg("a"), proxy_cfg("b")]);
    let mut lb = round_robin();
    let first = start_request(&mut m, &mut lb, true, "/x").unwrap().name;
    assert!(start_request(&mut m, &mut lb, false, "/__stats").is_err());
    assert!(start_request(&mut m, &mut lb, true, "/__health").is_err());
    let second = start_request(&mut m, &mut lb, true, "/x").unwrap().name;
    assert_ne!(first, second);
}
