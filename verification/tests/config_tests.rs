use axum_proxy::config::{
    default_algorithm, default_bind_addr, default_healthy_threshold, default_interval_secs,
    default_max_connections, default_max_retries, default_rate_limit_requests,
    default_rate_limit_window_secs, default_request_timeout_secs, default_sticky_sessions,
    default_strip_headers, default_timeout_secs, default_true, default_unhealthy_threshold,
    default_via_header, default_via_value, default_websocket, default_weight,
    default_x_forwarded_for, default_x_real_ip, AppConfig, ConfigSource, HealthCheckConfig,
};

#[test]
fn default_values_of_each_setting() {
    assert_eq!(default_bind_addr(), "0.0.0.0:8080");
    assert_eq!(default_request_timeout_secs(), 30);
    assert_eq!(default_max_connections(), 1024);
    assert_eq!(default_weight(), 1);
    assert_eq!(default_max_retries(), 3);
    assert_eq!(default_algorithm(), "round_robin");
    assert!(!default_sticky_sessions());
    assert!(default_true());
    assert_eq!(default_interval_secs(), 10);
    assert_eq!(default_timeout_secs(), 5);
    assert_eq!(default_healthy_threshold(), 2);
    assert_eq!(default_unhealthy_threshold(), 3);
    assert_eq!(default_rate_limit_requests(), 1000);
    assert_eq!(default_rate_limit_window_secs(), 60);
    assert!(default_x_forwarded_for());
    assert!(default_x_real_ip());
    assert!(default_via_header());
    assert_eq!(default_via_value(), "axum-proxy");
    assert_eq!(default_strip_headers(), vec!["proxy-connection".to_string()]);
    assert!(default_websocket());
}

#[test]
fn default_app_config() {
    let c = AppConfig::default();
    assert_eq!(c.server.bind_addr, "0.0.0.0:8080");
    assert_eq!(c.server.request_timeout_secs, 30);
    assert_eq!(c.server.max_connections, 1024);
    assert_eq!(c.backends.len(), 1);
    assert_eq!(c.backends[0].name, "backend-1");
    assert_eq!(c.backends[0].url, "http://127.0.0.1:3000");
    assert_eq!(c.backends[0].weight, 1);
    assert_eq!(c.backends[0].max_retries, 3);
    assert_eq!(c.load_balancer.algorithm, "round_robin");
    assert!(!c.load_balancer.sticky_sessions);
    assert!(c.rate_limit.enabled);
    assert_eq!(c.rate_limit.max_requests, 1000);
    assert_eq!(c.rate_limit.window_secs, 60);
    assert!(c.proxy.add_x_forwarded_for);
    assert!(c.proxy.add_x_real_ip);
    assert!(c.proxy.add_via_header);
    assert_eq!(c.proxy.via_value, "axum-proxy");
    assert_eq!(c.proxy.strip_request_headers, vec!["proxy-connection".to_string()]);
    assert!(c.proxy.add_request_headers.is_empty());
    assert!(c.proxy.websocket_enabled);
}

#[test]
fn default_health_check_config_is_disabled() {
    let h = HealthCheckConfig::default();
    assert!(!h.enabled);
    assert_eq!(h.interval_secs, 0);
    assert_eq!(h.timeout_secs, 0);
    assert_eq!(h.healthy_threshold, 0);
    assert_eq!(h.unhealthy_threshold, 0);
    let c = AppConfig::default();
    assert!(!c.health_check.enabled);
    assert_eq!(c.health_check.interval_secs, 0);
}

#[test]
fn candidate_files_in_order() {
    assert_eq!(
        AppConfig::candidate_files(),
        vec!["config.toml".to_string(), "proxy.toml".to_string()]
    );
}

#[test]
fn config_path_variable_comes_first() {
    let s = AppConfig::choose_source(
        Some("/etc/proxy.toml".to_string()),
        &vec![true, true],
        Some("{}".to_string()),
    );
    assert_eq!(s, ConfigSource::TomlFile("/etc/proxy.toml".to_string()));
}

#[test]
fn first_existing_candidate_is_read() {
    let s = AppConfig::choose_source(None, &vec![false, true], Some("{}".to_string()));
    assert_eq!(s, ConfigSource::TomlFile("proxy.toml".to_string()));
    let s = AppConfig::choose_source(None, &vec![true, true], None);
    assert_eq!(s, ConfigSource::TomlFile("config.toml".to_string()));
}

#[test]
fn json_variable_then_defaults() {
    let s = AppConfig::choose_source(None, &vec![false, false], Some("{\"a\":1}".to_string()));
    assert_eq!(s, ConfigSource::Json("{\"a\":1}".to_string()));
    let s = AppConfig::choose_source(None, &vec![false, false], None);
    assert_eq!(s, ConfigSource::Defaults);
}
