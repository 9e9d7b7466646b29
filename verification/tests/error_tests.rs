use axum_proxy::error::ProxyError;

#[test]
fn status_of_each_error() {
    assert_eq!(ProxyError::NoBackends.status_code(), 502);
    assert_eq!(ProxyError::BackendUnhealthy("a".into()).status_code(), 502);
    assert_eq!(ProxyError::Timeout(5).status_code(), 504);
    assert_eq!(ProxyError::Upstream("x".into()).status_code(), 502);
    assert_eq!(ProxyError::RateLimited.status_code(), 429);
    assert_eq!(ProxyError::Config("x".into()).status_code(), 500);
    assert_eq!(ProxyError::Connection("x".into()).status_code(), 502);
    assert_eq!(ProxyError::PayloadTooLarge.status_code(), 413);
    assert_eq!(ProxyError::Internal("x".into()).status_code(), 500);
}

#[test]
fn message_of_each_error() {
    assert_eq!(ProxyError::NoBackends.message(), "no available backends");
    assert_eq!(ProxyError::BackendUnhealthy("b1".into()).message(), "backend b1 is unhealthy");
    assert_eq!(ProxyError::Timeout(30).message(), "request timeout after 30s");
    assert_eq!(ProxyError::Timeout(0).message(), "request timeout after 0s");
    assert_eq!(ProxyError::Upstream("boom".into()).message(), "upstream error: boom");
    assert_eq!(ProxyError::RateLimited.message(), "rate limit exceeded");
    assert_eq!(ProxyError::Config("bad uri".into()).message(), "invalid configuration: bad uri");
    assert_eq!(ProxyError::Connection("refused".into()).message(), "connection error: refused");
    assert_eq!(ProxyError::PayloadTooLarge.message(), "request too large");
    assert_eq!(ProxyError::Internal("oops".into()).message(), "internal error: oops");
}

#[test]
fn transport_failures_are_classified() {
    assert_eq!(ProxyError::from_transport(true, true, "t".into()), ProxyError::Timeout(30));
    assert_eq!(ProxyError::from_transport(false, true, "c".into()), ProxyError::Connection("c".into()));
    assert_eq!(ProxyError::from_transport(false, false, "u".into()), ProxyError::Upstream("u".into()));
}

#[test]
fn invalid_uri_is_a_configuration_error() {
    assert_eq!(ProxyError::from_invalid_uri("empty".into()), ProxyError::Config("empty".into()));
}
