use axum_proxy::config::RateLimitConfig;
use axum_proxy::middleware::rate_limiter::{
    client_key, forwarded_client_text, layer, RateLimiterLayer, TokenBucket,
};

const SEC: u128 = 1_000_000_000;

#[test]
fn a_full_bucket_lets_a_burst_of_its_size_through() {
    let mut b = TokenBucket::new(3, 60, 0);
    assert!(b.consume_after(0));
    assert!(b.consume_after(0));
    assert!(b.consume_after(0));
    assert!(!b.consume_after(0));
    assert!(!b.consume_after(0));
}

#[test]
fn tokens_come_back_at_the_configured_rate() {
    let mut b = TokenBucket::new(3, 60, 0);
    for _ in 0..3 {
        assert!(b.consume_after(0));
    }
    assert!(!b.consume_after(19 * SEC));
    assert!(b.consume_after(SEC));
    assert!(!b.consume_after(0));
}

#[test]
fn a_window_refills_the_bucket() {
    let mut b = TokenBucket::new(2, 10, 0);
    assert!(b.consume_after(0));
    assert!(b.consume_after(0));
    assert!(!b.consume_after(0));
    assert!(b.consume_after(10 * SEC));
    assert!(b.consume_after(0));
    assert!(!b.consume_after(0));
    assert!(b.consume_after(u128::MAX));
}

#[test]
fn edge_settings() {
    let mut none = TokenBucket::new(0, 60, 0);
    assert!(!none.consume_after(0));
    assert!(!none.consume_after(1000 * SEC));
    let mut instant = TokenBucket::new(1, 0, 0);
    for _ in 0..10 {
        assert!(instant.consume_after(0));
    }
    let mut closed = TokenBucket::new(0, 0, 0);
    assert!(!closed.consume_after(0));
}

#[test]
fn try_consume_refills_from_the_last_refill() {
    let mut b = TokenBucket::new(2, 10, 100 * SEC);
    assert!(b.try_consume(100 * SEC));
    assert!(b.try_consume(101 * SEC));
    assert!(!b.try_consume(102 * SEC));
    assert!(!b.try_consume(104 * SEC));
    assert!(b.try_consume(107 * SEC));
    assert!(!b.try_consume(107 * SEC));
    assert!(!b.try_consume(50 * SEC));
    assert!(b.try_consume(200 * SEC));
}

#[test]
fn huge_settings_are_capped() {
    let mut b = TokenBucket::new(u64::MAX, u64::MAX, 0);
    for _ in 0..1000 {
        assert!(b.consume_after(0));
    }
    let mut c = TokenBucket::new(u64::MAX, 1, 0);
    assert!(c.consume_after(0));
    assert!(c.consume_after(u128::MAX));
}

#[test]
fn calls_over_time_stay_within_the_rate() {
    let config = RateLimitConfig { enabled: true, max_requests: 4, window_secs: 2 };
    let mut l = RateLimiterLayer::new(&config);
    let ip = (4u8, 7u128);
    let mut allowed = 0;
    let mut t = 0u128;
    for _ in 0..100 {
        if l.check(ip, t) {
            allowed += 1;
        }
        t += SEC / 10;
    }
    assert_eq!(allowed, 4 + 19);
}

#[test]
fn each_client_has_its_own_bucket() {
    let config = RateLimitConfig { enabled: true, max_requests: 2, window_secs: 3600 };
    let mut l = RateLimiterLayer::new(&config);
    let a = (4u8, 0x0a000001u128);
    let b = (4u8, 0x0a000002u128);
    assert!(l.check(a, 0));
    assert!(l.check(a, 0));
    assert!(!l.check(a, 0));
    assert!(l.check(b, 0));
    assert!(l.check(b, 0));
    assert!(!l.check(b, 0));
    assert!(!l.check(a, 0));
}

#[test]
fn refusals_name_the_window() {
    let config = RateLimitConfig { enabled: true, max_requests: 1000, window_secs: 60 };
    let l = RateLimiterLayer::new(&config);
    assert_eq!(l.retry_after(), "60");
    let r = l.rejection();
    assert_eq!(r.status, 429);
    assert_eq!(r.retry_after, "60");
    assert_eq!(r.body, "Rate limit exceeded");
}

#[test]
fn the_limiter_follows_the_enabled_flag() {
    let on = RateLimitConfig { enabled: true, max_requests: 10, window_secs: 1 };
    let off = RateLimitConfig { enabled: false, max_requests: 10, window_secs: 1 };
    assert!(layer(&on).is_some());
    assert!(layer(&off).is_none());
}

#[test]
fn the_client_comes_from_the_peer_or_the_forwarded_header() {
    assert_eq!(forwarded_client_text(" 203.0.113.7 , 10.0.0.1"), "203.0.113.7");
    assert_eq!(forwarded_client_text("198.51.100.2"), "198.51.100.2");
    assert_eq!(forwarded_client_text(""), "");
    let peer = Some((4u8, 1u128));
    let fwd = Some((6u8, 2u128));
    assert_eq!(client_key(peer, fwd), (4, 1));
    assert_eq!(client_key(None, fwd), (6, 2));
    assert_eq!(client_key(None, None), (4, 0));
}

#[test]
fn other_clients_do_not_change_a_clients_answers() {
    let config = RateLimitConfig { enabled: true, max_requests: 3, window_secs: 3 };
    let mut alone = RateLimiterLayer::new(&config);
    let mut shared = RateLimiterLayer::new(&config);
    let a = (4u8, 1u128);
    let b = (6u8, 2u128);
    let times = [0, 0, 0, 0, SEC / 2, SEC, SEC, 2 * SEC, 5 * SEC, 5 * SEC, 5 * SEC, 5 * SEC];
    for (i, t) in times.iter().enumerate() {
        let expected = alone.check(a, *t);
        for _ in 0..i {
            shared.check(b, *t);
        }
        assert_eq!(shared.check(a, *t), expected);
    }
    let answers: Vec<bool> = {
        let mut l = RateLimiterLayer::new(&config);
        times.iter().map(|t| l.check(a, *t)).collect()
    };
    assert_eq!(
        answers,
        vec![true, true, true, false, false, true, false, true, true, true, true, false]
    );
}
