use axum_proxy::text::{
    canonical_header_name, decimal_string, eq_ignore_ascii_case, prefix_before, same_text, trim,
    valid_header_value,
};

#[test]
fn decimal_rendering() {
    assert_eq!(decimal_string(0), "0");
    assert_eq!(decimal_string(7), "7");
    assert_eq!(decimal_string(10), "10");
    assert_eq!(decimal_string(1234567890), "1234567890");
    assert_eq!(decimal_string(u64::MAX), u64::MAX.to_string());
}

#[test]
fn trimming_white_space() {
    assert_eq!(trim("  10.0.0.1 \t"), "10.0.0.1");
    assert_eq!(trim("   "), "");
    assert_eq!(trim(""), "");
    assert_eq!(trim("\u{3000}a b\u{2003}"), "a b");
    assert_eq!(trim("x"), "x");
}

#[test]
fn text_before_a_comma() {
    assert_eq!(prefix_before("a, b, c", ','), "a");
    assert_eq!(prefix_before("abc", ','), "abc");
    assert_eq!(prefix_before(",x", ','), "");
}

#[test]
fn header_names_are_lower_cased() {
    assert_eq!(canonical_header_name("X-Custom-Header"), Some("x-custom-header".to_string()));
    assert_eq!(canonical_header_name("proxy-connection"), Some("proxy-connection".to_string()));
    assert_eq!(canonical_header_name(""), None);
    assert_eq!(canonical_header_name("bad name"), None);
    assert_eq!(canonical_header_name("caf\u{e9}"), None);
    assert_eq!(canonical_header_name(&"a".repeat(65535)).map(|s| s.len()), Some(65535));
    assert_eq!(canonical_header_name(&"a".repeat(65536)), None);
}

#[test]
fn header_values_are_checked() {
    assert!(valid_header_value("text/html; charset=utf-8"));
    assert!(valid_header_value("tab\there"));
    assert!(valid_header_value("caf\u{e9}"));
    assert!(valid_header_value(""));
    assert!(!valid_header_value("line\nbreak"));
    assert!(!valid_header_value("del\u{7f}"));
}

#[test]
fn case_insensitive_comparison() {
    assert!(eq_ignore_ascii_case("WebSocket", "websocket"));
    assert!(!eq_ignore_ascii_case("websockets", "websocket"));
    assert!(same_text("abc", "abc"));
    assert!(!same_text("abc", "abd"));
}
