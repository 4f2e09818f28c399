use venta_libre::health::{
    classify_usage, compute_active_connections, determine_overall_status, health_status_code,
    is_ready, CheckStatus,
};
use venta_libre::httpmeta::{client_ip_from, is_slow_request};
use venta_libre::text::{
    contains_char, i32_to_string, is_blank_exec, str_eq, trim_exec, u64_to_string,
};

fn check(status: &str) -> CheckStatus {
    CheckStatus {
        status: status.to_string(),
        message: String::new(),
        response_time_ms: Some(1),
    }
}

#[test]
fn overall_status_combinations() {
    assert_eq!(determine_overall_status(&vec![check("healthy"), check("healthy")]), "healthy");
    assert_eq!(determine_overall_status(&vec![check("healthy"), check("warning")]), "degraded");
    assert_eq!(determine_overall_status(&vec![check("warning"), check("critical")]), "unhealthy");
    assert_eq!(determine_overall_status(&vec![check("unhealthy")]), "unhealthy");
    assert_eq!(determine_overall_status(&Vec::new()), "healthy");
}

#[test]
fn usage_classification_thresholds() {
    assert_eq!(classify_usage(91, 100), "critical");
    assert_eq!(classify_usage(90, 100), "warning");
    assert_eq!(classify_usage(81, 100), "warning");
    assert_eq!(classify_usage(80, 100), "healthy");
    assert_eq!(classify_usage(0, 100), "healthy");
    assert_eq!(classify_usage(0, 0), "healthy");
    // 20 GB used of 100 GB, as the disk probe reports
    assert_eq!(classify_usage(20_000_000_000, 100_000_000_000), "healthy");
}

#[test]
fn active_connections_never_underflow() {
    assert_eq!(compute_active_connections(10, 3), 7);
    assert_eq!(compute_active_connections(3, 10), 0);
    assert_eq!(compute_active_connections(0, 0), 0);
}

#[test]
fn readiness_and_status_codes() {
    assert!(is_ready(&check("healthy")));
    assert!(!is_ready(&check("unhealthy")));
    assert_eq!(health_status_code("healthy"), 200);
    assert_eq!(health_status_code("degraded"), 200);
    assert_eq!(health_status_code("unhealthy"), 503);
    assert_eq!(health_status_code("mystery"), 500);
}

#[test]
fn slow_request_threshold() {
    assert!(!is_slow_request(1000));
    assert!(is_slow_request(1001));
}

#[test]
fn client_ip_prefers_forwarding_chain() {
    assert_eq!(client_ip_from(Some("1.2.3.4, 5.6.7.8"), Some("9.9.9.9"), "127.0.0.1"), "1.2.3.4");
    assert_eq!(client_ip_from(Some("  10.0.0.1  "), None, "127.0.0.1"), "10.0.0.1");
    assert_eq!(client_ip_from(Some(""), None, "127.0.0.1"), "");
    assert_eq!(client_ip_from(None, Some("9.9.9.9"), "127.0.0.1"), "9.9.9.9");
    assert_eq!(client_ip_from(None, None, "127.0.0.1"), "127.0.0.1");
}

#[test]
fn text_utilities() {
    assert_eq!(trim_exec("  a b\t"), "a b");
    assert_eq!(trim_exec("   "), "");
    assert_eq!(trim_exec("x"), "x");
    assert!(is_blank_exec(" \t\n"));
    assert!(!is_blank_exec(" x "));
    assert!(contains_char("user@host", '@'));
    assert!(!contains_char("userhost", '@'));
    assert!(str_eq("same", "same"));
    assert!(!str_eq("same", "same "));
    assert_eq!(u64_to_string(0), "0");
    assert_eq!(u64_to_string(9_876_543_210), "9876543210");
    assert_eq!(i32_to_string(-2147483648), "-2147483648");
    assert_eq!(i32_to_string(2147483647), "2147483647");
}
