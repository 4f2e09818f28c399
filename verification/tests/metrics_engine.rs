use venta_libre::metrics::MetricsCollector;

fn record(
    c: &mut MetricsCollector,
    method: &str,
    path: &str,
    status: u16,
    duration_ms: u64,
    user_id: Option<i32>,
    now: i64,
) {
    c.record_at(method.to_string(), path.to_string(), status, duration_ms, user_id, now);
}

#[test]
fn three_records_same_endpoint() {
    let mut c = MetricsCollector::new_at(100, 0);
    record(&mut c, "GET", "/a", 200, 10, None, 1);
    record(&mut c, "GET", "/a", 200, 20, None, 2);
    record(&mut c, "GET", "/a", 200, 30, None, 3);
    let stats = c.get_endpoint_metrics("GET", "/a").expect("aggregate exists");
    assert_eq!(stats.total_requests, 3);
    assert_eq!(stats.success_requests, 3);
    assert_eq!(stats.error_requests, 0);
    assert_eq!(stats.avg_response_time_ms(), 20);
    assert_eq!(stats.min_response_time_ms, 10);
    assert_eq!(stats.max_response_time_ms, 30);
}

#[test]
fn status_distribution_and_error_endpoints() {
    let mut c = MetricsCollector::new_at(100, 0);
    record(&mut c, "GET", "/a", 200, 5, None, 1);
    record(&mut c, "GET", "/a", 404, 5, None, 2);
    record(&mut c, "GET", "/a", 500, 5, None, 3);
    let snap = c.snapshot_at(10);
    let mut dist = snap.status_code_distribution.clone();
    dist.sort();
    assert_eq!(dist, vec![(200u16, 1u64), (404, 1), (500, 1)]);
    let stats = c.get_endpoint_metrics("GET", "/a").expect("aggregate exists");
    assert_eq!(stats.error_requests, 2);
    assert_eq!(stats.success_requests, 1);
    assert_eq!(snap.error_endpoints.len(), 1);
    assert_eq!(snap.error_endpoints[0].method, "GET");
    assert_eq!(snap.error_endpoints[0].path, "/a");
}

#[test]
fn hourly_buckets_one_hour_apart() {
    let mut c = MetricsCollector::new_at(100, 0);
    record(&mut c, "GET", "/a", 200, 10, None, 0);
    record(&mut c, "GET", "/a", 200, 30, None, 3_600_000);
    let snap = c.snapshot_at(3_600_001);
    assert_eq!(snap.hourly_stats.len(), 2);
    // most recent hour first
    assert_eq!(snap.hourly_stats[0].hour, 3600);
    assert_eq!(snap.hourly_stats[1].hour, 0);
    assert_eq!(snap.hourly_stats[0].requests, 1);
    assert_eq!(snap.hourly_stats[1].requests, 1);
    assert_eq!(snap.hourly_stats[0].avg_response_time_ms, 30);
    assert_eq!(snap.hourly_stats[1].avg_response_time_ms, 10);
    assert_eq!(snap.hourly_stats[0].error_rate_percent, 0);
}

#[test]
fn bounded_log_evicts_oldest() {
    let mut c = MetricsCollector::new_at(2, 0);
    record(&mut c, "GET", "/x", 201, 1, None, 1);
    record(&mut c, "GET", "/y", 202, 1, None, 2);
    record(&mut c, "GET", "/z", 203, 1, None, 3);
    let snap = c.snapshot_at(10);
    assert_eq!(snap.total_requests, 2);
    // the /x observation left the log: only the /y and /z statuses remain
    let mut dist = snap.status_code_distribution.clone();
    dist.sort();
    assert_eq!(dist, vec![(202u16, 1u64), (203, 1)]);
    // ... but the /x aggregate is permanent
    let stats = c.get_endpoint_metrics("GET", "/x").expect("aggregate survives eviction");
    assert_eq!(stats.total_requests, 1);
}

#[test]
fn cleanup_drops_only_old_entries_and_keeps_aggregates() {
    let mut c = MetricsCollector::new_at(100, 0);
    record(&mut c, "GET", "/a", 200, 5, None, 0);
    record(&mut c, "GET", "/a", 200, 7, None, 10_000);
    c.cleanup_at(5_000, 11_000);
    let snap = c.snapshot_at(11_000);
    assert_eq!(snap.total_requests, 1);
    assert_eq!(snap.avg_response_time_ms, 7);
    let stats = c.get_endpoint_metrics("GET", "/a").expect("aggregate untouched");
    assert_eq!(stats.total_requests, 2);
}

#[test]
fn cleanup_boundary_is_strict() {
    let mut c = MetricsCollector::new_at(100, 0);
    // exactly at the cutoff: age == max_age is dropped, strictly younger stays
    record(&mut c, "GET", "/a", 200, 5, None, 6_000);
    record(&mut c, "GET", "/a", 200, 5, None, 6_001);
    c.cleanup_at(5_000, 11_000);
    let snap = c.snapshot_at(11_000);
    assert_eq!(snap.total_requests, 1);
}

#[test]
fn snapshot_scalars_on_empty_log() {
    let c = MetricsCollector::new_at(100, 0);
    let snap = c.snapshot_at(5_000);
    assert_eq!(snap.total_requests, 0);
    assert_eq!(snap.avg_response_time_ms, 0);
    assert_eq!(snap.error_rate_percent, 0);
    assert_eq!(snap.requests_per_minute, 0);
    assert_eq!(snap.active_users, 0);
    assert_eq!(snap.uptime_seconds, 5);
    assert_eq!(snap.timestamp, 5_000);
    assert!(snap.most_used_endpoints.is_empty());
    assert!(snap.slowest_endpoints.is_empty());
    assert!(snap.error_endpoints.is_empty());
    assert!(snap.status_code_distribution.is_empty());
    assert!(snap.hourly_stats.is_empty());
}

#[test]
fn requests_per_minute_window() {
    let mut c = MetricsCollector::new_at(100, 0);
    record(&mut c, "GET", "/a", 200, 1, None, 0); // 100 s old: outside
    record(&mut c, "GET", "/a", 200, 1, None, 40_001); // 59.999 s old: inside
    record(&mut c, "GET", "/a", 200, 1, None, 40_000); // 60 s old exactly: outside
    let snap = c.snapshot_at(100_000);
    assert_eq!(snap.requests_per_minute, 1);
}

#[test]
fn active_users_are_distinct_recent_and_attributed() {
    let mut c = MetricsCollector::new_at(100, 0);
    record(&mut c, "GET", "/a", 200, 1, Some(7), 0); // too old (5 min window)
    record(&mut c, "GET", "/a", 200, 1, Some(1), 350_000);
    record(&mut c, "GET", "/a", 200, 1, Some(1), 360_000); // duplicate user
    record(&mut c, "GET", "/a", 200, 1, Some(2), 370_000);
    record(&mut c, "GET", "/a", 200, 1, None, 380_000); // anonymous
    let snap = c.snapshot_at(400_000);
    assert_eq!(snap.active_users, 2);
}

#[test]
fn error_rate_is_whole_percent_of_log() {
    let mut c = MetricsCollector::new_at(100, 0);
    record(&mut c, "GET", "/a", 200, 1, None, 1);
    record(&mut c, "GET", "/a", 404, 1, None, 2);
    record(&mut c, "GET", "/a", 301, 1, None, 3);
    let snap = c.snapshot_at(10);
    // one error in three requests: floor(100 / 3)
    assert_eq!(snap.error_rate_percent, 33);
}

#[test]
fn rankings_by_usage_speed_and_errors() {
    let mut c = MetricsCollector::new_at(100, 0);
    record(&mut c, "GET", "/slow", 200, 90, None, 1);
    record(&mut c, "GET", "/busy", 200, 10, None, 2);
    record(&mut c, "GET", "/busy", 200, 20, None, 3);
    record(&mut c, "GET", "/busy", 200, 30, None, 4);
    record(&mut c, "POST", "/fail", 500, 50, None, 5);
    record(&mut c, "POST", "/fail", 500, 50, None, 6);
    let snap = c.snapshot_at(10);
    assert_eq!(snap.most_used_endpoints.len(), 3);
    assert_eq!(snap.most_used_endpoints[0].path, "/busy");
    assert_eq!(snap.slowest_endpoints[0].path, "/slow");
    assert_eq!(snap.error_endpoints.len(), 1);
    assert_eq!(snap.error_endpoints[0].path, "/fail");
    assert_eq!(snap.error_endpoints[0].error_requests, 2);
}

#[test]
fn rankings_cap_at_ten() {
    let mut c = MetricsCollector::new_at(100, 0);
    for i in 0..12 {
        let path = format!("/p{}", i);
        c.record_at("GET".to_string(), path, 200, (i + 1) as u64, None, i as i64);
    }
    let snap = c.snapshot_at(100);
    assert_eq!(snap.most_used_endpoints.len(), 10);
    assert_eq!(snap.slowest_endpoints.len(), 10);
    // slowest first: the later paths had the longer durations
    assert_eq!(snap.slowest_endpoints[0].path, "/p11");
}

#[test]
fn hourly_buckets_cap_at_twenty_four() {
    let mut c = MetricsCollector::new_at(100, 0);
    for h in 0..30i64 {
        record(&mut c, "GET", "/a", 200, 1, None, h * 3_600_000);
    }
    let snap = c.snapshot_at(30 * 3_600_000);
    assert_eq!(snap.hourly_stats.len(), 24);
    // most recent first: hour 29 down to hour 6
    assert_eq!(snap.hourly_stats[0].hour, 29 * 3600);
    assert_eq!(snap.hourly_stats[23].hour, 6 * 3600);
}

#[test]
fn hourly_error_rate_uses_error_statuses() {
    let mut c = MetricsCollector::new_at(100, 0);
    record(&mut c, "GET", "/a", 200, 10, None, 100);
    record(&mut c, "GET", "/a", 503, 20, None, 200);
    let snap = c.snapshot_at(1_000);
    assert_eq!(snap.hourly_stats.len(), 1);
    assert_eq!(snap.hourly_stats[0].requests, 2);
    assert_eq!(snap.hourly_stats[0].avg_response_time_ms, 15);
    assert_eq!(snap.hourly_stats[0].error_rate_percent, 50);
}

#[test]
fn lookup_is_exact_and_case_sensitive() {
    let mut c = MetricsCollector::new_at(100, 0);
    record(&mut c, "GET", "/a", 200, 1, None, 1);
    assert!(c.get_endpoint_metrics("GET", "/a").is_some());
    assert!(c.get_endpoint_metrics("get", "/a").is_none());
    assert!(c.get_endpoint_metrics("GET", "/A").is_none());
    assert!(c.get_endpoint_metrics("POST", "/a").is_none());
}

#[test]
fn min_and_max_track_extremes() {
    let mut c = MetricsCollector::new_at(100, 0);
    record(&mut c, "GET", "/a", 200, 50, None, 1);
    record(&mut c, "GET", "/a", 200, 5, None, 2);
    record(&mut c, "GET", "/a", 200, 500, None, 3);
    let stats = c.get_endpoint_metrics("GET", "/a").unwrap();
    assert_eq!(stats.min_response_time_ms, 5);
    assert_eq!(stats.max_response_time_ms, 500);
    assert_eq!(stats.avg_response_time_ms(), 185);
    assert_eq!(stats.last_accessed, 3);
}

#[test]
fn success_split_uses_the_redirect_inclusive_rule() {
    let mut c = MetricsCollector::new_at(100, 0);
    record(&mut c, "GET", "/a", 301, 1, None, 1); // success for the split
    record(&mut c, "GET", "/a", 199, 1, None, 2); // error for the split
    record(&mut c, "GET", "/a", 399, 1, None, 3); // success
    record(&mut c, "GET", "/a", 400, 1, None, 4); // error
    let stats = c.get_endpoint_metrics("GET", "/a").unwrap();
    assert_eq!(stats.success_requests, 2);
    assert_eq!(stats.error_requests, 2);
    // ... while the snapshot error rate counts only >= 400
    let snap = c.snapshot_at(10);
    assert_eq!(snap.error_rate_percent, 25);
}

#[test]
fn wall_clock_record_and_cleanup() {
    let mut c = MetricsCollector::new(100);
    c.record_request("GET".to_string(), "/live".to_string(), 200, 3, Some(1));
    let stats = c.get_endpoint_metrics("GET", "/live").expect("recorded");
    assert_eq!(stats.total_requests, 1);
    // a day-long threshold keeps an observation recorded just now
    c.cleanup_old_metrics(86_400_000);
    let snap = c.get_metrics_snapshot();
    assert_eq!(snap.total_requests, 1);
}

#[test]
fn zero_capacity_log_keeps_aggregates_only() {
    let mut c = MetricsCollector::new_at(0, 0);
    record(&mut c, "GET", "/a", 200, 1, None, 1);
    let snap = c.snapshot_at(2);
    assert_eq!(snap.total_requests, 0);
    assert_eq!(c.get_endpoint_metrics("GET", "/a").unwrap().total_requests, 1);
}

#[test]
fn negative_timestamps_bucket_by_floor() {
    let mut c = MetricsCollector::new_at(100, 0);
    // one millisecond before the epoch falls in the hour starting at -3600 s
    record(&mut c, "GET", "/a", 200, 1, None, -1);
    record(&mut c, "GET", "/a", 200, 1, None, 1);
    let snap = c.snapshot_at(10);
    assert_eq!(snap.hourly_stats.len(), 2);
    assert_eq!(snap.hourly_stats[0].hour, 0);
    assert_eq!(snap.hourly_stats[1].hour, -3600);
}

#[test]
fn snapshot_read_is_idempotent() {
    let mut c = MetricsCollector::new_at(100, 0);
    record(&mut c, "GET", "/a", 200, 10, Some(4), 1_000);
    record(&mut c, "POST", "/b", 500, 20, None, 2_000);
    let s1 = c.snapshot_at(5_000);
    let s2 = c.snapshot_at(5_000);
    assert_eq!(s1.timestamp, s2.timestamp);
    assert_eq!(s1.uptime_seconds, s2.uptime_seconds);
    assert_eq!(s1.total_requests, s2.total_requests);
    assert_eq!(s1.requests_per_minute, s2.requests_per_minute);
    assert_eq!(s1.avg_response_time_ms, s2.avg_response_time_ms);
    assert_eq!(s1.error_rate_percent, s2.error_rate_percent);
    assert_eq!(s1.active_users, s2.active_users);
    assert_eq!(s1.status_code_distribution, s2.status_code_distribution);
    assert_eq!(s1.most_used_endpoints.len(), s2.most_used_endpoints.len());
    for (a, b) in s1.most_used_endpoints.iter().zip(s2.most_used_endpoints.iter()) {
        assert_eq!(a.method, b.method);
        assert_eq!(a.path, b.path);
        assert_eq!(a.total_requests, b.total_requests);
    }
    for (a, b) in s1.hourly_stats.iter().zip(s2.hourly_stats.iter()) {
        assert_eq!(a.hour, b.hour);
        assert_eq!(a.requests, b.requests);
    }
    // at a later instant only the clock-dependent fields may move
    let s3 = c.snapshot_at(6_000);
    assert_eq!(s1.total_requests, s3.total_requests);
    assert_eq!(s1.avg_response_time_ms, s3.avg_response_time_ms);
    assert_eq!(s1.error_rate_percent, s3.error_rate_percent);
    assert_eq!(s1.status_code_distribution, s3.status_code_distribution);
}

#[test]
fn keys_are_the_exact_concatenated_string() {
    // the index key is the literal `method + " " + path`; these two spell
    // the same key, as they did with a string-keyed map
    let mut c = MetricsCollector::new_at(100, 0);
    record(&mut c, "GET /a", "b", 200, 1, None, 1);
    let stats = c.get_endpoint_metrics("GET", "/a b").expect("same concatenated key");
    assert_eq!(stats.total_requests, 1);
}
