use llm_api_router::health::{HealthTracker, ProviderHealth, ProviderKey};

#[test]
fn threshold_failures_turn_key_unhealthy() {
    let mut t = HealthTracker::new(2, 3600);
    t.record_failure("g", "p", "m");
    assert!(t.is_healthy("g", "p", "m"));
    t.record_failure("g", "p", "m");
    assert!(!t.is_healthy("g", "p", "m"));
    // further failures keep it unhealthy
    t.record_failure("g", "p", "m");
    assert!(!t.is_healthy("g", "p", "m"));
}

#[test]
fn zero_threshold_fails_on_first_failure() {
    let mut t = HealthTracker::new(0, 3600);
    assert!(t.is_healthy("g", "p", "m"));
    t.record_failure("g", "p", "m");
    assert!(!t.is_healthy("g", "p", "m"));
}

#[test]
fn success_resets_failures() {
    let mut t = HealthTracker::new(2, 3600);
    t.record_failure("g", "p", "m");
    t.record_success("g", "p", "m");
    t.record_failure("g", "p", "m");
    // the counter restarted, one failure is below the threshold
    assert!(t.is_healthy("g", "p", "m"));
}

#[test]
fn keys_are_independent() {
    let mut t = HealthTracker::new(1, 3600);
    t.record_failure("g", "p", "m");
    assert!(!t.is_healthy("g", "p", "m"));
    assert!(t.is_healthy("g2", "p", "m"));
    assert!(t.is_healthy("g", "p2", "m"));
    assert!(t.is_healthy("g", "p", "m2"));
}

#[test]
fn zero_timeout_recovers_at_next_check() {
    let mut t = HealthTracker::new(1, 0);
    t.record_failure("g", "p", "m");
    // the last failure lies at least zero seconds back
    assert!(t.is_healthy("g", "p", "m"));
    // recovery cleared the counter, the next failure trips it again
    t.record_failure("g", "p", "m");
    assert!(t.is_healthy("g", "p", "m"));
}

#[test]
fn recovery_at_explicit_times() {
    let mut t = HealthTracker::new(1, 60);
    t.record_failure_at("g", "p", "m", 1_000);
    assert!(!t.is_healthy_at("g", "p", "m", 1_000 + 59_999_999_999));
    assert!(t.is_healthy_at("g", "p", "m", 1_000 + 60_000_000_000));
    // recovered for good
    assert!(t.is_healthy_at("g", "p", "m", 1_000));
}

#[test]
fn earlier_check_counts_as_zero_elapsed() {
    let mut t = HealthTracker::new(1, 0);
    t.record_failure_at("g", "p", "m", 500);
    // zero nanoseconds elapsed count as elapsed, even with the check earlier
    assert!(t.is_healthy_at("g", "p", "m", 100));
}

#[test]
fn healthy_providers_filtered_in_order() {
    let mut t = HealthTracker::new(1, 3600);
    t.record_failure("g", "b", "m");
    let all = vec!["a".to_string(), "b".to_string(), "c".to_string(), "b".to_string()];
    let healthy = t.get_healthy_providers("g", &all, "m");
    assert_eq!(healthy, vec!["a".to_string(), "c".to_string()]);
    let healthy_other = t.get_healthy_providers("g", &all, "other");
    assert_eq!(healthy_other, all);
}

#[test]
fn provider_key_parts_and_same_key() {
    let k = ProviderKey::new("g", "p", "m");
    assert_eq!(k.group, "g");
    assert_eq!(k.provider, "p");
    assert_eq!(k.model, "m");
    assert!(k.same_key(&ProviderKey::new("g", "p", "m")));
    assert!(!k.same_key(&ProviderKey::new("g", "p", "x")));
}

#[test]
fn fresh_health_record() {
    let h = ProviderHealth::new();
    assert_eq!(h.failure_count, 0);
    assert!(h.is_healthy);
    assert!(h.last_failure_time.is_none());
}

#[test]
fn healthy_key_stays_healthy_until_failure() {
    let mut t = HealthTracker::new(1, 60);
    t.record_success("g", "p", "m");
    assert!(t.is_healthy_at("g", "p", "m", 0));
    assert!(t.is_healthy_at("g", "p", "m", u128::MAX));
    t.record_failure_at("g", "other", "m", 5);
    assert!(t.is_healthy_at("g", "p", "m", 10));
}

#[test]
fn failure_on_unhealthy_key_restarts_wait() {
    let s = 1_000_000_000u128;
    let mut t = HealthTracker::new(1, 60);
    t.record_failure_at("g", "p", "m", 0);
    assert!(!t.is_healthy_at("g", "p", "m", 50 * s));
    t.record_failure_at("g", "p", "m", 50 * s);
    // 60 seconds after the first failure, but only 50 after the last one
    assert!(!t.is_healthy_at("g", "p", "m", 100 * s));
    assert!(t.is_healthy_at("g", "p", "m", 110 * s));
    // recovered: one more failure is needed to trip again
    assert!(t.is_healthy_at("g", "p", "m", 111 * s));
    t.record_failure_at("g", "p", "m", 112 * s);
    assert!(!t.is_healthy_at("g", "p", "m", 112 * s));
}

#[test]
fn healthy_filter_concat_and_idempotent() {
    let mut t = HealthTracker::new(1, 3600);
    t.record_failure_at("g", "b", "m", 0);
    let xs = vec!["a".to_string(), "b".to_string()];
    let ys = vec!["b".to_string(), "c".to_string()];
    let both: Vec<String> = xs.iter().chain(ys.iter()).cloned().collect();
    let all = t.get_healthy_providers_at("g", &both, "m", 1);
    let mut parts = t.get_healthy_providers_at("g", &xs, "m", 1);
    parts.extend(t.get_healthy_providers_at("g", &ys, "m", 1));
    assert_eq!(all, parts);
    let again = t.get_healthy_providers_at("g", &all, "m", 1);
    assert_eq!(again, all);
}

#[test]
fn history_with_failures_checks_and_recovery() {
    // threshold 2, timeout 1 s
    let mut t = HealthTracker::new(2, 1);
    t.record_failure_at("g", "p", "m", 0);
    assert!(t.is_healthy_at("g", "p", "m", 5));
    t.record_failure_at("g", "p", "m", 10);
    assert!(!t.is_healthy_at("g", "p", "m", 1_000_000_009));
    // the latest failure lies a full second back: recovery resets the count
    assert!(t.is_healthy_at("g", "p", "m", 1_000_000_010));
    t.record_failure_at("g", "p", "m", 2_000_000_000);
    assert!(t.is_healthy_at("g", "p", "m", 2_000_000_001));
    t.record_failure_at("g", "p", "m", 2_000_000_002);
    assert!(!t.is_healthy_at("g", "p", "m", 2_000_000_003));
    assert!(t.is_healthy_at("g", "p", "m", 3_000_000_002));
}

#[test]
fn passing_check_stays_until_failure() {
    let mut t = HealthTracker::new(1, 60);
    assert!(t.is_healthy_at("g", "p", "m", 0));
    t.record_failure_at("g", "q", "m", 1);
    t.record_success("g", "p", "m");
    assert!(t.is_healthy_at("g", "p", "m", u128::MAX));
    t.record_failure_at("g", "p", "m", 2);
    assert!(!t.is_healthy_at("g", "p", "m", 3));
}

#[test]
fn settings_of_a_group_in_use_stay() {
    let mut t = HealthTracker::new(3, 60);
    t.record_failure_at("g", "p", "m", 0);
    t.add_group_failover("g", 1, 1);
    t.record_failure_at("g", "p", "m", 1);
    // still the default threshold of 3
    assert!(t.is_healthy_at("g", "p", "m", 2));
    t.record_failure_at("g", "p", "m", 3);
    assert!(!t.is_healthy_at("g", "p", "m", 4));
    // and the default timeout of 60 seconds
    assert!(!t.is_healthy_at("g", "p", "m", 3 + 59_000_000_000));
    assert!(t.is_healthy_at("g", "p", "m", 3 + 60_000_000_000));
    // a group without records takes its own settings
    t.add_group_failover("h", 1, 1);
    t.record_failure_at("h", "p", "m", 0);
    assert!(!t.is_healthy_at("h", "p", "m", 1));
}

#[test]
fn healthy_queries_across_readings() {
    let mut t = HealthTracker::new(1, 10);
    t.record_failure_at("g", "b", "m", 100);
    let all = vec!["a".to_string(), "b".to_string(), "c".to_string()];
    let first = t.get_healthy_providers_at("g", &all, "m", 200);
    assert_eq!(first, vec!["a".to_string(), "c".to_string()]);
    let xs = t.get_healthy_providers_at("g", &all[..1], "m", 300);
    let ys = t.get_healthy_providers_at("g", &all[1..], "m", 400);
    assert_eq!([xs, ys].concat(), first);
    assert_eq!(t.get_healthy_providers_at("g", &first, "m", 500), first);
    // once the deadline passes, the answers change
    let later = t.get_healthy_providers_at("g", &all, "m", 100 + 10_000_000_000);
    assert_eq!(later.len(), 3);
}
