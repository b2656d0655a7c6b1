use llm_api_router::config::{Config, FailoverConfig, GroupConfig, ProviderConfig, RouterConfig, ServerConfig};
use llm_api_router::error::RouterError;
use llm_api_router::health::HealthTracker;
use llm_api_router::routing::{find_implementation, RoutePlan, RoutingEngine};

fn provider(name: &str, priority: u32, models: &[&str]) -> ProviderConfig {
    ProviderConfig {
        name: name.to_string(),
        endpoint: format!("http://{}/v1", name),
        api_key: "k".to_string(),
        priority,
        ssl_verify: true,
        models: models.iter().map(|m| m.to_string()).collect(),
    }
}

fn names(plan: &RoutePlan) -> Vec<String> {
    plan.providers.iter().map(|p| p.name.clone()).collect()
}

#[test]
fn plan_orders_by_priority_stably() {
    let plan = RoutePlan::new(
        "production",
        vec![provider("a", 2, &[]), provider("b", 1, &[]), provider("c", 2, &[]), provider("d", 1, &[])],
        None,
    );
    assert_eq!(names(&plan), vec!["b", "d", "a", "c"]);
    assert_eq!(plan.group, "production");
    assert!(!plan.streaming);
    assert!(RoutePlan::new("g", vec![], Some(true)).streaming);
    assert!(!RoutePlan::new("g", vec![], Some(false)).streaming);
}

#[test]
fn failover_walks_models_then_providers() {
    let mut engine = RoutingEngine::new(HealthTracker::new(2, 3600));
    let plan = RoutePlan::new(
        "production",
        vec![provider("fallback", 2, &[]), provider("primary", 1, &["m1", "m2"])],
        Some(false),
    );
    let available = vec!["fallback".to_string(), "primary".to_string()];

    let a = engine.next_attempt(&plan, &available, 0).unwrap();
    assert_eq!((a.position, a.implementation, a.model.as_str()), (0, 1, "m1"));
    // a non-streamed request stays on the provider after a failure
    assert_eq!(engine.attempt_failed(&plan, &a), 0);
    let a = engine.next_attempt(&plan, &available, 0).unwrap();
    assert_eq!(a.model, "m1");
    assert_eq!(engine.attempt_failed(&plan, &a), 0);
    // m1 reached the threshold
    let a = engine.next_attempt(&plan, &available, 0).unwrap();
    assert_eq!(a.model, "m2");
    engine.attempt_failed(&plan, &a);
    engine.attempt_failed(&plan, &a);
    // both models unhealthy: the provider is skipped
    let a = engine.next_attempt(&plan, &available, 0).unwrap();
    assert_eq!((a.position, a.implementation, a.model.as_str()), (1, 0, "production"));
    // a provider without models moves on after a failure
    assert_eq!(engine.attempt_failed(&plan, &a), 2);
    match engine.next_attempt(&plan, &available, 2) {
        Err(RouterError::AllProvidersFailed) => {}
        other => panic!("unexpected {:?}", other.map(|a| a.position)),
    }
}

#[test]
fn success_is_recorded_for_the_attempt() {
    let mut engine = RoutingEngine::new(HealthTracker::new(1, 3600));
    let plan = RoutePlan::new("g", vec![provider("p", 1, &["m"])], None);
    let available = vec!["p".to_string()];
    let a = engine.next_attempt(&plan, &available, 0).unwrap();
    engine.attempt_succeeded(&plan, &a);
    assert!(engine.health_tracker_mut().is_healthy("g", "p", "m"));
    engine.attempt_failed(&plan, &a);
    assert!(!engine.health_tracker_mut().is_healthy("g", "p", "m"));
}

#[test]
fn streamed_request_moves_on_after_failure() {
    let mut engine = RoutingEngine::new(HealthTracker::new(5, 3600));
    let plan = RoutePlan::new("g", vec![provider("p", 1, &["m"]), provider("q", 2, &["m"])], Some(true));
    let available = vec!["p".to_string(), "q".to_string()];
    let a = engine.next_attempt(&plan, &available, 0).unwrap();
    assert_eq!(a.position, 0);
    let next = engine.attempt_failed(&plan, &a);
    assert_eq!(next, 1);
    let b = engine.next_attempt(&plan, &available, next).unwrap();
    assert_eq!((b.position, b.implementation), (1, 1));
}

#[test]
fn missing_implementation_is_reported() {
    let mut engine = RoutingEngine::new(HealthTracker::new(3, 60));
    let plan = RoutePlan::new("g", vec![provider("ghost", 1, &[])], None);
    match engine.next_attempt(&plan, &vec!["other".to_string()], 0) {
        Err(RouterError::ProviderNotFound(name)) => assert_eq!(name, "ghost"),
        _ => panic!("expected ProviderNotFound"),
    }
}

#[test]
fn empty_group_fails() {
    let mut engine = RoutingEngine::new(HealthTracker::new(3, 60));
    let plan = RoutePlan::new("g", vec![], None);
    assert!(matches!(engine.next_attempt(&plan, &vec![], 0), Err(RouterError::AllProvidersFailed)));
}

#[test]
fn implementation_lookup_takes_first_match() {
    let available = vec!["a".to_string(), "b".to_string(), "b".to_string()];
    assert_eq!(find_implementation(&available, &"b".to_string()), Some(1));
    assert_eq!(find_implementation(&available, &"c".to_string()), None);
}

#[test]
fn groups_fail_over_by_their_own_settings() {
    let group = |t: u32| GroupConfig {
        failover: FailoverConfig { failure_threshold: t, recovery_timeout: 3600 },
        providers: vec![provider("p", 1, &["m"])],
    };
    let config = Config {
        router: RouterConfig { api_key: "k".into() },
        server: ServerConfig { host: "h".into(), port: 1 },
        groups: vec![("strict".into(), group(1)), ("lenient".into(), group(3)), ("strict".into(), group(5))],
    };
    let mut engine = RoutingEngine::from_config(&config);
    let t = engine.health_tracker_mut();
    t.record_failure("strict", "p", "m");
    assert!(!t.is_healthy("strict", "p", "m"));
    t.record_failure("lenient", "p", "m");
    t.record_failure("lenient", "p", "m");
    assert!(t.is_healthy("lenient", "p", "m"));
    t.record_failure("lenient", "p", "m");
    assert!(!t.is_healthy("lenient", "p", "m"));
    // unconfigured groups: three failures
    t.record_failure("other", "p", "m");
    t.record_failure("other", "p", "m");
    assert!(t.is_healthy("other", "p", "m"));
    t.record_failure("other", "p", "m");
    assert!(!t.is_healthy("other", "p", "m"));
}

#[test]
fn group_failover_added_to_tracker() {
    let mut t = HealthTracker::new(5, 3600);
    t.add_group_failover("g", 1, 0);
    t.add_group_failover("g", 9, 9);
    t.record_failure_at("g", "p", "m", 10);
    // the first settings of the group apply: threshold 1, immediate recovery
    assert!(t.is_healthy_at("g", "p", "m", 10));
    t.record_failure_at("h", "p", "m", 10);
    assert!(t.is_healthy_at("h", "p", "m", 10));
}

#[test]
fn retries_on_one_provider_are_bounded() {
    // threshold 2, two models: at most 2 * 2 failed attempts before moving on
    let mut engine = RoutingEngine::new(HealthTracker::new(2, 3600));
    let plan = RoutePlan::new("g", vec![provider("p", 1, &["m1", "m2"]), provider("q", 2, &[])], None);
    let available = vec!["p".to_string(), "q".to_string()];
    let mut start = 0;
    let mut attempts_on_p = 0;
    loop {
        let a = engine.next_attempt_at(&plan, &available, start, 7).unwrap();
        if a.position != 0 {
            break;
        }
        attempts_on_p += 1;
        start = engine.attempt_failed_at(&plan, &a, 7);
    }
    assert_eq!(attempts_on_p, 4);
}

#[test]
fn retries_bounded_across_readings() {
    // threshold 1, two models; the readings move on, the deadline stays ahead
    let mut engine = RoutingEngine::new(HealthTracker::new(1, 60));
    let plan = RoutePlan::new("g", vec![provider("p", 1, &["m1", "m2"]), provider("q", 2, &[])], None);
    let available = vec!["p".to_string(), "q".to_string()];
    let a = engine.next_attempt_at(&plan, &available, 0, 0).unwrap();
    assert_eq!((a.position, a.model.as_str()), (0, "m1"));
    let start = engine.attempt_failed_at(&plan, &a, 1);
    let b = engine.next_attempt_at(&plan, &available, start, 2).unwrap();
    assert_eq!((b.position, b.model.as_str()), (0, "m2"));
    let start = engine.attempt_failed_at(&plan, &b, 3);
    let c = engine.next_attempt_at(&plan, &available, start, 4).unwrap();
    assert_eq!((c.position, c.implementation), (1, 1));
    // past the deadline the first model is tried again
    let d = engine.next_attempt_at(&plan, &available, 0, 1 + 60_000_000_000).unwrap();
    assert_eq!((d.position, d.model.as_str()), (0, "m1"));
}
