use llm_api_router::health::{HealthTracker, ProviderKey};

#[test]
fn test_health_tracker_per_model() {
    // per (group, provider, model) tracking
    let mut tracker = HealthTracker::new(3, 60);

    assert!(tracker.is_healthy("production", "primary", "gpt-4o"));
    assert!(tracker.is_healthy("production", "primary", "gpt-4o-mini"));
    assert!(tracker.is_healthy("staging", "primary", "gpt-4o"));

    tracker.record_failure("production", "primary", "gpt-4o");
    tracker.record_failure("production", "primary", "gpt-4o");

    assert!(tracker.is_healthy("production", "primary", "gpt-4o"));
    assert!(tracker.is_healthy("production", "primary", "gpt-4o-mini"));

    tracker.record_failure("production", "primary", "gpt-4o");
    assert!(!tracker.is_healthy("production", "primary", "gpt-4o"));

    assert!(tracker.is_healthy("production", "primary", "gpt-4o-mini"));

    tracker.record_success("production", "primary", "gpt-4o");
    assert!(tracker.is_healthy("production", "primary", "gpt-4o"));
}

#[test]
fn test_provider_key_equality() {
    let key1 = ProviderKey::new("production", "primary", "gpt-4o");
    let key2 = ProviderKey::new("production", "primary", "gpt-4o");
    assert_eq!(key1, key2);

    let key3 = ProviderKey::new("staging", "primary", "gpt-4o");
    assert_ne!(key1, key3);

    let key4 = ProviderKey::new("production", "secondary", "gpt-4o");
    assert_ne!(key1, key4);

    let key5 = ProviderKey::new("production", "primary", "gpt-4o-mini");
    assert_ne!(key1, key5);
}

#[test]
fn test_config_groups_structure() {
    let config_content = r#"
router:
  api_key: "sk-test-key"
server:
  host: "127.0.0.1"
  port: 9090
groups:
  production:
    failover:
      failure_threshold: 5
      recovery_timeout: 30
    providers:
      - name: "primary"
        endpoint: "https://api.openai.com/v1"
        api_key: "${OPENAI_API_KEY}"
        priority: 1
        ssl_verify: true
      - name: "fallback"
        endpoint: "http://localhost:8000/v1"
        api_key: "not-needed"
        priority: 2
        ssl_verify: false
  staging:
    failover:
      failure_threshold: 3
      recovery_timeout: 60
    providers:
      - name: "staging-primary"
        endpoint: "https://api.openai.com/v1"
        api_key: "${OPENAI_API_KEY}"
        priority: 1
        ssl_verify: true
"#;

    let config: serde_yaml::Value = serde_yaml::from_str(config_content).unwrap();

    assert_eq!(config["router"]["api_key"], "sk-test-key");

    assert_eq!(config["server"]["host"], "127.0.0.1");
    assert_eq!(config["server"]["port"], 9090);

    assert!(config["groups"]["production"].is_mapping());
    assert!(config["groups"]["staging"].is_mapping());

    assert_eq!(
        config["groups"]["production"]["failover"]["failure_threshold"],
        5
    );
    assert_eq!(
        config["groups"]["production"]["failover"]["recovery_timeout"],
        30
    );
    assert_eq!(
        config["groups"]["production"]["providers"]
            .as_sequence()
            .unwrap()
            .len(),
        2
    );

    let primary = &config["groups"]["production"]["providers"][0];
    assert_eq!(primary["name"], "primary");
    assert_eq!(primary["ssl_verify"], true);

    let fallback = &config["groups"]["production"]["providers"][1];
    assert_eq!(fallback["name"], "fallback");
    assert_eq!(fallback["ssl_verify"], false);
}
