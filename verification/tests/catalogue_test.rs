use llm_api_router::config::{Config, FailoverConfig, GroupConfig, ProviderConfig, RouterConfig, ServerConfig};
use llm_api_router::error::RouterError;
use llm_api_router::server::handlers::{find_model, list_models};

fn provider(name: &str, models: &[&str]) -> ProviderConfig {
    ProviderConfig {
        name: name.to_string(),
        endpoint: "http://x/v1".to_string(),
        api_key: "k".to_string(),
        priority: 1,
        ssl_verify: true,
        models: models.iter().map(|m| m.to_string()).collect(),
    }
}

fn config() -> Config {
    let group = |ps: Vec<ProviderConfig>| GroupConfig {
        failover: FailoverConfig { failure_threshold: 3, recovery_timeout: 60 },
        providers: ps,
    };
    Config {
        router: RouterConfig { api_key: "sk".into() },
        server: ServerConfig { host: "h".into(), port: 1 },
        groups: vec![
            ("production".to_string(), group(vec![provider("primary", &["gpt-4o", "gpt-4o-mini"]), provider("local", &[])])),
            ("staging".to_string(), group(vec![provider("stage", &["gpt-4o"])])),
            ("empty".to_string(), group(vec![])),
        ],
    }
}

#[test]
fn listing_is_sorted_deduplicated_first_owner() {
    let r = list_models(&config(), 1700);
    assert_eq!(r.object, "list");
    let ids: Vec<&str> = r.data.iter().map(|m| m.id.as_str()).collect();
    assert_eq!(ids, vec!["gpt-4o", "gpt-4o-mini", "production"]);
    assert_eq!(r.data[0].owned_by, "primary");
    assert_eq!(r.data[2].owned_by, "local");
    assert_eq!(r.data[2].root.as_deref(), Some("production"));
    for m in &r.data {
        assert_eq!(m.object, "model");
        assert_eq!(m.created, 1700);
        assert_eq!(m.model_type.as_deref(), Some("chat"));
        assert!(m.parent.is_none() && m.permission.is_none() && m.capabilities.is_none());
    }
}

#[test]
fn lookup_by_model_or_group() {
    let c = config();
    let m = find_model(&c, "gpt-4o", 5).unwrap();
    assert_eq!((m.id.as_str(), m.owned_by.as_str(), m.root.as_deref()), ("gpt-4o", "primary", Some("gpt-4o")));
    let g = find_model(&c, "staging", 5).unwrap();
    assert_eq!((g.owned_by.as_str(), g.root.as_deref()), ("stage", Some("staging")));
    // a group without providers offers nothing
    match find_model(&c, "empty", 5) {
        Err(RouterError::NotFound(msg)) => assert_eq!(msg, "Model 'empty' not found"),
        _ => panic!("expected NotFound"),
    }
}
