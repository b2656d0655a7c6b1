use llm_api_router::config::{
    default_failure_threshold, default_host, default_port, default_recovery_timeout, default_ssl_verify,
    env_var_name, expand_env, Config, FailoverConfig, GroupConfig, ProviderConfig, RouterConfig, ServerConfig,
};
use llm_api_router::error::RouterError;

fn config() -> Config {
    let group = |n: &str| GroupConfig {
        failover: FailoverConfig { failure_threshold: 3, recovery_timeout: 60 },
        providers: vec![ProviderConfig {
            name: n.to_string(),
            endpoint: "http://x/v1".to_string(),
            api_key: "k".to_string(),
            priority: 1,
            ssl_verify: true,
            models: vec![],
        }],
    };
    Config {
        router: RouterConfig { api_key: "sk".to_string() },
        server: ServerConfig { host: default_host(), port: default_port() },
        groups: vec![
            ("production".to_string(), group("first")),
            ("staging".to_string(), group("second")),
            ("production".to_string(), group("third")),
        ],
    }
}

#[test]
fn defaults() {
    assert_eq!(default_host(), "0.0.0.0");
    assert_eq!(default_port(), 8080);
    assert!(default_ssl_verify());
    assert_eq!(default_failure_threshold(), 3);
    assert_eq!(default_recovery_timeout(), 60);
    let f = FailoverConfig::default();
    assert_eq!((f.failure_threshold, f.recovery_timeout), (3, 60));
}

#[test]
fn env_references() {
    assert_eq!(env_var_name("${OPENAI_API_KEY}"), Some("OPENAI_API_KEY".to_string()));
    assert_eq!(env_var_name("${}"), Some(String::new()));
    assert_eq!(env_var_name("${"), None);
    assert_eq!(env_var_name("${X"), None);
    assert_eq!(env_var_name("$X}"), None);
    assert_eq!(env_var_name("plain"), None);
    assert_eq!(env_var_name(""), None);
}

#[test]
fn env_expansion() {
    assert_eq!(expand_env("${KEY}", Some("secret".to_string())), "secret");
    assert_eq!(expand_env("${KEY}", None), "${KEY}");
    assert_eq!(expand_env("not-needed", Some("ignored".to_string())), "not-needed");
}

#[test]
fn group_lookup_takes_first_match() {
    let c = config();
    assert_eq!(c.find_group("production").unwrap().providers[0].name, "first");
    assert_eq!(c.find_group("staging").unwrap().providers[0].name, "second");
    match c.find_group("missing") {
        Err(RouterError::Config(msg)) => assert_eq!(msg, "Group 'missing' not found in configuration"),
        _ => panic!("expected a configuration error"),
    }
}

#[test]
fn group_position_finds_the_group() {
    let c = config();
    let i = c.group_position("staging").unwrap();
    assert_eq!(c.groups[i].0, "staging");
    assert_eq!(c.groups[i].1.providers[0].name, "second");
    match c.group_position("missing") {
        Err(RouterError::Config(msg)) => assert_eq!(msg, "Group 'missing' not found in configuration"),
        _ => panic!("expected a configuration error"),
    }
}
