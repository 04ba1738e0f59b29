//! Configuration from the environment.

use bytemaker::agent::AgentConfig;
use bytemaker::config::{Config, Environment};
use bytemaker::error::AgentError;

fn environment(api_key: Option<&str>) -> Environment {
    Environment {
        api_key: api_key.map(|k| k.to_string()),
        base_url: None,
        model: None,
        skills_dir: None,
        cwd: "/work".to_string(),
    }
}

#[test]
fn from_env_errors_when_api_key_missing() {
    let err = Config::from_env(environment(None)).unwrap_err();
    assert!(matches!(err, AgentError::Validation(_)));
}

#[test]
fn from_env_errors_when_api_key_empty() {
    let err = Config::from_env(environment(Some("   "))).unwrap_err();
    assert!(matches!(err, AgentError::Validation(_)));
}

#[test]
fn from_env_ok_with_defaults() {
    let cfg = Config::from_env(environment(Some("sk-test"))).expect("valid config");
    assert_eq!(cfg.api_key, "sk-test");
    assert_eq!(cfg.base_url, "https://api.openai.com/v1");
    assert_eq!(cfg.model, "gpt-4.1");
}

#[test]
fn given_values_are_kept() {
    let mut env = environment(Some("k"));
    env.base_url = Some("http://localhost:1".to_string());
    env.model = Some("m".to_string());
    env.skills_dir = Some("/skills".to_string());
    let cfg = Config::from_env(env).expect("valid config");
    assert_eq!(cfg.base_url, "http://localhost:1");
    assert_eq!(cfg.model, "m");
    assert_eq!(cfg.skills_dir, "/skills");
    assert_eq!(cfg.workdir, "/work");
    let agent = AgentConfig::from_config(cfg);
    assert_eq!(agent.model, "m");
}
