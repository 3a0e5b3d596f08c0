use ocelot::config::supervise::dependency::DependencyCondition;
use ocelot::config::supervise::probe::ProbeHandlerConfig;
use ocelot::config::supervise::restart::RestartPolicyConfig;

#[test]
fn test_restart_policy_default_is_never() {
    let config = RestartPolicyConfig::default();
    assert_eq!(config, RestartPolicyConfig::Never);
}

#[test]
fn test_dependency_condition_default() {
    let condition = DependencyCondition::default();
    assert_eq!(condition, DependencyCondition::Started);
}

#[test]
fn test_probe_handler_default() {
    let handler = ProbeHandlerConfig::default();
    assert_eq!(handler, ProbeHandlerConfig::HttpGet { host: None, path: "/".to_string(), port: 80 });
}
