use ocelot::config::supervise::links::supervisor_dependencies;
use nix::sys::signal::Signal;
use ocelot::config::bootstrap::handoff::{BootstrapSuperviseConfig, HandoffConfig, HandoffMode};
use ocelot::config::error::{Error, ValidationError};
use ocelot::config::log_level::LogLevel;
use ocelot::config::supervise::dependency::{DependencyCondition, DependencyConfig};
use ocelot::config::supervise::probe::{ProbeConfig, ProbeHandlerConfig};
use ocelot::config::supervise::process::{
    LogCompression, LogConfig, LogDestination, LogRotationConfig, LogStreamConfig, ProcessConfig,
    ShutdownSignalConfig,
};
use ocelot::config::supervise::restart::RestartPolicyConfig;
use ocelot::config::supervise::SuperviseConfig;
use ocelot::config::time::TimeSpan;

fn secs(s: u64) -> TimeSpan {
    TimeSpan::from_secs(s)
}

fn process(program: &str) -> ProcessConfig {
    ProcessConfig {
        program: program.to_string(),
        arguments: vec![],
        environment_variables: vec![],
        working_directory: None,
        depends_on: vec![],
        readiness_probe: None,
        liveness_probe: None,
        restart_policy: None,
        shutdown_signal: None,
        termination_grace_period: secs(60),
        log: None,
    }
}

fn depending_on(program: &str, deps: &[&str]) -> ProcessConfig {
    let mut p = process(program);
    p.depends_on = deps
        .iter()
        .map(|d| {
            (d.to_string(), DependencyConfig { condition: Some(DependencyCondition::Started) })
        })
        .collect();
    p
}

fn supervise(processes: Vec<(&str, ProcessConfig)>) -> SuperviseConfig {
    SuperviseConfig {
        version: "1.0".to_string(),
        log_level: LogLevel::Info,
        processes: processes.into_iter().map(|(n, p)| (n.to_string(), p)).collect(),
        shutdown_timeout_secs: 60,
    }
}

fn rotation() -> LogRotationConfig {
    LogRotationConfig {
        max_size_bytes: None,
        rotation_interval: None,
        max_files: None,
        max_age_days: None,
        mode: None,
        compression: LogCompression::default(),
    }
}

fn with_stdout_rotation(r: LogRotationConfig) -> ProcessConfig {
    let mut p = process("/usr/bin/app");
    p.log = Some(LogConfig {
        stdout: LogStreamConfig {
            destination: LogDestination::File { path: "/var/log/app/stdout.log".to_string() },
            rotation: Some(r),
        },
        stderr: LogStreamConfig::default(),
    });
    p
}

fn source_of(err: Error) -> ValidationError {
    match err {
        Error::Validate { source } => source,
        _ => panic!("Wrong error type"),
    }
}

fn probe(handler: ProbeHandlerConfig, period: u64, timeout: u64) -> ProbeConfig {
    ProbeConfig {
        handler,
        initial_delay: secs(5),
        period: secs(period),
        timeout: secs(timeout),
        failure_threshold: 3,
        success_threshold: 1,
    }
}

#[test]
fn test_validate_missing_program() {
    let config = supervise(vec![("app", process(""))]);
    let source = source_of(config.validate().unwrap_err());
    assert!(matches!(source, ValidationError::MissingProcessProgram { .. }));
    if let ValidationError::MissingProcessProgram { process } = source {
        assert_eq!(process, "app");
    }
}

#[test]
fn test_validate_invalid_termination_grace_period() {
    let mut p = process("/usr/bin/app");
    p.termination_grace_period = secs(0);
    let config = supervise(vec![("app", p)]);
    let source = source_of(config.validate().unwrap_err());
    assert!(matches!(source, ValidationError::InvalidTerminationGracePeriod { .. }));
    if let ValidationError::InvalidTerminationGracePeriod { value } = source {
        assert_eq!(value, 0);
    }
}

fn assert_rotation_field(r: LogRotationConfig, expected_field: &str) {
    let config = supervise(vec![("app", with_stdout_rotation(r))]);
    let source = source_of(config.validate().unwrap_err());
    assert!(matches!(source, ValidationError::InvalidLogRotation { .. }));
    if let ValidationError::InvalidLogRotation { field, value } = source {
        assert_eq!(field, expected_field);
        assert_eq!(value, 0);
    }
}

#[test]
fn test_validate_invalid_log_rotation_max_size_zero() {
    let mut r = rotation();
    r.max_size_bytes = Some(0);
    assert_rotation_field(r, "stdout.maxSizeBytes");
}

#[test]
fn test_validate_invalid_log_rotation_interval_zero() {
    let mut r = rotation();
    r.rotation_interval = Some(secs(0));
    assert_rotation_field(r, "stdout.rotationInterval");
}

#[test]
fn test_validate_invalid_log_rotation_max_files_zero() {
    let mut r = rotation();
    r.max_files = Some(0);
    assert_rotation_field(r, "stdout.maxFiles");
}

#[test]
fn test_validate_invalid_log_rotation_max_age_zero() {
    let mut r = rotation();
    r.max_age_days = Some(0);
    assert_rotation_field(r, "stdout.maxAgeDays");
}

#[test]
fn test_validate_log_rotation_both_zero() {
    let mut r = rotation();
    r.max_size_bytes = Some(0);
    r.rotation_interval = Some(secs(0));
    assert_rotation_field(r, "stdout.maxSizeBytes");
}

#[test]
fn test_validate_invalid_probe_timeout() {
    let mut p = process("/usr/bin/app");
    p.readiness_probe = Some(probe(
        ProbeHandlerConfig::HttpGet { host: None, path: "/health".to_string(), port: 8080 },
        10,
        15,
    ));
    let config = supervise(vec![("app", p)]);
    let source = source_of(config.validate().unwrap_err());
    assert!(matches!(source, ValidationError::InvalidProbeTimeout { .. }));
    if let ValidationError::InvalidProbeTimeout { timeout, period } = source {
        assert_eq!(timeout, 15);
        assert_eq!(period, 10);
    }
}

#[test]
fn test_validate_invalid_probe_port() {
    let mut p = process("/usr/bin/app");
    p.readiness_probe = Some(probe(
        ProbeHandlerConfig::HttpGet { host: None, path: "/health".to_string(), port: 0 },
        10,
        1,
    ));
    let config = supervise(vec![("app", p)]);
    let source = source_of(config.validate().unwrap_err());
    assert!(matches!(source, ValidationError::InvalidProbePort { .. }));
    if let ValidationError::InvalidProbePort { port } = source {
        assert_eq!(port, 0);
    }
}

#[test]
fn test_validate_invalid_restart_backoff() {
    let mut p = process("/usr/bin/app");
    p.restart_policy = Some(RestartPolicyConfig::Always { backoff: Some(secs(0)) });
    let config = supervise(vec![("app", p)]);
    let source = source_of(config.validate().unwrap_err());
    assert!(matches!(source, ValidationError::InvalidRestartBackoff { .. }));
    if let ValidationError::InvalidRestartBackoff { backoff } = source {
        assert_eq!(backoff, 0);
    }
}

#[test]
fn test_validate_duplicate_environment_variables() {
    let mut p = process("/usr/bin/app");
    p.environment_variables =
        vec![("FOO".to_string(), "bar".to_string()), ("FOO".to_string(), "baz".to_string())];
    let config = supervise(vec![("app", p)]);
    let source = source_of(config.validate().unwrap_err());
    assert!(matches!(source, ValidationError::DuplicateEnvironmentVariables { .. }));
    if let ValidationError::DuplicateEnvironmentVariables { process, variables } = source {
        assert_eq!(process, "app");
        assert_eq!(variables, vec!["FOO"]);
    }
}

#[test]
fn test_validate_cycle_detection_full_path() {
    let config = supervise(vec![
        ("a", depending_on("/usr/bin/a", &["b"])),
        ("b", depending_on("/usr/bin/b", &["c"])),
        ("c", depending_on("/usr/bin/c", &["a"])),
    ]);
    let source = source_of(config.validate().unwrap_err());
    assert!(matches!(source, ValidationError::CyclicDependency { .. }));
    if let ValidationError::CyclicDependency { cycle } = source {
        assert!(cycle.len() >= 3);
        assert!(cycle.contains(&"a".to_string()));
        assert!(cycle.contains(&"b".to_string()));
        assert!(cycle.contains(&"c".to_string()));
    }
}

#[test]
fn test_validate_successful_config() {
    let mut p = process("/usr/bin/app");
    p.termination_grace_period = secs(30);
    p.environment_variables =
        vec![("FOO".to_string(), "bar".to_string()), ("BAZ".to_string(), "qux".to_string())];
    let config = supervise(vec![("app", p)]);
    assert!(config.validate().is_ok());
}

#[test]
fn test_validate_cycle_detection() {
    let config = supervise(vec![
        ("a", depending_on("/usr/bin/a", &["b"])),
        ("b", depending_on("/usr/bin/b", &["a"])),
    ]);
    assert!(config.validate().is_err());
}

#[test]
fn test_validate_missing_dependency() {
    let config = supervise(vec![("a", depending_on("/usr/bin/a", &["nonexistent"]))]);
    assert!(config.validate().is_err());
}

#[test]
fn test_validate_valid_dependencies() {
    let config = supervise(vec![
        ("a", depending_on("/usr/bin/a", &["b"])),
        ("b", process("/usr/bin/b")),
    ]);
    assert!(config.validate().is_ok());
}

fn bootstrap_handoff(processes: Vec<(&str, ProcessConfig)>) -> HandoffConfig {
    HandoffConfig {
        mode: HandoffMode::Supervise {
            config: BootstrapSuperviseConfig {
                processes: processes.into_iter().map(|(n, p)| (n.to_string(), p)).collect(),
                shutdown_timeout_secs: 30,
            },
        },
        boot_script: None,
    }
}

#[test]
fn test_validate_supervise_with_valid_processes() {
    let handoff = bootstrap_handoff(vec![
        ("init", process("/sbin/init")),
        ("server", depending_on("/usr/bin/server", &["init"])),
    ]);
    assert!(handoff.validate().is_ok());
}

#[test]
fn test_validate_supervise_with_missing_dependency_fails() {
    let handoff = bootstrap_handoff(vec![("app", depending_on("/usr/bin/app", &["missing"]))]);
    let result = handoff.validate();
    assert!(result.is_err());
}

#[test]
fn test_validate_supervise_with_cycle_fails() {
    let handoff = bootstrap_handoff(vec![
        ("a", depending_on("/usr/bin/a", &["b"])),
        ("b", depending_on("/usr/bin/b", &["a"])),
    ]);
    let result = handoff.validate();
    assert!(result.is_err());
}

#[test]
fn test_shutdown_signal_config_sigterm_explicit() {
    let config = ShutdownSignalConfig::Sigterm;
    assert_eq!(config, ShutdownSignalConfig::Sigterm);
    assert_eq!(config.to_signal(), Signal::SIGTERM as i32);
}

#[test]
fn test_shutdown_signal_config_name() {
    let config = ShutdownSignalConfig::Name("SIGTERM".to_string());
    assert!(matches!(config, ShutdownSignalConfig::Name(_)));
    assert_eq!(config.to_signal(), Signal::SIGTERM as i32);
}

#[test]
fn test_shutdown_signal_config_number() {
    let config = ShutdownSignalConfig::Number(9);
    assert!(matches!(config, ShutdownSignalConfig::Number(9)));
    assert_eq!(config.to_signal(), Signal::SIGKILL as i32);
}

#[test]
fn test_shutdown_signal_config_invalid_falls_back_to_sigterm() {
    let config = ShutdownSignalConfig::Name("INVALID".to_string());
    assert_eq!(config.to_signal(), Signal::SIGTERM as i32);
}

#[test]
fn process_test_shutdown_signal_sigterm_explicit() {
    let config = ShutdownSignalConfig::Sigterm;
    assert_eq!(config, ShutdownSignalConfig::Sigterm);
    assert_eq!(config.to_signal(), Signal::SIGTERM as i32);
}

#[test]
fn process_test_shutdown_signal_number() {
    let config = ShutdownSignalConfig::Number(9);
    assert_eq!(config, ShutdownSignalConfig::Number(9));
    assert_eq!(config.to_signal(), Signal::SIGKILL as i32);
}

#[test]
fn process_test_shutdown_signal_number_sigint() {
    let config = ShutdownSignalConfig::Number(2);
    assert_eq!(config, ShutdownSignalConfig::Number(2));
    assert_eq!(config.to_signal(), Signal::SIGINT as i32);
}

#[test]
fn process_test_shutdown_signal_name_sigterm() {
    let config = ShutdownSignalConfig::Name("SIGTERM".to_string());
    assert_eq!(config, ShutdownSignalConfig::Name("SIGTERM".to_string()));
    assert_eq!(config.to_signal(), Signal::SIGTERM as i32);
}

#[test]
fn process_test_shutdown_signal_name_lowercase_full() {
    let config = ShutdownSignalConfig::Name("SIGHUP".to_string());
    assert_eq!(config.to_signal(), Signal::SIGHUP as i32);
}

#[test]
fn process_test_shutdown_signal_name_invalid_fallback() {
    let config = ShutdownSignalConfig::Name("INVALID_SIGNAL".to_string());
    assert_eq!(config.to_signal(), Signal::SIGTERM as i32);
}

#[test]
fn test_validate_reports_a_closed_cycle_of_process_names() {
    let config = supervise(vec![
        ("web", depending_on("/usr/bin/web", &["db"])),
        ("db", depending_on("/usr/bin/db", &["web"])),
        ("log", process("/usr/bin/log")),
    ]);
    let source = source_of(config.validate().unwrap_err());
    match source {
        ValidationError::CyclicDependency { cycle } => {
            assert_eq!(cycle.len(), 3);
            assert_eq!(cycle.first(), cycle.last());
            assert!(cycle.contains(&"web".to_string()) && cycle.contains(&"db".to_string()));
            assert!(!cycle.contains(&"log".to_string()));
        }
        other => panic!("unexpected fault: {other:?}"),
    }
}

#[test]
fn test_validate_seeks_the_cycle_where_the_sort_stopped() {
    // Nodes a, b, c in order; the topological sort meets the cycle at c, and
    // the search from c follows c -> a -> b -> c.
    let config = supervise(vec![
        ("a", depending_on("/usr/bin/a", &["b"])),
        ("b", depending_on("/usr/bin/b", &["c"])),
        ("c", depending_on("/usr/bin/c", &["a"])),
    ]);
    let source = source_of(config.validate().unwrap_err());
    assert_eq!(
        source,
        ValidationError::CyclicDependency {
            cycle: vec!["c".to_string(), "a".to_string(), "b".to_string(), "c".to_string()]
        }
    );
}

#[test]
fn test_validate_self_dependency_is_a_cycle() {
    let config = supervise(vec![("solo", depending_on("/usr/bin/solo", &["solo"]))]);
    let source = source_of(config.validate().unwrap_err());
    assert_eq!(
        source,
        ValidationError::CyclicDependency { cycle: vec!["solo".to_string(), "solo".to_string()] }
    );
}

#[test]
fn test_supervisor_dependencies_read_back_from_the_graph() {
    let mut a = depending_on("/usr/bin/a", &["b", "c", "gone"]);
    a.depends_on[1].1.condition = Some(DependencyCondition::Healthy);
    let config = supervise(vec![
        ("a", a),
        ("b", process("/usr/bin/b")),
        ("c", depending_on("/usr/bin/c", &["b"])),
    ]);
    let links = supervisor_dependencies(&config.processes);
    assert_eq!(links.len(), 3);
    assert_eq!(links[0].0, "a");
    assert_eq!(
        links[0].1,
        vec![
            ("c".to_string(), Some(DependencyCondition::Healthy)),
            ("b".to_string(), Some(DependencyCondition::Started)),
        ]
    );
    assert_eq!(links[1].1, vec![]);
    assert_eq!(links[2].1, vec![("b".to_string(), Some(DependencyCondition::Started))]);
}
