use ocelot::config::supervise::processes::process_warnings;
use ocelot::cli::zombie_report;
use ocelot::config::bootstrap::mount::{
    AtimeMode, MountFailurePolicy, MountFlags, MountSource, MountSpecConfig,
};
use ocelot::config::bootstrap::system::RootConfig;
use ocelot::config::error::{Error, ValidationError};
use ocelot::config::format::{decimal_string, join_strings, signed_decimal_string};
use ocelot::config::supervise::process::{
    LogCompression, LogConfig, LogDestination, LogRotationConfig, LogStreamConfig, ProcessConfig,
    ShutdownSignalConfig, signal_or_sigterm,
};
use ocelot::config::supervise::SuperviseConfig;
use ocelot::config::log_level::LogLevel;
use ocelot::config::time::TimeSpan;
use ocelot::graph::DiGraph;

fn process(program: &str) -> ProcessConfig {
    ProcessConfig {
        program: program.to_string(),
        arguments: vec![],
        environment_variables: vec![],
        working_directory: None,
        depends_on: vec![],
        readiness_probe: None,
        liveness_probe: None,
        restart_policy: None,
        shutdown_signal: None,
        termination_grace_period: TimeSpan::from_secs(60),
        log: None,
    }
}

fn rotating(destination: LogDestination, r: LogRotationConfig) -> LogStreamConfig {
    LogStreamConfig { destination, rotation: Some(r) }
}

fn rotation(size: Option<u64>, interval: Option<TimeSpan>) -> LogRotationConfig {
    LogRotationConfig {
        max_size_bytes: size,
        rotation_interval: interval,
        max_files: None,
        max_age_days: None,
        mode: None,
        compression: LogCompression::Gzip,
    }
}

#[test]
fn test_messages_of_each_error() {
    let cases: Vec<(ValidationError, &str)> = vec![
        (
            ValidationError::CyclicDependency { cycle: vec!["a".into(), "b".into(), "a".into()] },
            "Cyclic dependency detected: a → b → a",
        ),
        (
            ValidationError::MissingDependency { process: "app".into(), depends_on: "db".into() },
            "Process 'app' depends on non-existent process 'db'",
        ),
        (ValidationError::InvalidVersion { version: "2.0".into() }, "Unsupported config version '2.0'"),
        (
            ValidationError::InvalidLogRotation { field: "stdout.maxFiles".into(), value: -12 },
            "Log rotation field 'stdout.maxFiles' must be positive, got -12",
        ),
        (
            ValidationError::InvalidProbeTimeout { timeout: 15, period: 10 },
            "Probe timeout (15s) must not exceed period (10s)",
        ),
        (ValidationError::InvalidProbePort { port: 0 }, "Probe port 0 is out of valid range (1-65535)"),
        (
            ValidationError::InvalidRestartBackoff { backoff: 0 },
            "Restart policy backoff must be positive, got 0s",
        ),
        (
            ValidationError::InvalidTerminationGracePeriod { value: 0 },
            "Termination grace period must be positive, got 0s",
        ),
        (
            ValidationError::MissingProcessProgram { process: "app".into() },
            "Process 'app' is missing required 'program' field",
        ),
        (
            ValidationError::DuplicateEnvironmentVariables {
                process: "app".into(),
                variables: vec!["FOO".into(), "BAR".into()],
            },
            "Process 'app' has duplicate environment variables: FOO, BAR",
        ),
        (
            ValidationError::InvalidRotationConfiguration { reason: "why".into() },
            "Invalid rotation configuration: why",
        ),
        (ValidationError::ModuleNotFound { name: "x.ko".into() }, "Module not found: x.ko"),
    ];
    for (e, text) in cases {
        assert_eq!(e.message(), text);
    }
    let e = Error::Validate { source: ValidationError::InvalidVersion { version: "0".into() } };
    assert_eq!(e.message(), "Configuration validation failed: Unsupported config version '0'");
    assert_eq!(Error::InvalidConfig { message: "m".into() }.message(), "m");
}

#[test]
fn test_decimal_rendering() {
    assert_eq!(decimal_string(0), "0");
    assert_eq!(decimal_string(1234567890), "1234567890");
    assert_eq!(decimal_string(u64::MAX), u64::MAX.to_string());
    assert_eq!(signed_decimal_string(-7), "-7");
    assert_eq!(signed_decimal_string(i64::MIN), i64::MIN.to_string());
    assert_eq!(join_strings(&vec![], ", "), "");
    assert_eq!(join_strings(&vec!["x".to_string()], ", "), "x");
}

#[test]
fn test_unsupported_version_comes_first() {
    let config = SuperviseConfig {
        version: "2.0".to_string(),
        log_level: LogLevel::Info,
        processes: vec![("app".to_string(), process(""))],
        shutdown_timeout_secs: 60,
    };
    assert_eq!(
        config.validate(),
        Err(Error::Validate { source: ValidationError::InvalidVersion { version: "2.0".into() } })
    );
}

#[test]
fn test_missing_dependency_comes_before_process_faults() {
    let mut a = process("");
    a.depends_on = vec![("ghost".to_string(), Default::default())];
    let config = SuperviseConfig {
        version: "1.0".to_string(),
        log_level: LogLevel::Info,
        processes: vec![("a".to_string(), a)],
        shutdown_timeout_secs: 60,
    };
    assert_eq!(
        config.validate(),
        Err(Error::Validate {
            source: ValidationError::MissingDependency {
                process: "a".into(),
                depends_on: "ghost".into()
            }
        })
    );
}

#[test]
fn test_sub_second_spans() {
    let mut p = process("/bin/app");
    p.termination_grace_period = TimeSpan { secs: 0, nanos: 500_000_000 };
    assert!(p.validate("app").is_ok());
    p.log = Some(LogConfig {
        stdout: rotating(
            LogDestination::File { path: "/log".into() },
            rotation(None, Some(TimeSpan { secs: 0, nanos: 500_000_000 })),
        ),
        stderr: LogStreamConfig::default(),
    });
    assert_eq!(
        p.validate("app"),
        Err(Error::Validate {
            source: ValidationError::InvalidLogRotation {
                field: "stdout.rotationInterval".into(),
                value: 0
            }
        })
    );
}

#[test]
fn test_rotation_needs_size_or_interval() {
    let mut p = process("/bin/app");
    let mut r = rotation(None, None);
    r.max_files = Some(3);
    p.log = Some(LogConfig {
        stdout: LogStreamConfig::default(),
        stderr: rotating(LogDestination::File { path: "/log".into() }, r),
    });
    assert_eq!(
        p.validate("app"),
        Err(Error::Validate {
            source: ValidationError::InvalidRotationConfiguration {
                reason: "stderr: at least one of maxSizeBytes or rotationInterval must be > 0"
                    .into()
            }
        })
    );
}

#[test]
fn test_rotation_warnings_for_streams_that_are_not_files() {
    let mut p = process("/bin/app");
    p.log = Some(LogConfig {
        stdout: rotating(LogDestination::Inherit, rotation(Some(10), None)),
        stderr: rotating(LogDestination::Null, rotation(None, Some(TimeSpan::from_secs(60)))),
    });
    assert!(p.validate("app").is_ok());
    assert_eq!(
        p.rotation_warnings("app"),
        vec![
            "Warning: Process 'app' has rotation configured for stdout stream but destination is Inherit; rotation will have no effect.".to_string(),
            "Warning: Process 'app' has rotation configured for stderr stream but destination is Null; rotation will have no effect.".to_string(),
        ]
    );
    p.log = Some(LogConfig {
        stdout: rotating(LogDestination::File { path: "/log".into() }, rotation(Some(10), None)),
        stderr: LogStreamConfig::default(),
    });
    assert!(p.rotation_warnings("app").is_empty());
}

#[test]
fn test_get_env_returns_first_match() {
    let mut p = process("/bin/app");
    p.environment_variables = vec![
        ("A".into(), "1".into()),
        ("B".into(), "2".into()),
        ("A".into(), "3".into()),
    ];
    assert_eq!(p.get_env("A"), Some(&"1".to_string()));
    assert_eq!(p.get_env("C"), None);
}

#[test]
fn test_duplicate_keys_listed_per_repetition() {
    let mut p = process("/bin/app");
    p.environment_variables = vec![
        ("A".into(), "1".into()),
        ("A".into(), "2".into()),
        ("B".into(), "3".into()),
        ("A".into(), "4".into()),
    ];
    assert_eq!(
        p.validate("svc"),
        Err(Error::Validate {
            source: ValidationError::DuplicateEnvironmentVariables {
                process: "svc".into(),
                variables: vec!["A".into(), "A".into()]
            }
        })
    );
}

#[test]
fn test_unknown_signal_number_falls_back_to_sigterm() {
    assert_eq!(ShutdownSignalConfig::Number(200).to_signal(), 15);
    assert_eq!(ShutdownSignalConfig::default(), ShutdownSignalConfig::Sigterm);
    assert_eq!(signal_or_sigterm(None), 15);
    assert_eq!(signal_or_sigterm(Some(9)), 9);
}

#[test]
fn test_mount_spec_defaults() {
    let flags = MountFlags::default();
    let nine = MountSpecConfig::NineP {
        target: "/dev".into(),
        tag: "dev".into(),
        fstype: None,
        overlay: true,
        options: None,
        flags,
    }
    .to_mount_spec();
    assert_eq!(nine.fstype, "9p");
    assert!(nine.overlay);
    assert_eq!(nine.flags, 0);
    assert_eq!(nine.on_failure, MountFailurePolicy::Warn);
    let nfs = MountSpecConfig::Nfs {
        target: "/mnt".into(),
        server: "host".into(),
        export: "/export".into(),
        fstype: None,
        options: Some("soft".into()),
        flags,
    }
    .to_mount_spec();
    assert_eq!(nfs.fstype, "nfs");
    assert_eq!(nfs.source, MountSource::Nfs { server: "host".into(), export: "/export".into() });
    assert_eq!(nfs.options, Some("soft".to_string()));
    let virt = MountSpecConfig::Virtual {
        target: "/tmp".into(),
        fstype: "tmpfs".into(),
        options: None,
        flags: MountFlags { atime: AtimeMode::RelAtime, ..flags },
    }
    .to_mount_spec();
    assert_eq!(virt.source, MountSource::Virtual);
    assert!(!virt.overlay);
    assert_eq!(virt.flags, 0x200000);
}

#[test]
fn test_root_overlay_only_when_asked() {
    assert!(!RootConfig::Virtiofs { tag: "t".into(), overlay: None, options: None }.overlay());
    assert!(RootConfig::NineP { tag: "t".into(), fstype: None, overlay: Some(true), options: None }
        .overlay());
    assert!(!RootConfig::Block {
        device: "/dev/vda".into(),
        fstype: "ext4".into(),
        overlay: Some(false),
        options: None
    }
    .overlay());
}

#[test]
fn test_zombie_report_lines() {
    let stats = vec![
        (1, 'S', "init".to_string()),
        (42, 'Z', "defunct".to_string()),
        (1234567, 'Z', "x".to_string()),
    ];
    assert_eq!(
        zombie_report(&stats),
        vec![
            format!("[ZOMBIE FOUND] PID: {:<6} Command: {}", 42, "defunct"),
            format!("[ZOMBIE FOUND] PID: {:<6} Command: {}", 1234567, "x"),
        ]
    );
    assert!(zombie_report(&vec![(7, 'R', "a".to_string())]).is_empty());
}

#[test]
fn test_added_node_is_found() {
    let mut graph: DiGraph<String> = DiGraph::with_capacity(2);
    let a = graph.add_node("a", "label-a".to_string());
    let b = graph.add_node("b", "label-b".to_string());
    assert_eq!((a, b), (0, 1));
    assert_eq!(graph.get_id("b"), Some(1));
    assert_eq!(graph.get_label(a), Some(&"label-a".to_string()));
    graph.add_edge("a", "b");
    assert!(graph.has_edge(0, 1));
    assert!(!graph.has_edge(1, 0));
    assert!(!graph.has_edge(5, 0));
    assert_eq!(graph.neighbors(0), &[1]);
    assert_eq!(graph.neighbors(9).len(), 0);
    assert_eq!(DiGraph::<String>::default().node_count(), 0);
}

#[test]
fn test_dag_components_are_single_nodes() {
    let mut graph: DiGraph<String> = DiGraph::new();
    for name in ["a", "b", "c", "d"] {
        let _ = graph.add_node(name, name.to_string());
    }
    graph.add_edge("a", "b");
    graph.add_edge("b", "c");
    graph.add_edge("a", "d");
    assert!(graph.kosaraju_scc().iter().all(|c| c.len() == 1));
    let order = graph.topological_order();
    let pos = |n: &str| order.iter().position(|l| l == n).unwrap();
    assert!(pos("b") < pos("a") && pos("c") < pos("b") && pos("d") < pos("a"));
}

#[test]
fn test_fixed_signals_by_name_and_number() {
    let named = |n: &str| ShutdownSignalConfig::Name(n.to_string()).to_signal();
    assert_eq!(named("SIGHUP"), 1);
    assert_eq!(named("SIGINT"), 2);
    assert_eq!(named("SIGQUIT"), 3);
    assert_eq!(named("SIGKILL"), 9);
    assert_eq!(named("SIGTERM"), 15);
    assert_eq!(named("sigkill"), 15);
    assert_eq!(ShutdownSignalConfig::Number(1).to_signal(), 1);
    assert_eq!(ShutdownSignalConfig::Number(3).to_signal(), 3);
    assert_eq!(ShutdownSignalConfig::Number(15).to_signal(), 15);
    assert_eq!(ShutdownSignalConfig::Number(0).to_signal(), 15);
}

#[test]
fn test_process_warnings_stop_at_the_first_failing_process() {
    let mut warned = process("/bin/a");
    warned.log = Some(LogConfig {
        stdout: rotating(LogDestination::Inherit, rotation(Some(10), None)),
        stderr: LogStreamConfig::default(),
    });
    let broken = process("");
    let ps = vec![
        ("a".to_string(), warned.clone()),
        ("b".to_string(), broken),
        ("c".to_string(), warned),
    ];
    assert_eq!(
        process_warnings(&ps),
        vec!["Warning: Process 'a' has rotation configured for stdout stream but destination is Inherit; rotation will have no effect.".to_string()]
    );
}
