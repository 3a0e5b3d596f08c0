use ocelot::config::bootstrap::handoff::{
    BootstrapSuperviseConfig, HandoffConfig, HandoffMode, ShellConfig,
};
use ocelot::config::bootstrap::mount::{MountFlags, MountSpecConfig};
use ocelot::config::bootstrap::phases::{
    default_console, BootstrapConfig, PostSwitchConfig, PreSwitchConfig, SwitchRootConfig,
};
use ocelot::config::error::{Error, ValidationError};
use ocelot::config::log_level::LogLevel;
use ocelot::config::supervise::dependency::DependencyConfig;
use ocelot::config::supervise::process::ProcessConfig;
use ocelot::config::time::TimeSpan;
use ocelot::modules::depfile::parse_dep_file;
use ocelot::modules::ModulesConfig;

fn program(name: &str, deps: &[&str]) -> ProcessConfig {
    ProcessConfig {
        program: name.to_string(),
        arguments: vec![],
        environment_variables: vec![],
        working_directory: None,
        depends_on: deps
            .iter()
            .map(|d| (d.to_string(), DependencyConfig { condition: None }))
            .collect(),
        readiness_probe: None,
        liveness_probe: None,
        restart_policy: None,
        shutdown_signal: None,
        termination_grace_period: TimeSpan::from_secs(30),
        log: None,
    }
}

fn bootstrap(modules: Option<ModulesConfig>, mode: HandoffMode) -> BootstrapConfig {
    BootstrapConfig {
        console: default_console(),
        log_level: LogLevel::Info,
        pre_switch: PreSwitchConfig { modules: modules.clone(), ..PreSwitchConfig::default() },
        switch_root: SwitchRootConfig {
            root_file_system: MountSpecConfig::Virtual {
                target: "/".to_string(),
                fstype: "tmpfs".to_string(),
                options: None,
                flags: MountFlags::default(),
            },
        },
        post_switch: PostSwitchConfig {
            modules,
            network: None,
            mounts: vec![],
            hooks: vec![],
            environment: vec![],
            symlinks: vec![],
            sysctl: vec![],
            tmpfiles: None,
            security: None,
            clock: None,
            handoff: HandoffConfig { mode, boot_script: None },
            shutdown: None,
        },
    }
}

fn shell() -> HandoffMode {
    HandoffMode::Shell { config: ShellConfig { program: "/bin/sh".to_string(), arguments: vec![] } }
}

#[test]
fn test_bootstrap_phases_pass_without_modules() {
    let config = bootstrap(None, shell());
    assert_eq!(config.console, "console");
    assert!(config.validate_pre_switch(None).is_ok());
    assert!(config.validate_post_switch(None).is_ok());
    assert!(matches!(config.handoff_mode(), HandoffMode::Shell { .. }));
}

#[test]
fn test_bootstrap_phases_report_a_module_missing_from_the_dep_file() {
    let modules = ModulesConfig::List {
        dir: None,
        names: vec!["virtio_net.ko".to_string()],
        dep_file_path: Some("/lib/modules/modules.dep".to_string()),
    };
    let config = bootstrap(Some(modules), shell());
    let map = parse_dep_file(b"kernel/virtio.ko:\n");
    let expected = Err(Error::InvalidConfig {
        message: "Module not found in dep file: virtio_net.ko".to_string(),
    });
    assert_eq!(config.validate_pre_switch(Some(&map)), expected);
    assert_eq!(config.validate_post_switch(Some(&map)), expected);
}

#[test]
fn test_bootstrap_post_switch_checks_the_supervised_processes() {
    let processes = vec![
        ("a".to_string(), program("/bin/a", &["b"])),
        ("b".to_string(), program("/bin/b", &["a"])),
    ];
    let mode = HandoffMode::Supervise {
        config: BootstrapSuperviseConfig { processes, shutdown_timeout_secs: 30 },
    };
    let config = bootstrap(None, mode);
    assert!(config.validate_pre_switch(None).is_ok());
    assert!(matches!(
        config.validate_post_switch(None),
        Err(Error::Validate { source: ValidationError::CyclicDependency { .. } })
    ));
    assert!(matches!(config.handoff_mode(), HandoffMode::Supervise { .. }));
}
