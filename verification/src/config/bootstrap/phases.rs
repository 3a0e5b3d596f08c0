//! The phases of bootstrap and the bootstrap configuration file.
use vstd::prelude::*;
use vstd::hash_map::StringHashMap;

use crate::config::error::Error;
use crate::config::log_level::LogLevel;
use crate::config::supervise::processes::is_validation_result;
use crate::modules::{is_check_result, ModulesConfig};
use super::handoff::{HandoffConfig, HandoffMode};
use super::mount::MountSpecConfig;
use super::script::HookSpecConfig;
use super::system::{
    ClockConfig, NetworkConfig, SecurityConfig, ShutdownConfig, SymlinkConfig, TmpfileConfig,
};

verus! {

/// What happens before switching to the real root file system.
#[derive(Clone, Debug, PartialEq)]
pub struct PreSwitchConfig {
    pub modules: Option<ModulesConfig>,
    pub network: Option<NetworkConfig>,
    pub mounts: Vec<MountSpecConfig>,
    pub hooks: Vec<HookSpecConfig>,
    pub environment: Vec<(String, String)>,
    pub symlinks: Vec<SymlinkConfig>,
    pub sysctl: Vec<(String, String)>,
    pub tmpfiles: Option<TmpfileConfig>,
    pub security: Option<SecurityConfig>,
    pub clock: Option<ClockConfig>,
}

impl Default for PreSwitchConfig {
    fn default() -> (c: Self)
        ensures
            c.modules is None && c.network is None && c.mounts@.len() == 0 && c.hooks@.len() == 0
                && c.environment@.len() == 0 && c.symlinks@.len() == 0 && c.sysctl@.len() == 0
                && c.tmpfiles is None && c.security is None && c.clock is None,
    {
        PreSwitchConfig {
            modules: None,
            network: None,
            mounts: Vec::new(),
            hooks: Vec::new(),
            environment: Vec::new(),
            symlinks: Vec::new(),
            sysctl: Vec::new(),
            tmpfiles: None,
            security: None,
            clock: None,
        }
    }
}

/// The switch to the real root file system.
#[derive(Clone, Debug, PartialEq, Eq)]
pub struct SwitchRootConfig {
    pub root_file_system: MountSpecConfig,
}

/// What happens after switching to the real root file system.
#[derive(Clone, Debug, PartialEq)]
pub struct PostSwitchConfig {
    pub modules: Option<ModulesConfig>,
    pub network: Option<NetworkConfig>,
    pub mounts: Vec<MountSpecConfig>,
    pub hooks: Vec<HookSpecConfig>,
    pub environment: Vec<(String, String)>,
    pub symlinks: Vec<SymlinkConfig>,
    pub sysctl: Vec<(String, String)>,
    pub tmpfiles: Option<TmpfileConfig>,
    pub security: Option<SecurityConfig>,
    pub clock: Option<ClockConfig>,
    pub handoff: HandoffConfig,
    pub shutdown: Option<ShutdownConfig>,
}

/// The bootstrap configuration file.
#[derive(Clone, Debug, PartialEq)]
pub struct BootstrapConfig {
    pub console: String,
    pub log_level: LogLevel,
    pub pre_switch: PreSwitchConfig,
    pub switch_root: SwitchRootConfig,
    pub post_switch: PostSwitchConfig,
}

/// The default console device: `console`.
pub fn default_console() -> (c: String)
    ensures
        c@ == "console"@,
{
    String::from_str("console")
}

/// The outcome of checking modules against the dependency map read for
/// them, when one was read.
pub open spec fn modules_check(
    modules: Option<ModulesConfig>,
    dep_map: Option<&StringHashMap<Vec<String>>>,
    r: Result<(), Error>,
) -> bool {
    match (modules, dep_map) {
        (Some(m), Some(map)) => match m.ordered_names() {
            Some(ns) => is_check_result(map@, ns, r),
            None => r is Ok,
        },
        _ => r is Ok,
    }
}

/// Checking modules against the dependency map read for them succeeds.
pub open spec fn modules_ok(
    modules: Option<ModulesConfig>,
    dep_map: Option<&StringHashMap<Vec<String>>>,
) -> bool {
    match (modules, dep_map) {
        (Some(m), Some(map)) => match m.ordered_names() {
            Some(ns) => forall|k: int| 0 <= k < ns.len() ==> map@.contains_key(#[trigger] ns[k]),
            None => true,
        },
        _ => true,
    }
}

/// Checks modules against the dependency map read for them, when one was.
fn validate_modules(modules: &Option<ModulesConfig>, dep_map: Option<&StringHashMap<Vec<String>>>) -> (r:
    Result<(), Error>)
    ensures
        modules_check(*modules, dep_map, r),
{
    match (modules, dep_map) {
        (Some(m), Some(map)) => m.validate_names(map),
        _ => Ok(()),
    }
}

impl BootstrapConfig {
    /// The hand-off that ends bootstrap.
    pub fn handoff_mode(&self) -> (m: &HandoffMode)
        ensures
            *m == self.post_switch.handoff.mode,
    {
        &self.post_switch.handoff.mode
    }

    /// Checks the phase before the root switch, once the dependency file of
    /// its modules (when they name one) has been read into `dep_map`.
    pub fn validate_pre_switch(&self, dep_map: Option<&StringHashMap<Vec<String>>>) -> (r: Result<
        (),
        Error,
    >)
        ensures
            modules_check(self.pre_switch.modules, dep_map, r),
    {
        validate_modules(&self.pre_switch.modules, dep_map)
    }

    /// Checks the phase after the root switch, once the dependency file of
    /// its modules (when they name one) has been read into `dep_map`: the
    /// modules, then the hand-off.
    pub fn validate_post_switch(&self, dep_map: Option<&StringHashMap<Vec<String>>>) -> (r: Result<
        (),
        Error,
    >)
        requires
            self.post_switch.handoff.wf(),
        ensures
            if !modules_ok(self.post_switch.modules, dep_map) {
                modules_check(self.post_switch.modules, dep_map, r)
            } else {
                match self.post_switch.handoff.mode {
                    HandoffMode::Supervise { config } => is_validation_result(
                        config.processes@,
                        r,
                    ),
                    _ => r is Ok,
                }
            },
    {
        match validate_modules(&self.post_switch.modules, dep_map) {
            Ok(()) => {},
            Err(e) => {
                return Err(e);
            },
        }
        self.post_switch.handoff.validate()
    }
}

} // verus!
