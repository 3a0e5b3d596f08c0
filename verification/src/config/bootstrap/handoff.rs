//! What bootstrap hands the system to: a supervisor, a shell or a program.
use vstd::prelude::*;

use crate::config::error::{Error, ValidationFault};
use crate::config::supervise::process::ProcessConfig;
use crate::config::supervise::processes::{
    dependency_map, has_process_cycle, is_validation_result, missing_fault, process_names,
    validate_processes,
};
use crate::modules::graph_link::is_found_cycle;
use super::script::BootScriptConfig;

verus! {

/// The processes that bootstrap hands over to the supervisor.
#[derive(Clone, Debug, PartialEq, Eq)]
pub struct BootstrapSuperviseConfig {
    /// The processes by name; each name occurs once.
    pub processes: Vec<(String, ProcessConfig)>,
    pub shutdown_timeout_secs: u64,
}

/// The default time the supervisor waits for processes at shutdown after
/// bootstrap: thirty seconds.
pub fn default_shutdown_timeout() -> (s: u64)
    ensures
        s == 30,
{
    30
}

impl BootstrapSuperviseConfig {
    /// Process names are distinct, as the keys of a map are.
    pub open spec fn wf(self) -> bool {
        process_names(self.processes@).no_duplicates()
    }

    /// Checks the processes: the first dependency that names no process,
    /// else a cycle of dependencies, else the first fault of a process.
    pub fn validate(&self) -> (r: Result<(), Error>)
        requires
            self.wf(),
        ensures
            is_validation_result(self.processes@, r),
            missing_fault(process_names(self.processes@), self.processes@) is None
                && has_process_cycle(self.processes@) ==> (r matches Err(Error::Validate { source })
                && (source@ matches ValidationFault::CyclicDependency { cycle } && is_found_cycle(
                dependency_map(self.processes@),
                process_names(self.processes@),
                cycle,
            ))),
    {
        validate_processes(&self.processes)
    }
}

/// A shell to start.
#[derive(Clone, Debug, PartialEq, Eq)]
pub struct ShellConfig {
    pub program: String,
    pub arguments: Vec<String>,
}

/// A program to execute in place of bootstrap.
#[derive(Clone, Debug, PartialEq, Eq)]
pub struct ExecConfig {
    pub program: String,
    pub arguments: Vec<String>,
}

/// What bootstrap hands the system to.
#[derive(Clone, Debug, PartialEq, Eq)]
pub enum HandoffMode {
    Supervise { config: BootstrapSuperviseConfig },
    Shell { config: ShellConfig },
    Exec { config: ExecConfig },
}

/// The hand-off, with the script run before it.
#[derive(Clone, Debug, PartialEq, Eq)]
pub struct HandoffConfig {
    pub mode: HandoffMode,
    pub boot_script: Option<BootScriptConfig>,
}

impl HandoffConfig {
    /// Process names of a supervise hand-off are distinct.
    pub open spec fn wf(self) -> bool {
        self.mode matches HandoffMode::Supervise { config } ==> config.wf()
    }

    /// Checks the hand-off: a supervise hand-off checks its processes; the
    /// others have nothing to check.
    pub fn validate(&self) -> (r: Result<(), Error>)
        requires
            self.wf(),
        ensures
            match self.mode {
                HandoffMode::Supervise { config } => is_validation_result(config.processes@, r),
                _ => r is Ok,
            },
    {
        match &self.mode {
            HandoffMode::Supervise { config } => config.validate(),
            _ => Ok(()),
        }
    }
}

} // verus!
