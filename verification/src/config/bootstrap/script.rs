//! Commands run during bootstrap: hooks and the boot script.
use vstd::prelude::*;

use super::mount::MountFailurePolicy;

verus! {

/// What happens when the boot script fails.
#[derive(Clone, Copy, Debug, PartialEq, Eq, Structural)]
pub enum OnFailurePolicy {
    Warn,
    Abort,
}

impl Default for OnFailurePolicy {
    fn default() -> (p: Self)
        ensures
            p == OnFailurePolicy::Warn,
    {
        OnFailurePolicy::Warn
    }
}

/// The shell to start when bootstrap fails.
#[derive(Clone, Debug, PartialEq, Eq)]
pub struct OnFailureConfig {
    pub shell: Option<String>,
}

/// A script run before handing off.
#[derive(Clone, Debug, PartialEq, Eq)]
pub struct BootScriptConfig {
    pub command: String,
    pub arguments: Vec<String>,
    pub on_failure: OnFailurePolicy,
    pub working_directory: Option<String>,
}

/// A command run at a point of the bootstrap.
#[derive(Clone, Debug, PartialEq, Eq)]
pub struct HookSpecConfig {
    pub name: String,
    pub command: String,
    pub arguments: Vec<String>,
    pub timeout_secs: u64,
    pub on_failure: MountFailurePolicy,
}

} // verus!
