//! When a supervised process is restarted.
use vstd::prelude::*;

use crate::config::time::TimeSpan;

verus! {

/// When a supervised process is restarted, and how long to wait first.
#[derive(Clone, Copy, Debug, PartialEq, Eq, Structural)]
pub enum RestartPolicyConfig {
    Never,
    Always { backoff: Option<TimeSpan> },
    OnFailure { max_retries: Option<u32>, backoff: Option<TimeSpan> },
}

impl Default for RestartPolicyConfig {
    fn default() -> (p: Self)
        ensures
            p == RestartPolicyConfig::Never,
    {
        RestartPolicyConfig::Never
    }
}

} // verus!
