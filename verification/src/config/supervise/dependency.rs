//! How a process waits for the processes it depends on.
use vstd::prelude::*;

verus! {

/// What a dependency must reach before the dependent process starts.
#[derive(Clone, Copy, Debug, PartialEq, Eq, Structural)]
pub enum DependencyCondition {
    Started,
    Healthy,
    Completed,
    CompletedSuccessfully,
    LogReady,
}

impl Default for DependencyCondition {
    fn default() -> (c: Self)
        ensures
            c == DependencyCondition::Started,
    {
        DependencyCondition::Started
    }
}

/// A dependency on another process.
#[derive(Clone, Copy, Debug, PartialEq, Eq, Structural)]
pub struct DependencyConfig {
    pub condition: Option<DependencyCondition>,
}

impl Default for DependencyConfig {
    fn default() -> (c: Self)
        ensures
            c.condition is None,
    {
        DependencyConfig { condition: None }
    }
}

} // verus!
