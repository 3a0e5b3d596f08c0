//! Readiness and liveness probes of supervised processes.
use vstd::prelude::*;

use crate::config::time::TimeSpan;

verus! {

/// How a probe checks a process.
#[derive(Clone, Debug, PartialEq, Eq)]
pub enum ProbeHandlerConfig {
    HttpGet { host: Option<String>, path: String, port: u16 },
    TcpSocket { host: Option<String>, port: u16 },
}

impl ProbeHandlerConfig {
    /// The port that the probe connects to.
    pub open spec fn port_of(self) -> u16 {
        match self {
            ProbeHandlerConfig::HttpGet { port, .. } => port,
            ProbeHandlerConfig::TcpSocket { port, .. } => port,
        }
    }
}

impl Default for ProbeHandlerConfig {
    /// An HTTP `GET /` on port 80 of the process's own host.
    fn default() -> (h: Self)
        ensures
            h matches ProbeHandlerConfig::HttpGet { host, path, port } && host is None && path@
                == "/"@ && port == 80,
    {
        ProbeHandlerConfig::HttpGet { host: None, path: String::from_str("/"), port: 80 }
    }
}

/// A probe: what it checks, when it starts, how often and how patiently.
#[derive(Clone, Debug, PartialEq, Eq)]
pub struct ProbeConfig {
    pub handler: ProbeHandlerConfig,
    pub initial_delay: TimeSpan,
    pub period: TimeSpan,
    pub timeout: TimeSpan,
    pub failure_threshold: i32,
    pub success_threshold: i32,
}

/// The default delay before the first probe: none.
pub fn default_initial_delay() -> (t: TimeSpan)
    ensures
        t == TimeSpan::from_secs_spec(0),
{
    TimeSpan::from_secs(0)
}

/// The default time between probes: ten seconds.
pub fn default_period() -> (t: TimeSpan)
    ensures
        t == TimeSpan::from_secs_spec(10),
{
    TimeSpan::from_secs(10)
}

/// The default time a probe may take: one second.
pub fn default_timeout() -> (t: TimeSpan)
    ensures
        t == TimeSpan::from_secs_spec(1),
{
    TimeSpan::from_secs(1)
}

/// The default number of failures in a row that mark a process unhealthy.
pub fn default_failure_threshold() -> (n: i32)
    ensures
        n == 3,
{
    3
}

/// The default number of successes in a row that mark a process healthy.
pub fn default_success_threshold() -> (n: i32)
    ensures
        n == 1,
{
    1
}

impl Default for ProbeConfig {
    fn default() -> (p: Self)
        ensures
            p.handler matches ProbeHandlerConfig::HttpGet { host, path, port } && host is None
                && path@ == "/"@ && port == 80,
            p.initial_delay == TimeSpan::from_secs_spec(0),
            p.period == TimeSpan::from_secs_spec(0),
            p.timeout == TimeSpan::from_secs_spec(0),
            p.failure_threshold == 0,
            p.success_threshold == 0,
    {
        ProbeConfig {
            handler: ProbeHandlerConfig::default(),
            initial_delay: TimeSpan::from_secs(0),
            period: TimeSpan::from_secs(0),
            timeout: TimeSpan::from_secs(0),
            failure_threshold: 0,
            success_threshold: 0,
        }
    }
}

} // verus!
