//! Supervised processes and the rules their configuration must follow.
use vstd::prelude::*;
use vstd::hash_map::StringHashMap;

use crate::config::error::{Error, ValidationError, ValidationFault};
use crate::config::time::TimeSpan;
use super::dependency::DependencyConfig;
use super::probe::{ProbeConfig, ProbeHandlerConfig};
use super::restart::RestartPolicyConfig;

verus! {

/// The signal that asks a process to stop.
#[derive(Clone, Debug, PartialEq, Eq)]
pub enum ShutdownSignalConfig {
    Sigterm,
    Number(u8),
    Name(String),
}

impl Default for ShutdownSignalConfig {
    fn default() -> (s: Self)
        ensures
            s is Sigterm,
    {
        ShutdownSignalConfig::Sigterm
    }
}

/// The number of `SIGTERM`, as nix's `Signal::SIGTERM` gives it (libc sets
/// it to 15 on every platform it supports).
#[verifier::external_body]
fn sigterm_number() -> (n: i32)
    ensures
        n == 15,
{
    nix::sys::signal::Signal::SIGTERM as i32
}

/// The signals whose numbers are the same on every platform that libc
/// supports: `SIGHUP` 1, `SIGINT` 2, `SIGQUIT` 3, `SIGKILL` 9 and `SIGTERM`
/// 15, by name.
pub open spec fn fixed_signal_named(name: Seq<char>) -> Option<i32> {
    if name == "SIGHUP"@ {
        Some(1)
    } else if name == "SIGINT"@ {
        Some(2)
    } else if name == "SIGQUIT"@ {
        Some(3)
    } else if name == "SIGKILL"@ {
        Some(9)
    } else if name == "SIGTERM"@ {
        Some(15)
    } else {
        None
    }
}

/// The numbers of the signals of `fixed_signal_named`.
pub open spec fn is_fixed_signal_number(n: int) -> bool {
    n == 1 || n == 2 || n == 3 || n == 9 || n == 15
}

/// nix's `Signal::try_from(n)`: the signal numbered `n`, when the platform
/// has one, given back as its number. Every platform has the signals of
/// `fixed_signal_named` and none numbered zero or below; which other numbers
/// it has is not stated.
#[verifier::external_body]
fn signal_numbered(n: i32) -> (r: Option<i32>)
    ensures
        r matches Some(m) ==> m == n,
        is_fixed_signal_number(n as int) ==> r == Some(n),
        n <= 0 ==> r is None,
{
    match nix::sys::signal::Signal::try_from(n) {
        Ok(s) => Some(s as i32),
        Err(_) => None,
    }
}

/// nix's `Signal::from_str(name)`: the number of the signal called `name`
/// (such as `SIGTERM`), when the platform has one. Every platform has the
/// signals of `fixed_signal_named`, and every name it knows begins with
/// `SIG`; which other names it knows, and their numbers, is not stated.
#[verifier::external_body]
fn signal_named(name: &str) -> (r: Option<i32>)
    ensures
        fixed_signal_named(name@) is Some ==> r == fixed_signal_named(name@),
        !"SIG"@.is_prefix_of(name@) ==> r is None,
{
    match <nix::sys::signal::Signal as std::str::FromStr>::from_str(name) {
        Ok(s) => Some(s as i32),
        Err(_) => None,
    }
}

/// The signal number found, else `SIGTERM` (15).
pub fn signal_or_sigterm(found: Option<i32>) -> (s: i32)
    ensures
        s == match found {
            Some(m) => m,
            None => 15,
        },
{
    match found {
        Some(m) => m,
        None => sigterm_number(),
    }
}

impl ShutdownSignalConfig {
    /// The number of the signal to send: `SIGTERM` (15) for `Sigterm` and
    /// for a number or a name that the platform does not know; the signals
    /// that every platform has are known by number and by name.
    pub fn to_signal(&self) -> (s: i32)
        ensures
            self is Sigterm ==> s == 15,
            self matches ShutdownSignalConfig::Number(n) ==> s == n as i32 || s == 15,
            self matches ShutdownSignalConfig::Number(n) ==> (is_fixed_signal_number(n as int) ==> s
                == n as i32) && (n == 0 ==> s == 15),
            self matches ShutdownSignalConfig::Name(name) ==> (fixed_signal_named(name@) is Some ==> s
                == fixed_signal_named(name@)->0) && (!"SIG"@.is_prefix_of(name@) ==> s == 15),
    {
        match self {
            ShutdownSignalConfig::Sigterm => sigterm_number(),
            ShutdownSignalConfig::Number(n) => signal_or_sigterm(signal_numbered(*n as i32)),
            ShutdownSignalConfig::Name(name) => signal_or_sigterm(signal_named(name.as_str())),
        }
    }
}

/// Where a stream of a process's output goes.
#[derive(Clone, Debug, PartialEq, Eq)]
pub enum LogDestination {
    Null,
    Inherit,
    File { path: String },
}

/// How rotated log files are compressed.
#[derive(Clone, Copy, Debug, PartialEq, Eq, Structural)]
pub enum LogCompression {
    /// Rotated files are kept as they are.
    Uncompressed,
    Gzip,
    Lz4,
}

impl Default for LogCompression {
    fn default() -> (c: Self)
        ensures
            c == LogCompression::Uncompressed,
    {
        LogCompression::Uncompressed
    }
}

/// When a log file is rotated, and how many old ones are kept.
#[derive(Clone, Debug, PartialEq, Eq)]
pub struct LogRotationConfig {
    pub max_size_bytes: Option<u64>,
    pub rotation_interval: Option<TimeSpan>,
    pub max_files: Option<u32>,
    pub max_age_days: Option<u32>,
    pub mode: Option<String>,
    pub compression: LogCompression,
}

/// One output stream of a process: where it goes and how it is rotated.
#[derive(Clone, Debug, PartialEq, Eq)]
pub struct LogStreamConfig {
    pub destination: LogDestination,
    pub rotation: Option<LogRotationConfig>,
}

impl Default for LogStreamConfig {
    fn default() -> (s: Self)
        ensures
            s.destination is Inherit,
            s.rotation is None,
    {
        LogStreamConfig { destination: LogDestination::Inherit, rotation: None }
    }
}

/// The two output streams of a process.
#[derive(Clone, Debug, PartialEq, Eq)]
pub struct LogConfig {
    pub stdout: LogStreamConfig,
    pub stderr: LogStreamConfig,
}

/// A supervised process.
#[derive(Clone, Debug, PartialEq, Eq)]
pub struct ProcessConfig {
    pub program: String,
    pub arguments: Vec<String>,
    /// The variables in the order the configuration gives them.
    pub environment_variables: Vec<(String, String)>,
    pub working_directory: Option<String>,
    /// The processes this one depends on, by name.
    pub depends_on: Vec<(String, DependencyConfig)>,
    pub readiness_probe: Option<ProbeConfig>,
    pub liveness_probe: Option<ProbeConfig>,
    pub restart_policy: Option<RestartPolicyConfig>,
    pub shutdown_signal: Option<ShutdownSignalConfig>,
    pub termination_grace_period: TimeSpan,
    pub log: Option<LogConfig>,
}

/// The default time a process gets to stop after its shutdown signal: a
/// minute.
pub fn default_termination_grace_period() -> (t: TimeSpan)
    ensures
        t == TimeSpan::from_secs_spec(60),
{
    TimeSpan::from_secs(60)
}

/// What is wrong with the rotation settings of the stream `stream`, if
/// anything: a zero limit (checked in the order size, interval, file count,
/// age), else neither a size nor an interval to rotate by.
pub open spec fn rotation_fault(stream: Seq<char>, r: LogRotationConfig) -> Option<ValidationFault> {
    if r.max_size_bytes == Some(0u64) {
        Some(ValidationFault::InvalidLogRotation { field: stream + ".maxSizeBytes"@, value: 0 })
    } else if r.rotation_interval matches Some(d) && d.secs == 0 {
        Some(ValidationFault::InvalidLogRotation { field: stream + ".rotationInterval"@, value: 0 })
    } else if r.max_files == Some(0u32) {
        Some(ValidationFault::InvalidLogRotation { field: stream + ".maxFiles"@, value: 0 })
    } else if r.max_age_days == Some(0u32) {
        Some(ValidationFault::InvalidLogRotation { field: stream + ".maxAgeDays"@, value: 0 })
    } else if !(r.max_size_bytes matches Some(s) && s > 0) && !(r.rotation_interval matches Some(
        d,
    ) && d.secs > 0) {
        Some(
            ValidationFault::InvalidRotationConfiguration {
                reason: stream + ": at least one of maxSizeBytes or rotationInterval must be > 0"@,
            },
        )
    } else {
        None
    }
}

/// What is wrong with the rotation of one stream, if anything.
pub open spec fn stream_fault(stream: Seq<char>, s: LogStreamConfig) -> Option<ValidationFault> {
    match s.rotation {
        Some(r) => rotation_fault(stream, r),
        None => None,
    }
}

/// What is wrong with a probe, if anything: a timeout longer than the
/// period (in whole seconds), else port 0.
pub open spec fn probe_fault(p: ProbeConfig) -> Option<ValidationFault> {
    if p.timeout.secs > p.period.secs {
        Some(ValidationFault::InvalidProbeTimeout { timeout: p.timeout.secs, period: p.period.secs })
    } else if p.handler.port_of() < 1 {
        Some(ValidationFault::InvalidProbePort { port: p.handler.port_of() })
    } else {
        None
    }
}

/// The keys that repeat an earlier key, one entry per repetition, in order.
pub open spec fn repeated_keys(keys: Seq<Seq<char>>) -> Seq<Seq<char>>
    decreases keys.len(),
{
    if keys.len() == 0 {
        Seq::empty()
    } else if keys.drop_last().contains(keys.last()) {
        repeated_keys(keys.drop_last()).push(keys.last())
    } else {
        repeated_keys(keys.drop_last())
    }
}

/// The first of two possible faults.
pub open spec fn first_fault(a: Option<ValidationFault>, b: Option<ValidationFault>) -> Option<
    ValidationFault,
> {
    if a is Some {
        a
    } else {
        b
    }
}

/// The name under which a destination that is not a file is shown.
pub open spec fn destination_name(d: LogDestination) -> Seq<char> {
    match d {
        LogDestination::Null => "Null"@,
        LogDestination::Inherit => "Inherit"@,
        LogDestination::File { .. } => "File"@,
    }
}

/// The warning that rotation of `stream` of process `name` has no effect.
pub open spec fn rotation_warning(name: Seq<char>, stream: Seq<char>, d: LogDestination) -> Seq<
    char,
> {
    "Warning: Process '"@ + name + "' has rotation configured for "@ + stream
        + " stream but destination is "@ + destination_name(d)
        + "; rotation will have no effect."@
}

/// The warning for one stream: rotation that passes its checks on a stream
/// whose output is not a file.
pub open spec fn stream_warnings(name: Seq<char>, stream: Seq<char>, s: LogStreamConfig) -> Seq<
    Seq<char>,
> {
    if s.rotation is Some && stream_fault(stream, s) is None && !(s.destination is File) {
        seq![rotation_warning(name, stream, s.destination)]
    } else {
        Seq::empty()
    }
}

impl ProcessConfig {
    /// The warnings that validation of the process `name` gives on its way:
    /// once the program and the grace period pass, one per stream (stdout,
    /// then stderr if stdout passes) that rotates output which is not a file.
    pub open spec fn warnings(self, name: Seq<char>) -> Seq<Seq<char>> {
        match self.log {
            Some(log) => if self.program_fault(name) is None && self.grace_fault() is None
                && stream_fault("stdout"@, log.stdout) is None {
                stream_warnings(name, "stdout"@, log.stdout) + stream_warnings(
                    name,
                    "stderr"@,
                    log.stderr,
                )
            } else if self.program_fault(name) is None && self.grace_fault() is None {
                stream_warnings(name, "stdout"@, log.stdout)
            } else {
                Seq::empty()
            },
            None => Seq::empty(),
        }
    }

    /// The warnings that validating the process `name` gives.
    pub fn rotation_warnings(&self, name: &str) -> (w: Vec<String>)
        ensures
            w@.map_values(|s: String| s@) == self.warnings(name@),
    {
        let mut w: Vec<String> = Vec::new();
        if self.program.as_str().is_empty() || self.termination_grace_period.is_zero() {
            proof {
                assert(w@.map_values(|s: String| s@) =~= self.warnings(name@));
            }
            return w;
        }
        match &self.log {
            None => {
                proof {
                    assert(w@.map_values(|s: String| s@) =~= self.warnings(name@));
                }
            },
            Some(log) => {
                add_stream_warning(&mut w, name, "stdout", &log.stdout);
                if check_stream("stdout", &log.stdout).is_ok() {
                    add_stream_warning(&mut w, name, "stderr", &log.stderr);
                }
                proof {
                    assert(w@.map_values(|s: String| s@) =~= self.warnings(name@));
                }
            },
        }
        w
    }

    /// The names of the environment variables, in order.
    pub open spec fn env_keys(self) -> Seq<Seq<char>> {
        self.environment_variables@.map_values(|e: (String, String)| e.0@)
    }

    pub open spec fn program_fault(self, name: Seq<char>) -> Option<ValidationFault> {
        if self.program@.len() == 0 {
            Some(ValidationFault::MissingProcessProgram { process: name })
        } else {
            None
        }
    }

    pub open spec fn grace_fault(self) -> Option<ValidationFault> {
        if self.termination_grace_period.secs == 0 && self.termination_grace_period.nanos == 0 {
            Some(ValidationFault::InvalidTerminationGracePeriod { value: 0 })
        } else {
            None
        }
    }

    pub open spec fn log_fault(self) -> Option<ValidationFault> {
        match self.log {
            Some(log) => first_fault(
                stream_fault("stdout"@, log.stdout),
                stream_fault("stderr"@, log.stderr),
            ),
            None => None,
        }
    }

    pub open spec fn probes_fault(self) -> Option<ValidationFault> {
        first_fault(
            match self.readiness_probe {
                Some(p) => probe_fault(p),
                None => None,
            },
            match self.liveness_probe {
                Some(p) => probe_fault(p),
                None => None,
            },
        )
    }

    pub open spec fn backoff_fault(self) -> Option<ValidationFault> {
        match self.restart_policy {
            Some(RestartPolicyConfig::Always { backoff: Some(b) }) => if b.secs == 0 && b.nanos
                == 0 {
                Some(ValidationFault::InvalidRestartBackoff { backoff: 0 })
            } else {
                None
            },
            Some(RestartPolicyConfig::OnFailure { backoff: Some(b), .. }) => if b.secs == 0
                && b.nanos == 0 {
                Some(ValidationFault::InvalidRestartBackoff { backoff: 0 })
            } else {
                None
            },
            _ => None,
        }
    }

    pub open spec fn env_fault(self, name: Seq<char>) -> Option<ValidationFault> {
        if repeated_keys(self.env_keys()).len() > 0 {
            Some(
                ValidationFault::DuplicateEnvironmentVariables {
                    process: name,
                    variables: repeated_keys(self.env_keys()),
                },
            )
        } else {
            None
        }
    }

    /// What is wrong with the process `name`, if anything: the first fault
    /// found checking, in order, the program, the grace period, the log
    /// rotation, the probes, the restart backoff and the environment.
    pub open spec fn fault(self, name: Seq<char>) -> Option<ValidationFault> {
        first_fault(
            self.program_fault(name),
            first_fault(
                self.grace_fault(),
                first_fault(
                    self.log_fault(),
                    first_fault(
                        self.probes_fault(),
                        first_fault(self.backoff_fault(), self.env_fault(name)),
                    ),
                ),
            ),
        )
    }

    /// The value of the first environment variable named `key`, if any.
    pub fn get_env(&self, key: &str) -> (v: Option<&String>)
        ensures
            match v {
                Some(v) => exists|i: int|
                    0 <= i < self.environment_variables@.len()
                        && self.environment_variables@[i].0@ == key@ && *v
                        == self.environment_variables@[i].1 && forall|j: int|
                        0 <= j < i ==> self.environment_variables@[j].0@ != key@,
                None => forall|i: int|
                    0 <= i < self.environment_variables@.len()
                        ==> self.environment_variables@[i].0@ != key@,
            },
    {
        let wanted = String::from_str(key);
        let mut i: usize = 0;
        while i < self.environment_variables.len()
            invariant
                wanted@ == key@,
                i <= self.environment_variables@.len(),
                forall|j: int| 0 <= j < i ==> self.environment_variables@[j].0@ != key@,
            decreases self.environment_variables@.len() - i,
        {
            if self.environment_variables[i].0 == wanted {
                return Some(&self.environment_variables[i].1);
            }
            i += 1;
        }
        None
    }

    /// Checks the process named `name`: `Ok` exactly when it has no fault,
    /// else the first fault.
    pub fn validate(&self, name: &str) -> (r: Result<(), Error>)
        ensures
            match r {
                Ok(()) => self.fault(name@) is None,
                Err(Error::Validate { source }) => self.fault(name@) == Some(source@),
                Err(_) => false,
            },
    {
        match self.check(name) {
            Ok(()) => Ok(()),
            Err(e) => Err(Error::Validate { source: e }),
        }
    }

    fn check(&self, name: &str) -> (r: Result<(), ValidationError>)
        ensures
            match r {
                Ok(()) => self.fault(name@) is None,
                Err(e) => self.fault(name@) == Some(e@),
            },
    {
        match self.validate_program(name) {
            Ok(()) => {},
            Err(e) => {
                return Err(e);
            },
        }
        match self.validate_termination_grace_period() {
            Ok(()) => {},
            Err(e) => {
                return Err(e);
            },
        }
        match self.validate_log_rotation() {
            Ok(()) => {},
            Err(e) => {
                return Err(e);
            },
        }
        match self.validate_probes() {
            Ok(()) => {},
            Err(e) => {
                return Err(e);
            },
        }
        match self.validate_restart_backoff() {
            Ok(()) => {},
            Err(e) => {
                return Err(e);
            },
        }
        self.validate_environment_variables(name)
    }

    /// The program must not be empty.
    fn validate_program(&self, name: &str) -> (r: Result<(), ValidationError>)
        ensures
            match r {
                Ok(()) => self.program_fault(name@) is None,
                Err(e) => self.program_fault(name@) == Some(e@),
            },
    {
        if self.program.as_str().is_empty() {
            Err(ValidationError::MissingProcessProgram { process: String::from_str(name) })
        } else {
            Ok(())
        }
    }

    /// The grace period must not be zero.
    fn validate_termination_grace_period(&self) -> (r: Result<(), ValidationError>)
        ensures
            match r {
                Ok(()) => self.grace_fault() is None,
                Err(e) => self.grace_fault() == Some(e@),
            },
    {
        if self.termination_grace_period.is_zero() {
            Err(
                ValidationError::InvalidTerminationGracePeriod {
                    value: self.termination_grace_period.as_secs(),
                },
            )
        } else {
            Ok(())
        }
    }

    /// The rotation of each stream, stdout first, must be sound.
    fn validate_log_rotation(&self) -> (r: Result<(), ValidationError>)
        ensures
            match r {
                Ok(()) => self.log_fault() is None,
                Err(e) => self.log_fault() == Some(e@),
            },
    {
        match &self.log {
            None => Ok(()),
            Some(log) => {
                match check_stream("stdout", &log.stdout) {
                    Ok(()) => {},
                    Err(e) => {
                        return Err(e);
                    },
                }
                check_stream("stderr", &log.stderr)
            },
        }
    }

    /// The readiness probe, then the liveness probe, must be sound.
    fn validate_probes(&self) -> (r: Result<(), ValidationError>)
        ensures
            match r {
                Ok(()) => self.probes_fault() is None,
                Err(e) => self.probes_fault() == Some(e@),
            },
    {
        match check_probe(&self.readiness_probe) {
            Ok(()) => {},
            Err(e) => {
                return Err(e);
            },
        }
        check_probe(&self.liveness_probe)
    }

    /// A restart backoff, where the policy has one, must not be zero.
    fn validate_restart_backoff(&self) -> (r: Result<(), ValidationError>)
        ensures
            match r {
                Ok(()) => self.backoff_fault() is None,
                Err(e) => self.backoff_fault() == Some(e@),
            },
    {
        let backoff = match &self.restart_policy {
            Some(RestartPolicyConfig::Always { backoff }) => backoff,
            Some(RestartPolicyConfig::OnFailure { backoff, .. }) => backoff,
            _ => {
                return Ok(());
            },
        };
        match backoff {
            Some(b) => {
                if b.is_zero() {
                    Err(ValidationError::InvalidRestartBackoff { backoff: b.as_secs() })
                } else {
                    Ok(())
                }
            },
            None => Ok(()),
        }
    }

    /// No environment variable may be set twice; all repeats are reported.
    fn validate_environment_variables(&self, name: &str) -> (r: Result<(), ValidationError>)
        ensures
            match r {
                Ok(()) => self.env_fault(name@) is None,
                Err(e) => self.env_fault(name@) == Some(e@),
            },
    {
        let ghost keys = self.env_keys();
        let mut seen: StringHashMap<()> = StringHashMap::new();
        let mut duplicates: Vec<String> = Vec::new();
        let mut i: usize = 0;
        proof {
            assert(keys.take(0) =~= Seq::<Seq<char>>::empty());
            assert(seen@.dom() =~= keys.take(0).to_set());
            assert(duplicates@.map_values(|d: String| d@) =~= repeated_keys(keys.take(0)));
        }
        while i < self.environment_variables.len()
            invariant
                keys == self.env_keys(),
                i <= keys.len(),
                seen@.dom() == keys.take(i as int).to_set(),
                duplicates@.map_values(|d: String| d@) == repeated_keys(keys.take(i as int)),
            decreases keys.len() - i,
        {
            let key = &self.environment_variables[i].0;
            let ghost k = key@;
            proof {
                assert(keys[i as int] == k);
                assert(keys.take(i + 1).drop_last() =~= keys.take(i as int));
                assert(keys.take(i + 1).last() == k);
            }
            if seen.contains_key(key.as_str()) {
                let ghost before = duplicates@;
                duplicates.push(key.clone());
                proof {
                    assert(keys.take(i as int).to_set().contains(k));
                    assert(duplicates@.map_values(|d: String| d@) =~= before.map_values(
                        |d: String| d@,
                    ).push(k));
                }
            } else {
                proof {
                    assert(!keys.take(i as int).contains(k)) by {
                        if keys.take(i as int).contains(k) {
                            assert(keys.take(i as int).to_set().contains(k));
                        }
                    }
                }
            }
            seen.insert(key.clone(), ());
            proof {
                let t1 = keys.take(i + 1);
                let t0 = keys.take(i as int);
                assert(seen@.dom() =~= t1.to_set()) by {
                    assert forall|x: Seq<char>| t1.to_set().contains(x) <==> (t0.to_set().contains(x)
                        || x == k) by {
                        if t1.contains(x) {
                            let m = choose|m: int| 0 <= m < t1.len() && t1[m] == x;
                            if m < i {
                                assert(t0[m] == x);
                            }
                        }
                        if t0.contains(x) {
                            let m = choose|m: int| 0 <= m < t0.len() && t0[m] == x;
                            assert(t1[m] == x);
                        }
                        if x == k {
                            assert(t1[i as int] == x);
                        }
                    }
                }
            }
            i += 1;
        }
        proof {
            assert(keys.take(keys.len() as int) =~= keys);
        }
        if duplicates.len() == 0 {
            Ok(())
        } else {
            Err(
                ValidationError::DuplicateEnvironmentVariables {
                    process: String::from_str(name),
                    variables: duplicates,
                },
            )
        }
    }
}

/// Checks the rotation settings of the stream `stream`.
fn check_stream(stream: &str, s: &LogStreamConfig) -> (r: Result<(), ValidationError>)
    ensures
        match r {
            Ok(()) => stream_fault(stream@, *s) is None,
            Err(e) => stream_fault(stream@, *s) == Some(e@),
        },
{
    let rotation = match &s.rotation {
        Some(rotation) => rotation,
        None => {
            return Ok(());
        },
    };
    if rotation.max_size_bytes == Some(0u64) {
        return Err(field_error(stream, ".maxSizeBytes"));
    }
    if let Some(d) = rotation.rotation_interval {
        if d.as_secs() == 0 {
            return Err(field_error(stream, ".rotationInterval"));
        }
    }
    if rotation.max_files == Some(0u32) {
        return Err(field_error(stream, ".maxFiles"));
    }
    if rotation.max_age_days == Some(0u32) {
        return Err(field_error(stream, ".maxAgeDays"));
    }
    let has_size = match rotation.max_size_bytes {
        Some(size) => size > 0,
        None => false,
    };
    let has_interval = match rotation.rotation_interval {
        Some(d) => d.as_secs() > 0,
        None => false,
    };
    if !(has_size || has_interval) {
        let mut reason = String::from_str(stream);
        reason.append(": at least one of maxSizeBytes or rotationInterval must be > 0");
        return Err(ValidationError::InvalidRotationConfiguration { reason });
    }
    Ok(())
}

/// Adds the warning for `stream` of process `name`, if it has one.
fn add_stream_warning(w: &mut Vec<String>, name: &str, stream: &str, s: &LogStreamConfig)
    ensures
        final(w)@.map_values(|x: String| x@) == old(w)@.map_values(|x: String| x@)
            + stream_warnings(name@, stream@, *s),
{
    let ghost before = w@;
    if s.rotation.is_some() && check_stream(stream, s).is_ok() {
        let shown = match &s.destination {
            LogDestination::Null => "Null",
            LogDestination::Inherit => "Inherit",
            LogDestination::File { .. } => {
                proof {
                    assert(w@.map_values(|x: String| x@) =~= before.map_values(|x: String| x@)
                        + stream_warnings(name@, stream@, *s));
                }
                return ;
            },
        };
        proof {
            reveal_strlit("Null");
            reveal_strlit("Inherit");
        }
        let mut m = String::from_str("Warning: Process '");
        m.append(name);
        m.append("' has rotation configured for ");
        m.append(stream);
        m.append(" stream but destination is ");
        m.append(shown);
        m.append("; rotation will have no effect.");
        w.push(m);
        proof {
            assert(w@.map_values(|x: String| x@) =~= before.map_values(|x: String| x@)
                + stream_warnings(name@, stream@, *s));
        }
    } else {
        proof {
            assert(w@.map_values(|x: String| x@) =~= before.map_values(|x: String| x@)
                + stream_warnings(name@, stream@, *s));
        }
    }
}

/// The error for the rotation setting `stream` + `suffix` being zero.
fn field_error(stream: &str, suffix: &str) -> (e: ValidationError)
    ensures
        e@ == (ValidationFault::InvalidLogRotation { field: stream@ + suffix@, value: 0 }),
{
    let mut field = String::from_str(stream);
    field.append(suffix);
    ValidationError::InvalidLogRotation { field, value: 0 }
}

/// Checks a probe, when there is one.
fn check_probe(p: &Option<ProbeConfig>) -> (r: Result<(), ValidationError>)
    ensures
        match r {
            Ok(()) => match *p {
                Some(p) => probe_fault(p) is None,
                None => true,
            },
            Err(e) => *p matches Some(p) && probe_fault(p) == Some(e@),
        },
{
    let p = match p {
        Some(p) => p,
        None => {
            return Ok(());
        },
    };
    let timeout_secs = p.timeout.as_secs();
    let period_secs = p.period.as_secs();
    if timeout_secs > period_secs {
        return Err(ValidationError::InvalidProbeTimeout { timeout: timeout_secs, period: period_secs });
    }
    let port = match &p.handler {
        ProbeHandlerConfig::HttpGet { port, .. } => *port,
        ProbeHandlerConfig::TcpSocket { port, .. } => *port,
    };
    if port < 1 {
        return Err(ValidationError::InvalidProbePort { port });
    }
    Ok(())
}

/// A process passes its checks only if each probe it has, the liveness
/// probe as much as the readiness probe, has a timeout at most its period
/// and a port other than zero; and a process with such an unsound probe
/// fails them, whatever else it holds.
pub proof fn law_every_probe_is_checked(p: ProcessConfig, name: Seq<char>)
    ensures
        p.fault(name) is None ==> (p.readiness_probe matches Some(q) ==> (q.timeout.secs
            <= q.period.secs && q.handler.port_of() >= 1)),
        p.fault(name) is None ==> (p.liveness_probe matches Some(q) ==> (q.timeout.secs
            <= q.period.secs && q.handler.port_of() >= 1)),
        (p.readiness_probe matches Some(q) && !(q.timeout.secs <= q.period.secs
            && q.handler.port_of() >= 1)) ==> p.fault(name) is Some,
        (p.liveness_probe matches Some(q) && !(q.timeout.secs <= q.period.secs
            && q.handler.port_of() >= 1)) ==> p.fault(name) is Some,
        p.liveness_probe matches Some(q) && q.timeout.secs > q.period.secs ==> p.fault(name) is Some,
{
}

/// Once the program, the grace period and the log rotation pass, a sound or
/// absent readiness probe and a liveness probe whose timeout exceeds its
/// period give the probe-timeout fault, with that timeout and period.
pub proof fn law_liveness_timeout_is_reported(p: ProcessConfig, name: Seq<char>, q: ProbeConfig)
    requires
        p.program_fault(name) is None,
        p.grace_fault() is None,
        p.log_fault() is None,
        p.readiness_probe matches Some(r) ==> (r.timeout.secs <= r.period.secs && r.handler.port_of()
            >= 1),
        p.liveness_probe == Some(q),
        q.timeout.secs > q.period.secs,
    ensures
        p.fault(name) == Some(
            ValidationFault::InvalidProbeTimeout { timeout: q.timeout.secs, period: q.period.secs },
        ),
{
}

} // verus!
