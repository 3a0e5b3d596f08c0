//! Errors of configuration loading and validation.
use vstd::prelude::*;

use super::format::{
    decimal, decimal_string, join, join_strings, signed_decimal, signed_decimal_string,
};

verus! {

/// Why a configuration is invalid.
#[derive(Debug, Clone, PartialEq, Eq)]
pub enum ValidationError {
    CyclicDependency { cycle: Vec<String> },
    MissingDependency { process: String, depends_on: String },
    InvalidVersion { version: String },
    InvalidLogRotation { field: String, value: i64 },
    InvalidProbeTimeout { timeout: u64, period: u64 },
    InvalidProbePort { port: u16 },
    InvalidRestartBackoff { backoff: u64 },
    InvalidTerminationGracePeriod { value: u64 },
    MissingProcessProgram { process: String },
    DuplicateEnvironmentVariables { process: String, variables: Vec<String> },
    InvalidRotationConfiguration { reason: String },
    ModuleNotFound { name: String },
}

/// A [`ValidationError`] with its texts taken by value.
pub enum ValidationFault {
    CyclicDependency { cycle: Seq<Seq<char>> },
    MissingDependency { process: Seq<char>, depends_on: Seq<char> },
    InvalidVersion { version: Seq<char> },
    InvalidLogRotation { field: Seq<char>, value: i64 },
    InvalidProbeTimeout { timeout: u64, period: u64 },
    InvalidProbePort { port: u16 },
    InvalidRestartBackoff { backoff: u64 },
    InvalidTerminationGracePeriod { value: u64 },
    MissingProcessProgram { process: Seq<char> },
    DuplicateEnvironmentVariables { process: Seq<char>, variables: Seq<Seq<char>> },
    InvalidRotationConfiguration { reason: Seq<char> },
    ModuleNotFound { name: Seq<char> },
}

impl View for ValidationError {
    type V = ValidationFault;

    open spec fn view(&self) -> ValidationFault {
        match self {
            ValidationError::CyclicDependency { cycle } => ValidationFault::CyclicDependency {
                cycle: cycle@.map_values(|c: String| c@),
            },
            ValidationError::MissingDependency { process, depends_on } =>
                ValidationFault::MissingDependency { process: process@, depends_on: depends_on@ },
            ValidationError::InvalidVersion { version } => ValidationFault::InvalidVersion {
                version: version@,
            },
            ValidationError::InvalidLogRotation { field, value } =>
                ValidationFault::InvalidLogRotation { field: field@, value: *value },
            ValidationError::InvalidProbeTimeout { timeout, period } =>
                ValidationFault::InvalidProbeTimeout { timeout: *timeout, period: *period },
            ValidationError::InvalidProbePort { port } => ValidationFault::InvalidProbePort {
                port: *port,
            },
            ValidationError::InvalidRestartBackoff { backoff } =>
                ValidationFault::InvalidRestartBackoff { backoff: *backoff },
            ValidationError::InvalidTerminationGracePeriod { value } =>
                ValidationFault::InvalidTerminationGracePeriod { value: *value },
            ValidationError::MissingProcessProgram { process } =>
                ValidationFault::MissingProcessProgram { process: process@ },
            ValidationError::DuplicateEnvironmentVariables { process, variables } =>
                ValidationFault::DuplicateEnvironmentVariables {
                    process: process@,
                    variables: variables@.map_values(|v: String| v@),
                },
            ValidationError::InvalidRotationConfiguration { reason } =>
                ValidationFault::InvalidRotationConfiguration { reason: reason@ },
            ValidationError::ModuleNotFound { name } => ValidationFault::ModuleNotFound {
                name: name@,
            },
        }
    }
}

/// An error of configuration handling that involves no file access.
#[derive(Debug, Clone, PartialEq, Eq)]
pub enum Error {
    /// The configuration breaks a validation rule.
    Validate { source: ValidationError },
    /// The configuration is inconsistent with what it refers to.
    InvalidConfig { message: String },
}

impl ValidationError {
    /// The text that describes the error.
    pub open spec fn text(self) -> Seq<char> {
        match self {
            ValidationError::CyclicDependency { cycle } => "Cyclic dependency detected: "@ + join(
                cycle@.map_values(|c: String| c@),
                " → "@,
            ),
            ValidationError::MissingDependency { process, depends_on } => "Process '"@ + process@
                + "' depends on non-existent process '"@ + depends_on@ + "'"@,
            ValidationError::InvalidVersion { version } => "Unsupported config version '"@
                + version@ + "'"@,
            ValidationError::InvalidLogRotation { field, value } => "Log rotation field '"@
                + field@ + "' must be positive, got "@ + signed_decimal(value as int),
            ValidationError::InvalidProbeTimeout { timeout, period } => "Probe timeout ("@
                + decimal(timeout as nat) + "s) must not exceed period ("@ + decimal(period as nat)
                + "s)"@,
            ValidationError::InvalidProbePort { port } => "Probe port "@ + decimal(port as nat)
                + " is out of valid range (1-65535)"@,
            ValidationError::InvalidRestartBackoff { backoff } =>
                "Restart policy backoff must be positive, got "@ + decimal(backoff as nat) + "s"@,
            ValidationError::InvalidTerminationGracePeriod { value } =>
                "Termination grace period must be positive, got "@ + decimal(value as nat) + "s"@,
            ValidationError::MissingProcessProgram { process } => "Process '"@ + process@
                + "' is missing required 'program' field"@,
            ValidationError::DuplicateEnvironmentVariables { process, variables } => "Process '"@
                + process@ + "' has duplicate environment variables: "@ + join(
                variables@.map_values(|v: String| v@),
                ", "@,
            ),
            ValidationError::InvalidRotationConfiguration { reason } =>
                "Invalid rotation configuration: "@ + reason@,
            ValidationError::ModuleNotFound { name } => "Module not found: "@ + name@,
        }
    }

    /// The text that describes the error.
    pub fn message(&self) -> (m: String)
        ensures
            m@ == self.text(),
    {
        match self {
            ValidationError::CyclicDependency { cycle } => {
                let mut m = String::from_str("Cyclic dependency detected: ");
                m.append(join_strings(cycle, " → ").as_str());
                m
            },
            ValidationError::MissingDependency { process, depends_on } => {
                let mut m = String::from_str("Process '");
                m.append(process.as_str());
                m.append("' depends on non-existent process '");
                m.append(depends_on.as_str());
                m.append("'");
                m
            },
            ValidationError::InvalidVersion { version } => {
                let mut m = String::from_str("Unsupported config version '");
                m.append(version.as_str());
                m.append("'");
                m
            },
            ValidationError::InvalidLogRotation { field, value } => {
                let mut m = String::from_str("Log rotation field '");
                m.append(field.as_str());
                m.append("' must be positive, got ");
                m.append(signed_decimal_string(*value).as_str());
                m
            },
            ValidationError::InvalidProbeTimeout { timeout, period } => {
                let mut m = String::from_str("Probe timeout (");
                m.append(decimal_string(*timeout).as_str());
                m.append("s) must not exceed period (");
                m.append(decimal_string(*period).as_str());
                m.append("s)");
                m
            },
            ValidationError::InvalidProbePort { port } => {
                let mut m = String::from_str("Probe port ");
                m.append(decimal_string(*port as u64).as_str());
                m.append(" is out of valid range (1-65535)");
                m
            },
            ValidationError::InvalidRestartBackoff { backoff } => {
                let mut m = String::from_str("Restart policy backoff must be positive, got ");
                m.append(decimal_string(*backoff).as_str());
                m.append("s");
                m
            },
            ValidationError::InvalidTerminationGracePeriod { value } => {
                let mut m = String::from_str("Termination grace period must be positive, got ");
                m.append(decimal_string(*value).as_str());
                m.append("s");
                m
            },
            ValidationError::MissingProcessProgram { process } => {
                let mut m = String::from_str("Process '");
                m.append(process.as_str());
                m.append("' is missing required 'program' field");
                m
            },
            ValidationError::DuplicateEnvironmentVariables { process, variables } => {
                let mut m = String::from_str("Process '");
                m.append(process.as_str());
                m.append("' has duplicate environment variables: ");
                m.append(join_strings(variables, ", ").as_str());
                m
            },
            ValidationError::InvalidRotationConfiguration { reason } => {
                let mut m = String::from_str("Invalid rotation configuration: ");
                m.append(reason.as_str());
                m
            },
            ValidationError::ModuleNotFound { name } => {
                let mut m = String::from_str("Module not found: ");
                m.append(name.as_str());
                m
            },
        }
    }
}

impl Error {
    /// The text that describes the error.
    pub open spec fn text(self) -> Seq<char> {
        match self {
            Error::Validate { source } => "Configuration validation failed: "@ + source.text(),
            Error::InvalidConfig { message } => message@,
        }
    }

    /// The text that describes the error.
    pub fn message(&self) -> (m: String)
        ensures
            m@ == self.text(),
    {
        match self {
            Error::Validate { source } => {
                let mut m = String::from_str("Configuration validation failed: ");
                m.append(source.message().as_str());
                m
            },
            Error::InvalidConfig { message } => message.clone(),
        }
    }
}

} // verus!
