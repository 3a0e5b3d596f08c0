//! Configuration: errors and the validation rules of the configuration files.
pub mod error;
pub mod format;
pub mod supervise;
pub mod time;
pub mod bootstrap;
pub mod log_level;
