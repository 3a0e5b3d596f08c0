//! The configuration of the bootstrap (init) phases.
pub mod mount;
pub mod script;
pub mod system;
pub mod handoff;
pub mod phases;
