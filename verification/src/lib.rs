pub mod config;
pub mod graph;
pub mod modules;
pub mod cli;
