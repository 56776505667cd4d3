//! Settings of the programs.
pub mod config;
