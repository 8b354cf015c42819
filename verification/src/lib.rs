//! Verified core of a configuration deployment tool.
pub mod commands;
pub mod config;
pub mod framing;
mod external;
pub mod paths;
pub mod remote;
pub mod repository;
pub mod shell;
pub mod text;
