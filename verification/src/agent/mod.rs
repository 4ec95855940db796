//! The agent: runs on the remote machine and serves shell execution and file
//! access to the paired bridge.

pub mod commands;
pub mod conn;
pub mod files;
