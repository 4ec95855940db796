//! The bridge: exposes the remote machine to its user.

pub mod attrs;
pub mod cache;
pub mod client;
pub mod fuse_fs;
pub mod http;
pub mod inodes;
pub mod mcp;
pub mod mounts;
pub mod pages;
pub mod ranges;
pub mod transfer;
pub mod tree;
pub mod uploads;
