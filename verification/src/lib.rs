//! Remote shell and filesystem over a relay.

pub mod agent;
pub mod bridge;
pub mod cli;
pub mod encoding;
pub mod ids;
pub mod json;
pub mod path;
pub mod protocol;
mod random;
pub mod relay;
pub mod rpc;
pub mod skill;
pub mod socket;
pub mod text;
