//! Notifications emitted by the agent.

use vstd::prelude::*;

verus! {

/// A command produced output; params: `command_output` notification.
pub const COMMAND_OUTPUT: &'static str = "command_output";

/// A command finished; params: `command_finished` notification.
pub const COMMAND_FINISHED: &'static str = "command_finished";

/// A FUSE mount was torn down; params: `mount_gone` notification.
pub const MOUNT_GONE: &'static str = "mount_gone";

/// A piece of a streamed file; params: the request id and the bytes.
pub const STREAM_CHUNK: &'static str = "stream_chunk";

/// A streamed file is complete; params: the request id and the size.
pub const STREAM_END: &'static str = "stream_end";

/// An agent joined the session; sent by the relay.
pub const AGENT_CONNECTED: &'static str = "agent_connected";

/// The agent left the session; sent by the relay.
pub const AGENT_DISCONNECTED: &'static str = "agent_disconnected";

/// The relay's answer to a `Hello`.
pub const HELLO_ACK: &'static str = "hello_ack";

} // verus!
